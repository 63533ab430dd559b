//! Reading the fields of a certificate upload form.
use vstd::prelude::*;

use crate::certificates::CertificateUpload;
use crate::error::{AppError, AppResult, ErrorKind};
use crate::text::{append, chars_of, same_chars, split, split_chars, string_of, trim, trimmed};

verus! {

/// `s` with line breaks read as commas.
pub open spec fn commas_for_breaks(s: Seq<char>) -> Seq<char> {
    s.map_values(|c: char| if c == '\n' || c == '\r' { ',' } else { c })
}

/// The non-blank pieces of `parts`, trimmed, in order.
pub open spec fn nonblank_trimmed(parts: Seq<Seq<char>>) -> Seq<Seq<char>>
    decreases parts.len(),
{
    if parts.len() == 0 {
        Seq::empty()
    } else {
        nonblank_trimmed(parts.drop_last()) + if trim(parts.last()).len() > 0 {
            seq![trim(parts.last())]
        } else {
            Seq::empty()
        }
    }
}

/// The host patterns of a `hosts` field: separated by commas or line breaks,
/// trimmed, blanks left out.
pub open spec fn spec_upload_hosts(raw: Seq<char>) -> Seq<Seq<char>> {
    nonblank_trimmed(split(commas_for_breaks(raw), ','))
}

/// The host patterns of a `hosts` field.
pub fn upload_hosts(raw: &str) -> (r: Vec<String>)
    ensures
        crate::certificates::views(r@) == spec_upload_hosts(raw@),
{
    let text = chars_of(raw);
    let mut unified: Vec<char> = Vec::new();
    let mut i: usize = 0;
    while i < text.len()
        invariant
            i <= text.len(),
            unified@ =~= commas_for_breaks(text@.take(i as int)),
        decreases text.len() - i,
    {
        let c = text[i];
        unified.push(
            if c == '\n' || c == '\r' {
                ','
            } else {
                c
            },
        );
        i = i + 1;
    }
    assert(text@.take(text.len() as int) =~= text@);
    let parts = split_chars(&unified, ',');
    let ghost pv = split(unified@, ',');
    let mut hosts: Vec<String> = Vec::new();
    let mut k: usize = 0;
    assert(pv.take(0) =~= Seq::<Seq<char>>::empty());
    while k < parts.len()
        invariant
            k <= parts.len(),
            parts@.len() == pv.len(),
            forall|j: int| 0 <= j < parts@.len() ==> #[trigger] parts@[j]@ == pv[j],
            crate::certificates::views(hosts@) == nonblank_trimmed(pv.take(k as int)),
        decreases parts.len() - k,
    {
        assert(parts@[k as int]@ == pv[k as int]);
        assert(pv.take(k + 1).drop_last() =~= pv.take(k as int));
        let t = trimmed(&parts[k]);
        let ghost before = hosts@;
        if t.len() > 0 {
            hosts.push(string_of(&t));
            assert(crate::certificates::views(hosts@) =~= crate::certificates::views(before).push(
                t@,
            ));
        }
        k = k + 1;
    }
    assert(pv.take(parts.len() as int) =~= pv);
    hosts
}

/// Whether an `enabled` field turns the certificate on: `true`, `1`, `yes` or `on`.
pub open spec fn spec_enabled_flag(raw: Seq<char>) -> bool {
    let t = trim(raw);
    t == "true"@ || t == "1"@ || t == "yes"@ || t == "on"@
}

/// Whether an `enabled` field turns the certificate on.
pub fn parse_enabled(raw: &str) -> (r: bool)
    ensures
        r == spec_enabled_flag(raw@),
{
    let t = trimmed(&chars_of(raw));
    same_chars(&t, &chars_of("true")) || same_chars(&t, &chars_of("1")) || same_chars(
        &t,
        &chars_of("yes"),
    ) || same_chars(&t, &chars_of("on"))
}

/// The fields of a certificate upload form as they are read.
#[derive(Debug)]
pub struct UploadForm {
    pub name: String,
    pub hosts: Vec<String>,
    pub enabled: bool,
    pub cert_file_name: Option<String>,
    pub key_file_name: Option<String>,
    pub cert_bytes: Vec<u8>,
    pub key_bytes: Vec<u8>,
}

impl UploadForm {
    /// A form before any field is read: no name, no hosts, enabled, no files.
    pub fn new() -> (r: Self)
        ensures
            r.name@.len() == 0,
            r.hosts@.len() == 0,
            r.enabled,
            r.cert_file_name is None,
            r.key_file_name is None,
            r.cert_bytes@.len() == 0,
            r.key_bytes@.len() == 0,
    {
        UploadForm {
            name: String::new(),
            hosts: Vec::new(),
            enabled: true,
            cert_file_name: None,
            key_file_name: None,
            cert_bytes: Vec::new(),
            key_bytes: Vec::new(),
        }
    }

    /// Takes in the text field `field`: `name` sets the name, `hosts` adds host
    /// patterns, `enabled` sets the flag; other fields are ignored.
    pub fn set_text(&mut self, field: &str, text: &str)
        ensures
            field@ == "name"@ ==> final(self).name@ == text@,
            field@ != "name"@ ==> final(self).name == old(self).name,
            field@ == "hosts"@ ==> crate::certificates::views(final(self).hosts@)
                == crate::certificates::views(old(self).hosts@) + spec_upload_hosts(text@),
            field@ != "hosts"@ ==> final(self).hosts == old(self).hosts,
            field@ == "enabled"@ ==> final(self).enabled == spec_enabled_flag(text@),
            field@ != "enabled"@ ==> final(self).enabled == old(self).enabled,
            final(self).cert_file_name == old(self).cert_file_name,
            final(self).key_file_name == old(self).key_file_name,
            final(self).cert_bytes == old(self).cert_bytes,
            final(self).key_bytes == old(self).key_bytes,
    {
        proof {
            reveal_strlit("name");
            reveal_strlit("hosts");
            reveal_strlit("enabled");
            reveal_strlit("cert");
            reveal_strlit("key");
            assert("hosts"@.len() != "name"@.len());
            assert("enabled"@.len() != "name"@.len() && "enabled"@.len() != "hosts"@.len());
            assert("key"@.len() != "cert"@.len());
        }
        let f = chars_of(field);
        if same_chars(&f, &chars_of("name")) {
            self.name = string_of(&chars_of(text));
        } else if same_chars(&f, &chars_of("hosts")) {
            let ghost before = self.hosts@;
            let mut more = upload_hosts(text);
            let ghost mv = more@;
            self.hosts.append(&mut more);
            assert(crate::certificates::views(self.hosts@) =~= crate::certificates::views(before)
                + crate::certificates::views(mv));
        } else if same_chars(&f, &chars_of("enabled")) {
            self.enabled = parse_enabled(text);
        }
    }

    /// Takes in the file field `field`: `cert` and `key` set that file's name and
    /// bytes; other fields are ignored.
    pub fn set_file(&mut self, field: &str, file_name: Option<String>, bytes: Vec<u8>)
        ensures
            field@ == "cert"@ ==> final(self).cert_file_name == file_name && final(self).cert_bytes
                == bytes,
            field@ != "cert"@ ==> final(self).cert_file_name == old(self).cert_file_name,
            field@ != "cert"@ ==> final(self).cert_bytes == old(self).cert_bytes,
            field@ == "key"@ ==> final(self).key_file_name == file_name && final(self).key_bytes
                == bytes,
            field@ != "key"@ ==> final(self).key_file_name == old(self).key_file_name,
            field@ != "key"@ ==> final(self).key_bytes == old(self).key_bytes,
            final(self).name == old(self).name,
            final(self).hosts == old(self).hosts,
            final(self).enabled == old(self).enabled,
    {
        proof {
            reveal_strlit("name");
            reveal_strlit("hosts");
            reveal_strlit("enabled");
            reveal_strlit("cert");
            reveal_strlit("key");
            assert("hosts"@.len() != "name"@.len());
            assert("enabled"@.len() != "name"@.len() && "enabled"@.len() != "hosts"@.len());
            assert("key"@.len() != "cert"@.len());
        }
        let f = chars_of(field);
        if same_chars(&f, &chars_of("cert")) {
            self.cert_file_name = file_name;
            self.cert_bytes = bytes;
        } else if same_chars(&f, &chars_of("key")) {
            self.key_file_name = file_name;
            self.key_bytes = bytes;
        }
    }

    /// The upload the form makes; both files are required.
    pub fn finish(self) -> (r: AppResult<CertificateUpload>)
        ensures
            self.cert_bytes@.len() == 0 ==> (r matches Err(e) && e@ == (
                ErrorKind::BadRequest,
                "certificate file is required"@,
            )),
            self.cert_bytes@.len() > 0 && self.key_bytes@.len() == 0 ==> (r matches Err(e) && e@
                == (ErrorKind::BadRequest, "private key file is required"@)),
            self.cert_bytes@.len() > 0 && self.key_bytes@.len() > 0 ==> (r matches Ok(u) && u
                == (CertificateUpload {
                name: self.name,
                hosts: self.hosts,
                enabled: self.enabled,
                cert_file_name: self.cert_file_name,
                key_file_name: self.key_file_name,
                cert_bytes: self.cert_bytes,
                key_bytes: self.key_bytes,
            })),
    {
        if self.cert_bytes.len() == 0 {
            return Err(crate::error::bad_request_msg("certificate file is required"));
        }
        if self.key_bytes.len() == 0 {
            return Err(crate::error::bad_request_msg("private key file is required"));
        }
        let UploadForm {
            name,
            hosts,
            enabled,
            cert_file_name,
            key_file_name,
            cert_bytes,
            key_bytes,
        } = self;
        Ok(
            CertificateUpload {
                name,
                hosts,
                enabled,
                cert_file_name,
                key_file_name,
                cert_bytes,
                key_bytes,
            },
        )
    }
}

/// What the form field `field` holds, as an error message says it.
pub open spec fn field_description(field: Seq<char>) -> Seq<char> {
    if field == "name"@ {
        "certificate name"@
    } else if field == "hosts"@ {
        "certificate hosts"@
    } else if field == "enabled"@ {
        "certificate enabled flag"@
    } else if field == "cert"@ {
        "certificate file"@
    } else if field == "key"@ {
        "private key file"@
    } else {
        "certificate upload"@
    }
}

/// The error for a form field (or, for other names, the form) that could not be read.
pub fn upload_read_error(field: &str, err: &str) -> (e: AppError)
    ensures
        e@ == (ErrorKind::BadRequest, "failed to read "@ + field_description(field@) + ": "@ + err@),
{
    proof {
        reveal_strlit("name");
        reveal_strlit("hosts");
        reveal_strlit("enabled");
        reveal_strlit("cert");
        reveal_strlit("key");
    }
    let f = chars_of(field);
    let what = if same_chars(&f, &chars_of("name")) {
        chars_of("certificate name")
    } else if same_chars(&f, &chars_of("hosts")) {
        chars_of("certificate hosts")
    } else if same_chars(&f, &chars_of("enabled")) {
        chars_of("certificate enabled flag")
    } else if same_chars(&f, &chars_of("cert")) {
        chars_of("certificate file")
    } else if same_chars(&f, &chars_of("key")) {
        chars_of("private key file")
    } else {
        chars_of("certificate upload")
    };
    let mut m = chars_of("failed to read ");
    append(&mut m, &what);
    append(&mut m, &chars_of(": "));
    append(&mut m, &chars_of(err));
    AppError::BadRequest(string_of(&m))
}

} // verus!
