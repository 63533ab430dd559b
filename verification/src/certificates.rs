//! Client certificates for mutual TLS: which hosts each one serves, how an
//! upload is checked, and which certificate a request's host selects.
use vstd::prelude::*;
use sha2::Digest;
use vstd::utf8::encode_utf8;

use crate::error::{bad_request, bad_request_msg, AppError, AppResult, ErrorKind};
use crate::text::{
    append, ascii_lower, chars_of, ends_with, find, find_in, has_char, same_chars, slice_of,
    starts_with, string_of, strip_trailing, to_ascii_lower, trim, trim_end_char, trimmed, split,
    split_chars, parse_u64, parse_u64_chars, dec_int, dec_nat, push_dec_i64, push_dec_u64,
};

verus! {

/// `host` trimmed, without trailing dots, and ASCII-lowercased.
pub open spec fn normalized_host(host: Seq<char>) -> Seq<char> {
    ascii_lower(trim_end_char(trim(host), '.'))
}

/// The length in bytes of the UTF-8 text `s`, as `str::len` reports it.
pub open spec fn byte_len(s: Seq<char>) -> usize {
    encode_utf8(s).len() as usize
}

/// The normalized form of the characters `host`.
pub fn normalize_host_chars(host: &Vec<char>) -> (r: Vec<char>)
    ensures
        r@ == normalized_host(host@),
{
    let t = trimmed(host);
    let u = strip_trailing(&t, '.');
    to_ascii_lower(&u)
}

/// A host name trimmed, without trailing dots, and ASCII-lowercased.
pub fn normalize_host(host: &str) -> (r: String)
    ensures
        r@ == normalized_host(host@),
{
    let h = chars_of(host);
    string_of(&normalize_host_chars(&h))
}

/// The byte length of the text `s`.
fn byte_len_of(s: &Vec<char>) -> (n: usize)
    ensures
        n == byte_len(s@),
{
    let t = string_of(s);
    t.as_str().len()
}

/// How a host pattern matched: exactly, or as a wildcard over a suffix of the
/// given byte length.
#[derive(Debug, Clone, Copy, PartialEq, Eq, Structural)]
pub struct MatchSpecificity {
    pub exact: bool,
    pub suffix_len: usize,
}

/// How `pattern` matches the (already normalized) `host`: the pattern is normalized;
/// an equal pattern matches exactly; `*.suffix` matches a host that is one nonempty
/// label without dots followed by `.suffix`.
pub open spec fn spec_match_pattern(host: Seq<char>, pattern: Seq<char>) -> Option<MatchSpecificity> {
    let p = normalized_host(pattern);
    if host == p {
        Some(MatchSpecificity { exact: true, suffix_len: byte_len(p) })
    } else if seq!['*', '.'].is_prefix_of(p) {
        let suffix = p.skip(2);
        let dotted = seq!['.'] + suffix;
        if dotted.is_suffix_of(host) {
            let prefix = host.take(host.len() - dotted.len());
            if prefix.len() == 0 || prefix.contains('.') {
                None
            } else {
                Some(MatchSpecificity { exact: false, suffix_len: byte_len(suffix) })
            }
        } else {
            None
        }
    } else {
        None
    }
}

fn match_pattern_chars(host: &Vec<char>, pattern: &Vec<char>) -> (r: Option<MatchSpecificity>)
    ensures
        r == spec_match_pattern(host@, pattern@),
{
    let p = normalize_host_chars(pattern);
    if same_chars(host, &p) {
        return Some(MatchSpecificity { exact: true, suffix_len: byte_len_of(&p) });
    }
    let star_dot = vec!['*', '.'];
    if !starts_with(&p, &star_dot) {
        return None;
    }
    let suffix = slice_of(&p, 2, p.len());
    assert(suffix@ =~= p@.skip(2));
    let mut dotted = vec!['.'];
    append(&mut dotted, &suffix);
    if !ends_with(host, &dotted) {
        return None;
    }
    let prefix = slice_of(host, 0, host.len() - dotted.len());
    assert(prefix@ =~= host@.take(host@.len() - dotted@.len()));
    if prefix.len() == 0 || has_char(&prefix, '.') {
        return None;
    }
    Some(MatchSpecificity { exact: false, suffix_len: byte_len_of(&suffix) })
}

/// How `pattern` matches `host` (taken as it is; callers normalize it first).
pub fn match_pattern(host: &str, pattern: &str) -> (r: Option<MatchSpecificity>)
    ensures
        r == spec_match_pattern(host@, pattern@),
{
    let h = chars_of(host);
    let p = chars_of(pattern);
    match_pattern_chars(&h, &p)
}

/// Whether `c` may appear in a host name: an ASCII letter or digit, `.` or `-`.
pub open spec fn is_host_char(c: char) -> bool {
    ('a' <= c && c <= 'z') || ('A' <= c && c <= 'Z') || ('0' <= c && c <= '9') || c == '.' || c
        == '-'
}

/// Whether `host` is a valid host name: nonempty, no leading, trailing or doubled
/// dot, and only host characters.
pub open spec fn valid_host_name(host: Seq<char>) -> bool {
    &&& host.len() > 0
    &&& host[0] != '.'
    &&& host.last() != '.'
    &&& find(host, seq!['.', '.']) is None
    &&& forall|i: int| 0 <= i < host.len() ==> is_host_char(#[trigger] host[i])
}

/// The error for a host pattern, if it has one.
pub open spec fn host_pattern_error(pattern: Seq<char>) -> Option<(ErrorKind, Seq<char>)> {
    if seq!['*', '.'].is_prefix_of(pattern) {
        let suffix = pattern.skip(2);
        if suffix.contains('*') || suffix.len() == 0 {
            Some((ErrorKind::BadRequest, "invalid wildcard host pattern"@))
        } else if !valid_host_name(suffix) {
            Some((ErrorKind::BadRequest, "invalid host pattern "@ + suffix))
        } else {
            None
        }
    } else if pattern.contains('*') {
        Some((ErrorKind::BadRequest, "wildcards must use the form *.example.com"@))
    } else if !valid_host_name(pattern) {
        Some((ErrorKind::BadRequest, "invalid host pattern "@ + pattern))
    } else {
        None
    }
}

fn validate_host_name(host: &Vec<char>) -> (r: AppResult<()>)
    ensures
        r is Ok <==> valid_host_name(host@),
        r matches Err(e) ==> e@ == (ErrorKind::BadRequest, "invalid host pattern "@ + host@),
{
    let mut ok = host.len() > 0 && host[0] != '.' && host[host.len() - 1] != '.';
    if ok {
        let dots = vec!['.', '.'];
        ok = find_in(host, &dots, 0).is_none();
    }
    if ok {
        let mut i: usize = 0;
        while i < host.len()
            invariant
                i <= host.len(),
                forall|j: int| 0 <= j < i ==> is_host_char(#[trigger] host@[j]),
            decreases host.len() - i,
        {
            let c = host[i];
            if !(('a' <= c && c <= 'z') || ('A' <= c && c <= 'Z') || ('0' <= c && c <= '9') || c
                == '.' || c == '-') {
                assert(!is_host_char(host@[i as int]));
                return Err(bad_request("invalid host pattern ", host));
            }
            i = i + 1;
        }
        return Ok(());
    }
    Err(bad_request("invalid host pattern ", host))
}

fn validate_host_pattern(pattern: &Vec<char>) -> (r: AppResult<()>)
    ensures
        r is Ok <==> host_pattern_error(pattern@) is None,
        r matches Err(e) ==> Some(e@) == host_pattern_error(pattern@),
{
    let star_dot = vec!['*', '.'];
    if starts_with(pattern, &star_dot) {
        let suffix = slice_of(pattern, 2, pattern.len());
        assert(suffix@ =~= pattern@.skip(2));
        if has_char(&suffix, '*') || suffix.len() == 0 {
            return Err(bad_request_msg("invalid wildcard host pattern"));
        }
        return validate_host_name(&suffix);
    }
    if has_char(pattern, '*') {
        return Err(bad_request_msg("wildcards must use the form *.example.com"));
    }
    validate_host_name(pattern)
}

/// The host patterns of `hosts[..n]` cleaned in order: each normalized, the empty
/// ones dropped, and the first invalid one an error.
pub open spec fn clean_hosts_prefix(hosts: Seq<Seq<char>>, n: int) -> Result<
    Seq<Seq<char>>,
    (ErrorKind, Seq<char>),
>
    decreases n,
{
    if n <= 0 {
        Ok(Seq::empty())
    } else {
        match clean_hosts_prefix(hosts, n - 1) {
            Err(e) => Err(e),
            Ok(done) => {
                let h = normalized_host(hosts[n - 1]);
                if h.len() == 0 {
                    Ok(done)
                } else {
                    match host_pattern_error(h) {
                        Some(e) => Err(e),
                        None => Ok(done.push(h)),
                    }
                }
            },
        }
    }
}

/// The cleaned host patterns of a certificate: at least one is required.
pub open spec fn spec_clean_hosts(hosts: Seq<Seq<char>>) -> Result<
    Seq<Seq<char>>,
    (ErrorKind, Seq<char>),
> {
    match clean_hosts_prefix(hosts, hosts.len() as int) {
        Err(e) => Err(e),
        Ok(done) => if done.len() == 0 {
            Err((ErrorKind::BadRequest, "at least one host pattern is required"@))
        } else {
            Ok(done)
        },
    }
}

proof fn lemma_clean_hosts_error_stays(hosts: Seq<Seq<char>>, n: int, m: int)
    requires
        0 <= n <= m,
        clean_hosts_prefix(hosts, n) is Err,
    ensures
        clean_hosts_prefix(hosts, m) == clean_hosts_prefix(hosts, n),
    decreases m - n,
{
    if m > n {
        lemma_clean_hosts_error_stays(hosts, n, m - 1);
    }
}

/// The views of a list of strings.
pub open spec fn views(v: Seq<String>) -> Seq<Seq<char>> {
    v.map_values(|s: String| s@)
}

/// Cleans the host patterns of an upload.
pub fn clean_hosts(hosts: Vec<String>) -> (r: AppResult<Vec<String>>)
    ensures
        match spec_clean_hosts(views(hosts@)) {
            Ok(done) => r matches Ok(v) && views(v@) == done,
            Err(e) => r matches Err(x) && x@ == e,
        },
{
    let ghost hv = views(hosts@);
    let mut cleaned: Vec<String> = Vec::new();
    let mut i: usize = 0;
    assert(views(cleaned@) =~= Seq::<Seq<char>>::empty());
    while i < hosts.len()
        invariant
            i <= hosts.len(),
            hv == views(hosts@),
            clean_hosts_prefix(hv, i as int) == Ok::<Seq<Seq<char>>, (ErrorKind, Seq<char>)>(
                views(cleaned@),
            ),
        decreases hosts.len() - i,
    {
        let raw = chars_of(hosts[i].as_str());
        let host = normalize_host_chars(&raw);
        assert(hv[i as int] == hosts@[i as int]@);
        if host.len() > 0 {
            match validate_host_pattern(&host) {
                Err(e) => {
                    proof {
                        lemma_clean_hosts_error_stays(hv, i + 1, hv.len() as int);
                    }
                    return Err(e);
                },
                Ok(()) => {
                    let ghost before = cleaned@;
                    cleaned.push(string_of(&host));
                    assert(views(cleaned@) =~= views(before).push(host@));
                },
            }
        }
        i = i + 1;
    }
    if cleaned.len() == 0 {
        return Err(bad_request_msg("at least one host pattern is required"));
    }
    Ok(cleaned)
}

/// The trimmed certificate name, which must not be empty.
pub open spec fn spec_clean_name(name: Seq<char>) -> Result<Seq<char>, (ErrorKind, Seq<char>)> {
    if trim(name).len() == 0 {
        Err((ErrorKind::BadRequest, "certificate name is required"@))
    } else {
        Ok(trim(name))
    }
}

/// Cleans a certificate name.
pub fn clean_name(name: &str) -> (r: AppResult<String>)
    ensures
        match spec_clean_name(name@) {
            Ok(n) => r matches Ok(s) && s@ == n,
            Err(e) => r matches Err(x) && x@ == e,
        },
{
    let n = trimmed(&chars_of(name));
    if n.len() == 0 {
        return Err(bad_request_msg("certificate name is required"));
    }
    Ok(string_of(&n))
}


/// The name of the file a certificate is stored under.
pub const CERT_FILE_NAME: &'static str = "client.crt";

/// The name of the file a private key is stored under.
pub const KEY_FILE_NAME: &'static str = "client.key";

/// A client certificate on record, with the host patterns it serves.
#[derive(Debug)]
pub struct CertificateConfig {
    pub id: String,
    pub name: String,
    pub hosts: Vec<String>,
    pub enabled: bool,
    pub cert_path: String,
    pub key_path: String,
    pub cert_file_name: String,
    pub key_file_name: String,
    pub fingerprint_sha256: String,
    pub created_at_ms: i64,
    pub updated_at_ms: i64,
}

/// The certificate that a host selected, and the pattern that selected it.
#[derive(Debug)]
pub struct CertificateMatch {
    pub id: String,
    pub name: String,
    pub matched_host_pattern: String,
}

/// An uploaded certificate and private key, before they are checked.
#[derive(Debug)]
pub struct CertificateUpload {
    pub name: String,
    pub hosts: Vec<String>,
    pub enabled: bool,
    pub cert_file_name: Option<String>,
    pub key_file_name: Option<String>,
    pub cert_bytes: Vec<u8>,
    pub key_bytes: Vec<u8>,
}

/// A copy of a list of strings.
pub fn copy_strings(v: &Vec<String>) -> (r: Vec<String>)
    ensures
        r@ == v@,
{
    let mut r: Vec<String> = Vec::new();
    let mut i: usize = 0;
    while i < v.len()
        invariant
            i <= v.len(),
            r@ =~= v@.take(i as int),
        decreases v.len() - i,
    {
        r.push(v[i].clone());
        i = i + 1;
        assert(r@ =~= v@.take(i as int));
    }
    assert(v@.take(v.len() as int) =~= v@);
    r
}

/// The contents of a certificate record.
pub struct CertificateConfigView {
    pub id: Seq<char>,
    pub name: Seq<char>,
    pub hosts: Seq<Seq<char>>,
    pub enabled: bool,
    pub cert_path: Seq<char>,
    pub key_path: Seq<char>,
    pub cert_file_name: Seq<char>,
    pub key_file_name: Seq<char>,
    pub fingerprint_sha256: Seq<char>,
    pub created_at_ms: i64,
    pub updated_at_ms: i64,
}

impl View for CertificateConfig {
    type V = CertificateConfigView;

    open spec fn view(&self) -> CertificateConfigView {
        CertificateConfigView {
            id: self.id@,
            name: self.name@,
            hosts: views(self.hosts@),
            enabled: self.enabled,
            cert_path: self.cert_path@,
            key_path: self.key_path@,
            cert_file_name: self.cert_file_name@,
            key_file_name: self.key_file_name@,
            fingerprint_sha256: self.fingerprint_sha256@,
            created_at_ms: self.created_at_ms,
            updated_at_ms: self.updated_at_ms,
        }
    }
}

impl CertificateConfig {
    /// A copy of the record.
    pub fn duplicate(&self) -> (r: CertificateConfig)
        ensures
            r@ == self@,
    {
        CertificateConfig {
            id: self.id.clone(),
            name: self.name.clone(),
            hosts: copy_strings(&self.hosts),
            enabled: self.enabled,
            cert_path: self.cert_path.clone(),
            key_path: self.key_path.clone(),
            cert_file_name: self.cert_file_name.clone(),
            key_file_name: self.key_file_name.clone(),
            fingerprint_sha256: self.fingerprint_sha256.clone(),
            created_at_ms: self.created_at_ms,
            updated_at_ms: self.updated_at_ms,
        }
    }
}

/// How the pattern `j` of certificate `i` matches `host`; disabled certificates
/// match nothing.
pub open spec fn match_at(certs: Seq<CertificateConfig>, host: Seq<char>, i: int, j: int) -> Option<
    MatchSpecificity,
> {
    if 0 <= i < certs.len() && certs[i].enabled && 0 <= j < certs[i].hosts@.len() {
        spec_match_pattern(host, certs[i].hosts@[j]@)
    } else {
        None
    }
}

/// The rank of a match: exactness, then suffix length, then earlier certificates.
pub open spec fn rank_beats(a: MatchSpecificity, ai: int, b: MatchSpecificity, bi: int) -> bool {
    ||| (a.exact && !b.exact)
    ||| (a.exact == b.exact && a.suffix_len > b.suffix_len)
    ||| (a.exact == b.exact && a.suffix_len == b.suffix_len && ai < bi)
}

/// Whether two matches rank equally (which needs the same certificate).
pub open spec fn rank_ties(a: MatchSpecificity, ai: int, b: MatchSpecificity, bi: int) -> bool {
    a.exact == b.exact && a.suffix_len == b.suffix_len && ai == bi
}

/// Whether pattern `j` of certificate `i` is the one `host` selects: it matches,
/// no other match outranks it, and an equally ranked one comes after it.
pub open spec fn is_selected(certs: Seq<CertificateConfig>, host: Seq<char>, i: int, j: int) -> bool {
    &&& match_at(certs, host, i, j) is Some
    &&& forall|i2: int, j2: int|
        #![trigger match_at(certs, host, i2, j2)]
        match_at(certs, host, i2, j2) is Some && (i2 != i || j2 != j) ==> {
            &&& !rank_beats(
                match_at(certs, host, i2, j2)->0,
                i2,
                match_at(certs, host, i, j)->0,
                i,
            )
            &&& (rank_ties(
                match_at(certs, host, i2, j2)->0,
                i2,
                match_at(certs, host, i, j)->0,
                i,
            ) ==> j < j2)
        }
}

/// A candidate while searching for the best match.
#[derive(Debug, Clone, Copy)]
struct MatchCandidate {
    exact: bool,
    suffix_len: usize,
    order: usize,
    pattern: usize,
}

impl MatchCandidate {
    /// Whether `self` outranks `other`.
    fn beats(&self, other: &Self) -> (r: bool)
        ensures
            r == rank_beats(
                MatchSpecificity { exact: self.exact, suffix_len: self.suffix_len },
                self.order as int,
                MatchSpecificity { exact: other.exact, suffix_len: other.suffix_len },
                other.order as int,
            ),
    {
        if self.exact != other.exact {
            return self.exact;
        }
        if self.suffix_len != other.suffix_len {
            return self.suffix_len > other.suffix_len;
        }
        self.order < other.order
    }
}

/// Selection of the certificate for `host` among `certs`.
pub fn select_certificate(certs: &Vec<CertificateConfig>, host: &Vec<char>) -> (r: Option<
    CertificateMatch,
>)
    ensures
        r is None <==> forall|i: int, j: int| match_at(certs@, host@, i, j) is None,
        r matches Some(m) ==> exists|i: int, j: int|
            {
                &&& is_selected(certs@, host@, i, j)
                &&& m.id@ == certs@[i].id@
                &&& m.name@ == certs@[i].name@
                &&& m.matched_host_pattern@ == certs@[i].hosts@[j]@
            },
{
    let mut best: Option<MatchCandidate> = None;
    let mut i: usize = 0;
    while i < certs.len()
        invariant
            i <= certs.len(),
            best is None ==> forall|i2: int, j2: int|
                #![trigger match_at(certs@, host@, i2, j2)]
                i2 < i ==> match_at(certs@, host@, i2, j2) is None,
            best matches Some(c) ==> {
                &&& c.order < i
                &&& match_at(certs@, host@, c.order as int, c.pattern as int) == Some(
                    MatchSpecificity { exact: c.exact, suffix_len: c.suffix_len },
                )
                &&& forall|i2: int, j2: int|
                    #![trigger match_at(certs@, host@, i2, j2)]
                    i2 < i && match_at(certs@, host@, i2, j2) is Some && (i2 != c.order || j2
                        != c.pattern) ==> {
                        &&& !rank_beats(
                            match_at(certs@, host@, i2, j2)->0,
                            i2,
                            match_at(certs@, host@, c.order as int, c.pattern as int)->0,
                            c.order as int,
                        )
                        &&& (rank_ties(
                            match_at(certs@, host@, i2, j2)->0,
                            i2,
                            match_at(certs@, host@, c.order as int, c.pattern as int)->0,
                            c.order as int,
                        ) ==> c.pattern < j2)
                    }
            },
        decreases certs.len() - i,
    {
        let cert = &certs[i];
        if cert.enabled {
            let mut j: usize = 0;
            while j < cert.hosts.len()
                invariant
                    i < certs.len(),
                    *cert == certs@[i as int],
                    cert.enabled,
                    j <= cert.hosts.len(),
                    best is None ==> forall|i2: int, j2: int|
                        #![trigger match_at(certs@, host@, i2, j2)]
                        (i2 < i || (i2 == i && j2 < j)) ==> match_at(certs@, host@, i2, j2) is None,
                    best matches Some(c) ==> {
                        &&& c.order <= i
                        &&& (c.order == i ==> c.pattern < j)
                        &&& match_at(certs@, host@, c.order as int, c.pattern as int) == Some(
                            MatchSpecificity { exact: c.exact, suffix_len: c.suffix_len },
                        )
                        &&& forall|i2: int, j2: int|
                            #![trigger match_at(certs@, host@, i2, j2)]
                            (i2 < i || (i2 == i && j2 < j)) && match_at(certs@, host@, i2, j2) is Some
                                && (i2 != c.order || j2 != c.pattern) ==> {
                                &&& !rank_beats(
                                    match_at(certs@, host@, i2, j2)->0,
                                    i2,
                                    match_at(
                                        certs@,
                                        host@,
                                        c.order as int,
                                        c.pattern as int,
                                    )->0,
                                    c.order as int,
                                )
                                &&& (rank_ties(
                                    match_at(certs@, host@, i2, j2)->0,
                                    i2,
                                    match_at(
                                        certs@,
                                        host@,
                                        c.order as int,
                                        c.pattern as int,
                                    )->0,
                                    c.order as int,
                                ) ==> c.pattern < j2)
                            }
                    },
                decreases cert.hosts.len() - j,
            {
                let pattern = chars_of(cert.hosts[j].as_str());
                let m = match_pattern_chars(host, &pattern);
                assert(m == match_at(certs@, host@, i as int, j as int));
                if let Some(spec) = m {
                    let candidate = MatchCandidate {
                        exact: spec.exact,
                        suffix_len: spec.suffix_len,
                        order: i,
                        pattern: j,
                    };
                    let replace = match best {
                        None => true,
                        Some(current) => candidate.beats(&current),
                    };
                    if replace {
                        best = Some(candidate);
                    }
                }
                j = j + 1;
            }
        } else {
            assert forall|j2: int| match_at(certs@, host@, i as int, j2) is None by {}
        }
        i = i + 1;
    }
    match best {
        None => None,
        Some(c) => {
            assert(is_selected(certs@, host@, c.order as int, c.pattern as int));
            let cert = &certs[c.order];
            Some(
                CertificateMatch {
                    id: cert.id.clone(),
                    name: cert.name.clone(),
                    matched_host_pattern: cert.hosts[c.pattern].clone(),
                },
            )
        },
    }
}


/// The last segment of `segs` that is neither empty nor `.`.
pub open spec fn last_named_segment(segs: Seq<Seq<char>>) -> Option<Seq<char>>
    decreases segs.len(),
{
    if segs.len() == 0 {
        None
    } else if segs.last().len() == 0 || segs.last() == seq!['.'] {
        last_named_segment(segs.drop_last())
    } else {
        Some(segs.last())
    }
}

/// `Path::file_name` for a Unix path: the last component, unless there is none or
/// it is `..` (repeated separators and `.` components are not components).
pub open spec fn path_file_name(p: Seq<char>) -> Option<Seq<char>> {
    match last_named_segment(split(p, '/')) {
        Some(seg) => if seg == seq!['.', '.'] {
            None
        } else {
            Some(seg)
        },
        None => None,
    }
}

/// The file name of the path `p`.
pub fn file_name_of(p: &Vec<char>) -> (r: Option<Vec<char>>)
    ensures
        r matches Some(v) ==> path_file_name(p@) == Some(v@),
        r is None ==> path_file_name(p@) is None,
{
    let segs = split_chars(p, '/');
    let ghost sv = split(p@, '/');
    let mut k: usize = segs.len();
    assert(sv.take(k as int) =~= sv);
    while k > 0 && (segs[k - 1].len() == 0 || (segs[k - 1].len() == 1 && segs[k - 1][0] == '.'))
        invariant
            k <= segs@.len(),
            segs@.len() == sv.len(),
            forall|x: int| 0 <= x < segs@.len() ==> #[trigger] segs@[x]@ == sv[x],
            last_named_segment(sv) == last_named_segment(sv.take(k as int)),
        decreases k,
    {
        proof {
            let t = sv.take(k as int);
            assert(t.last() == segs@[k - 1]@);
            if segs@[k - 1]@.len() == 1 {
                assert(segs@[k - 1]@ =~= seq!['.']);
            }
            assert(t.drop_last() =~= sv.take(k - 1));
        }
        k = k - 1;
    }
    if k == 0 {
        return None;
    }
    let last = &segs[k - 1];
    proof {
        let t = sv.take(k as int);
        assert(t.last() == last@);
        assert(last@.len() != 0);
        if last@ == seq!['.'] {
            assert(last@[0] == '.');
        }
    }
    if last.len() == 2 && last[0] == '.' && last[1] == '.' {
        assert(last@ =~= seq!['.', '.']);
        return None;
    }
    assert(last@ != seq!['.', '.']);
    Some(slice_of(last, 0, last.len()))
}

/// The file name an upload keeps: the file name of the given name, unless there is
/// none or it is blank, in which case the fallback.
pub open spec fn spec_clean_file_name(value: Option<Seq<char>>, fallback: Seq<char>) -> Seq<char> {
    match value {
        Some(v) => match path_file_name(v) {
            Some(n) => if trim(n).len() > 0 {
                n
            } else {
                fallback
            },
            None => fallback,
        },
        None => fallback,
    }
}

/// The view of an optional string.
pub open spec fn opt_view(v: Option<String>) -> Option<Seq<char>> {
    match v {
        Some(s) => Some(s@),
        None => None,
    }
}

/// The stored file name for an uploaded file.
pub fn clean_file_name(value: Option<&str>, fallback: &str) -> (r: String)
    ensures
        r@ == spec_clean_file_name(
            match value {
                Some(v) => Some(v@),
                None => None,
            },
            fallback@,
        ),
{
    if let Some(v) = value {
        let chars = chars_of(v);
        if let Some(n) = file_name_of(&chars) {
            let t = trimmed(&n);
            if t.len() > 0 {
                return string_of(&n);
            }
        }
    }
    fallback.to_string()
}

/// `b` with ASCII `a..=z` mapped to `A..=Z`.
pub open spec fn upper_byte(b: u8) -> u8 {
    if 97 <= b && b <= 122 {
        (b - 32) as u8
    } else {
        b
    }
}

/// The bytes of `ENCRYPTED`.
pub open spec fn encrypted_marker() -> Seq<u8> {
    seq![69u8, 78u8, 67u8, 82u8, 89u8, 80u8, 84u8, 69u8, 68u8]
}

/// The nine bytes of `bytes` at `i`, ASCII-uppercased.
pub open spec fn upper_window(bytes: Seq<u8>, i: int) -> Seq<u8> {
    bytes.subrange(i, i + 9).map_values(|b: u8| upper_byte(b))
}

/// Whether the text of `bytes`, uppercased, contains `ENCRYPTED`. The marker is
/// ASCII, and a lossy UTF-8 reading keeps every ASCII byte in place, so this is a
/// question about nine consecutive bytes.
pub open spec fn mentions_encryption(bytes: Seq<u8>) -> bool {
    exists|i: int| 0 <= i && i + 9 <= bytes.len() && #[trigger] upper_window(bytes, i) == encrypted_marker()
}

/// Rejects encrypted private keys, which are not supported.
pub fn validate_key(bytes: &[u8]) -> (r: AppResult<()>)
    ensures
        r is Ok <==> !mentions_encryption(bytes@),
        r matches Err(e) ==> e@ == (ErrorKind::BadRequest,
        "encrypted private keys are not supported yet"@),
{
    let marker: [u8; 9] = [69u8, 78u8, 67u8, 82u8, 89u8, 80u8, 84u8, 69u8, 68u8];
    assert(marker@ =~= encrypted_marker());
    let n = bytes.len();
    if n < 9 {
        return Ok(());
    }
    let mut i: usize = 0;
    while i <= n - 9
        invariant
            n == bytes@.len(),
            marker@ == encrypted_marker(),
            9 <= n,
            i <= n - 8,
            forall|j: int| 0 <= j < i ==> #[trigger] upper_window(bytes@, j) != encrypted_marker(),
        decreases n - i,
    {
        let mut k: usize = 0;
        let mut all = true;
        while k < 9
            invariant
                i + 9 <= n,
                n == bytes@.len(),
                marker@ == encrypted_marker(),
                k <= 9,
                all <==> forall|x: int| 0 <= x < k ==> upper_byte(#[trigger] bytes@[i + x])
                    == encrypted_marker()[x],
            decreases 9 - k,
        {
            let b = bytes[i + k];
            let u: u8 = if 97 <= b && b <= 122 {
                b - 32
            } else {
                b
            };
            if u != marker[k] {
                all = false;
            }
            k = k + 1;
        }
        let ghost w = upper_window(bytes@, i as int);
        if all {
            assert forall|x: int| 0 <= x < 9 implies w[x] == encrypted_marker()[x] by {
                assert(upper_byte(bytes@[i + x]) == encrypted_marker()[x]);
            }
            assert(w =~= encrypted_marker());
            return Err(bad_request_msg("encrypted private keys are not supported yet"));
        }
        proof {
            if w == encrypted_marker() {
                assert forall|x: int| 0 <= x < 9 implies upper_byte(#[trigger] bytes@[i + x])
                    == encrypted_marker()[x] by {
                    assert(w[x] == upper_byte(bytes@[i + x]));
                }
            }
        }
        i = i + 1;
    }
    Ok(())
}

/// The SHA-256 digest of `bytes`.
pub uninterp spec fn sha256_digest(bytes: Seq<u8>) -> Seq<u8>;

/// Calls `sha2::Sha256::digest`; the result is the digest of `bytes`, named
/// `sha256_digest`.
#[verifier::external_body]
fn sha256(bytes: &[u8]) -> (d: Vec<u8>)
    ensures
        d@ == sha256_digest(bytes@),
{
    <sha2::Sha256 as Digest>::digest(bytes).to_vec()
}

/// The lowercase hexadecimal digit for `n < 16`.
pub open spec fn hex_digit(n: u8) -> char {
    if n < 10 {
        ((n + 48) as u32) as char
    } else {
        ((n + 87) as u32) as char
    }
}

/// `bytes` written as lowercase hexadecimal, two digits a byte.
pub open spec fn hex_of(bytes: Seq<u8>) -> Seq<char>
    decreases bytes.len(),
{
    if bytes.len() == 0 {
        Seq::empty()
    } else {
        hex_of(bytes.drop_last()) + seq![hex_digit(bytes.last() / 16), hex_digit(bytes.last() % 16)]
    }
}

pub(crate) fn hex_digit_char(n: u8) -> (c: char)
    requires
        n < 16,
    ensures
        c == hex_digit(n),
{
    if n < 10 {
        (n + 48) as char
    } else {
        (n + 87) as char
    }
}

/// `bytes` in lowercase hexadecimal.
pub fn hex_string(bytes: &Vec<u8>) -> (r: String)
    ensures
        r@ == hex_of(bytes@),
{
    let mut out: Vec<char> = Vec::new();
    let mut i: usize = 0;
    while i < bytes.len()
        invariant
            i <= bytes.len(),
            out@ == hex_of(bytes@.take(i as int)),
        decreases bytes.len() - i,
    {
        let b = bytes[i];
        out.push(hex_digit_char(b / 16));
        out.push(hex_digit_char(b % 16));
        i = i + 1;
        assert(bytes@.take(i as int).drop_last() =~= bytes@.take(i - 1));
        assert(out@ =~= hex_of(bytes@.take(i as int)));
    }
    assert(bytes@.take(bytes.len() as int) =~= bytes@);
    string_of(&out)
}

/// The SHA-256 fingerprint of `bytes` in lowercase hexadecimal.
pub fn sha256_hex(bytes: &[u8]) -> (r: String)
    ensures
        r@ == hex_of(sha256_digest(bytes@)),
{
    let d = sha256(bytes);
    hex_string(&d)
}

#[verifier::external_type_specification]
#[verifier::external_body]
pub struct ExIdentity(reqwest::Identity);

/// Why `reqwest::Identity::from_pem` refuses `pem`, or `None` where it accepts it.
pub uninterp spec fn pem_identity_error(pem: Seq<u8>) -> Option<Seq<char>>;

/// Calls `reqwest::Identity::from_pem`, which reads a PEM private key and
/// certificates; whether it accepts `pem`, and the text of its error, depend on
/// `pem` alone and are named `pem_identity_error`.
#[verifier::external_body]
fn identity_from_pem(pem: &Vec<u8>) -> (r: Result<reqwest::Identity, String>)
    ensures
        r is Ok <==> pem_identity_error(pem@) is None,
        r matches Err(m) ==> pem_identity_error(pem@) == Some(m@),
{
    reqwest::Identity::from_pem(pem).map_err(|err| err.to_string())
}

/// The PEM text of a certificate and key: the certificate, a newline unless it
/// already ends with one, then the key.
pub open spec fn identity_pem(cert: Seq<u8>, key: Seq<u8>) -> Seq<u8> {
    if cert.len() > 0 && cert.last() == 10u8 {
        cert + key
    } else {
        cert.push(10u8) + key
    }
}

/// The error for a certificate and key that do not form an identity, if any.
pub open spec fn identity_error(cert: Seq<u8>, key: Seq<u8>) -> Option<(ErrorKind, Seq<char>)> {
    match pem_identity_error(identity_pem(cert, key)) {
        Some(m) => Some((ErrorKind::BadRequest, "invalid certificate or private key: "@ + m)),
        None => None,
    }
}

fn extend_bytes(out: &mut Vec<u8>, bytes: &[u8])
    ensures
        final(out)@ == old(out)@ + bytes@,
{
    let mut i: usize = 0;
    while i < bytes.len()
        invariant
            i <= bytes.len(),
            out@ == old(out)@ + bytes@.take(i as int),
        decreases bytes.len() - i,
    {
        out.push(bytes[i]);
        i = i + 1;
        assert(out@ =~= old(out)@ + bytes@.take(i as int));
    }
    assert(bytes@.take(bytes.len() as int) =~= bytes@);
}

/// The client identity made of a certificate and its private key.
pub fn identity_from_parts(cert_bytes: &[u8], key_bytes: &[u8]) -> (r: AppResult<reqwest::Identity>)
    ensures
        r is Ok <==> identity_error(cert_bytes@, key_bytes@) is None,
        r matches Err(e) ==> Some(e@) == identity_error(cert_bytes@, key_bytes@),
{
    let mut pem: Vec<u8> = Vec::new();
    extend_bytes(&mut pem, cert_bytes);
    if !(pem.len() > 0 && pem[pem.len() - 1] == 10u8) {
        pem.push(10u8);
    }
    extend_bytes(&mut pem, key_bytes);
    assert(pem@ =~= identity_pem(cert_bytes@, key_bytes@));
    match identity_from_pem(&pem) {
        Ok(identity) => Ok(identity),
        Err(m) => {
            let mc = chars_of(m.as_str());
            Err(bad_request("invalid certificate or private key: ", &mc))
        },
    }
}

/// Checks that a certificate and key form a client identity.
pub fn validate_identity(cert_bytes: &[u8], key_bytes: &[u8]) -> (r: AppResult<()>)
    ensures
        r is Ok <==> identity_error(cert_bytes@, key_bytes@) is None,
        r matches Err(e) ==> Some(e@) == identity_error(cert_bytes@, key_bytes@),
{
    match identity_from_parts(cert_bytes, key_bytes) {
        Ok(_) => Ok(()),
        Err(e) => Err(e),
    }
}

/// The number after the last `-` of an id, if it is one.
pub open spec fn spec_id_suffix(id: Seq<char>) -> Option<u64> {
    parse_u64(split(id, '-').last())
}

pub proof fn lemma_split_nonempty(s: Seq<char>, c: char)
    ensures
        split(s, c).len() > 0,
    decreases s.len(),
{
    match find(s, seq![c]) {
        Some(i) => if 0 <= i < s.len() {
            lemma_split_nonempty(s.skip(i + 1), c);
        },
        None => {},
    }
}

/// The number after the last `-` of an id, if it is one.
pub fn id_suffix(id: &str) -> (r: Option<u64>)
    ensures
        r == spec_id_suffix(id@),
{
    let c = chars_of(id);
    let parts = split_chars(&c, '-');
    proof {
        lemma_split_nonempty(c@, '-');
    }
    parse_u64_chars(&parts[parts.len() - 1])
}

/// An id ending in `-` and the decimal text of `n` has the suffix `n`.
pub proof fn lemma_suffix_after_dash(x: Seq<char>, n: u64)
    ensures
        spec_id_suffix(x + seq!['-'] + dec_nat(n as nat)) == Some(n),
{
    let d = dec_nat(n as nat);
    crate::text::lemma_split_concat(x, d, '-');
    crate::text::lemma_dec_nat_digits(n as nat);
    crate::text::lemma_split_without(d, '-');
    crate::text::lemma_parse_dec_nat(n);
    assert((split(x, '-') + split(d, '-')).last() == d);
}

/// Whether every id in `ids` that ends in a number ends in one below `n`.
pub open spec fn suffixes_below(ids: Seq<Seq<char>>, n: u64) -> bool {
    forall|k: int|
        0 <= k < ids.len() ==> match #[trigger] spec_id_suffix(ids[k]) {
            Some(s) => s < n,
            None => true,
        }
}

/// An id ending in the number `n` is none of `ids` when their numbers are below `n`.
pub proof fn lemma_fresh_suffix(ids: Seq<Seq<char>>, x: Seq<char>, n: u64)
    requires
        suffixes_below(ids, n),
    ensures
        !ids.contains(x + seq!['-'] + dec_nat(n as nat)),
{
    lemma_suffix_after_dash(x, n);
    if ids.contains(x + seq!['-'] + dec_nat(n as nat)) {
        let k = choose|k: int| 0 <= k < ids.len() && ids[k] == x + seq!['-'] + dec_nat(n as nat);
        assert(spec_id_suffix(ids[k]) == Some(n));
    }
}

/// Adding an id ending in `n` to ids whose numbers are below `n` leaves them all below
/// `n + 1`.
pub proof fn lemma_suffixes_below_push(ids: Seq<Seq<char>>, x: Seq<char>, n: u64)
    requires
        suffixes_below(ids, n),
        n < u64::MAX,
    ensures
        suffixes_below(ids.push(x + seq!['-'] + dec_nat(n as nat)), (n + 1) as u64),
{
    lemma_suffix_after_dash(x, n);
    let all = ids.push(x + seq!['-'] + dec_nat(n as nat));
    assert forall|k: int| 0 <= k < all.len() implies match #[trigger] spec_id_suffix(all[k]) {
        Some(s) => s < n + 1,
        None => true,
    } by {
        if k < ids.len() {
            assert(all[k] == ids[k]);
            assert(match spec_id_suffix(ids[k]) {
                Some(s) => s < n,
                None => true,
            });
        }
    }
}

/// The ids of the records.
pub open spec fn cert_ids(certs: Seq<CertificateConfig>) -> Seq<Seq<char>> {
    certs.map_values(|c: CertificateConfig| c.id@)
}

/// `n + 1`, wrapping around as an atomic counter does.
pub open spec fn wrapping_next(n: u64) -> u64 {
    if n == u64::MAX {
        0
    } else {
        (n + 1) as u64
    }
}

pub(crate) fn next_count(n: u64) -> (r: u64)
    ensures
        r == wrapping_next(n),
{
    if n == u64::MAX {
        0
    } else {
        n + 1
    }
}

/// The largest id suffix among the first `n` records (0 where there is none).
pub open spec fn max_id_suffix(certs: Seq<CertificateConfig>, n: int) -> u64
    decreases n,
{
    if n <= 0 {
        0
    } else {
        let rest = max_id_suffix(certs, n - 1);
        match spec_id_suffix(certs[n - 1].id@) {
            Some(k) => if k > rest {
                k
            } else {
                rest
            },
            None => rest,
        }
    }
}

proof fn lemma_max_id_suffix_bounds(certs: Seq<CertificateConfig>, n: int)
    requires
        0 <= n <= certs.len(),
    ensures
        forall|k: int|
            0 <= k < n ==> match #[trigger] spec_id_suffix(cert_ids(certs)[k]) {
                Some(s) => s <= max_id_suffix(certs, n),
                None => true,
            },
    decreases n,
{
    if n > 0 {
        lemma_max_id_suffix_bounds(certs, n - 1);
        assert(cert_ids(certs)[n - 1] == certs[n - 1].id@);
    }
}

/// The id of a certificate created at `now_ms` with the counter at `n`.
pub open spec fn cert_id(now_ms: i64, n: u64) -> Seq<char> {
    "cert-"@ + dec_int(now_ms as int) + seq!['-'] + dec_nat(n as nat)
}

/// Why an upload is refused, checked in order: its name, its host patterns, an
/// encrypted key, and whether certificate and key form an identity.
pub open spec fn upload_error(u: CertificateUpload) -> Option<(ErrorKind, Seq<char>)> {
    match spec_clean_name(u.name@) {
        Err(e) => Some(e),
        Ok(_) => match spec_clean_hosts(views(u.hosts@)) {
            Err(e) => Some(e),
            Ok(_) => if mentions_encryption(u.key_bytes@) {
                Some((ErrorKind::BadRequest, "encrypted private keys are not supported yet"@))
            } else {
                identity_error(u.cert_bytes@, u.key_bytes@)
            },
        },
    }
}

/// The record made of an accepted upload under `id` at `now_ms`.
pub open spec fn uploaded_config(u: CertificateUpload, id: Seq<char>, now_ms: i64) -> CertificateConfigView {
    CertificateConfigView {
        id: id,
        name: trim(u.name@),
        hosts: spec_clean_hosts(views(u.hosts@))->Ok_0,
        enabled: u.enabled,
        cert_path: id + seq!['/'] + CERT_FILE_NAME@,
        key_path: id + seq!['/'] + KEY_FILE_NAME@,
        cert_file_name: spec_clean_file_name(opt_view(u.cert_file_name), CERT_FILE_NAME@),
        key_file_name: spec_clean_file_name(opt_view(u.key_file_name), KEY_FILE_NAME@),
        fingerprint_sha256: hex_of(sha256_digest(u.cert_bytes@)),
        created_at_ms: now_ms,
        updated_at_ms: now_ms,
    }
}

/// The views of a list of records.
pub open spec fn config_views(v: Seq<CertificateConfig>) -> Seq<CertificateConfigView> {
    v.map_values(|c: CertificateConfig| c@)
}

/// Whether `k` is the first record with the id `id`.
pub open spec fn first_with_id(certs: Seq<CertificateConfig>, id: Seq<char>, k: int) -> bool {
    0 <= k < certs.len() && certs[k].id@ == id && forall|j: int|
        0 <= j < k ==> #[trigger] certs[j].id@ != id
}

/// Whether no record has the id `id`.
pub open spec fn no_id(certs: Seq<CertificateConfig>, id: Seq<char>) -> bool {
    forall|j: int| 0 <= j < certs.len() ==> #[trigger] certs[j].id@ != id
}

/// The error for an id that no record has.
pub open spec fn missing_certificate(id: Seq<char>) -> (ErrorKind, Seq<char>) {
    (ErrorKind::NotFound, "certificate "@ + id + " does not exist"@)
}

fn not_found_certificate(id: &Vec<char>) -> (e: AppError)
    ensures
        e@ == missing_certificate(id@),
{
    let mut m = chars_of("certificate ");
    append(&mut m, id);
    let tail = chars_of(" does not exist");
    append(&mut m, &tail);
    AppError::NotFound(string_of(&m))
}

/// The certificates on record, in the order they were added, and the counter that
/// numbers new ids.
pub struct CertificateStore {
    certificates: Vec<CertificateConfig>,
    counter: u64,
}

impl CertificateStore {
    /// The records, in order.
    pub closed spec fn records(&self) -> Seq<CertificateConfig> {
        self.certificates@
    }

    /// The number the next id gets.
    pub closed spec fn counter(&self) -> u64 {
        self.counter
    }

    /// A store holding `certificates`, numbering new ids after the largest id suffix
    /// among them.
    pub fn new(certificates: Vec<CertificateConfig>) -> (s: Self)
        ensures
            s.records() == certificates@,
            s.counter() == wrapping_next(max_id_suffix(certificates@, certificates@.len() as int)),
            max_id_suffix(certificates@, certificates@.len() as int) < u64::MAX ==> suffixes_below(
                cert_ids(s.records()),
                s.counter(),
            ),
    {
        proof {
            lemma_max_id_suffix_bounds(certificates@, certificates@.len() as int);
        }
        let mut max: u64 = 0;
        let mut i: usize = 0;
        while i < certificates.len()
            invariant
                i <= certificates.len(),
                max == max_id_suffix(certificates@, i as int),
            decreases certificates.len() - i,
        {
            match id_suffix(certificates[i].id.as_str()) {
                Some(k) => {
                    if k > max {
                        max = k;
                    }
                },
                None => {},
            }
            i = i + 1;
        }
        CertificateStore { certificates, counter: next_count(max) }
    }

    /// Copies of all records, in order.
    pub fn list(&self) -> (r: Vec<CertificateConfig>)
        ensures
            config_views(r@) == config_views(self.records()),
    {
        let mut r: Vec<CertificateConfig> = Vec::new();
        let mut i: usize = 0;
        while i < self.certificates.len()
            invariant
                i <= self.certificates.len(),
                config_views(r@) =~= config_views(self.certificates@.take(i as int)),
            decreases self.certificates.len() - i,
        {
            let ghost before = r@;
            let d = self.certificates[i].duplicate();
            r.push(d);
            assert(config_views(r@) =~= config_views(before).push(d@));
            assert(self.certificates@.take(i + 1) =~= self.certificates@.take(i as int).push(
                self.certificates@[i as int],
            ));
            i = i + 1;
            assert(config_views(r@) =~= config_views(self.certificates@.take(i as int)));
        }
        assert(self.certificates@.take(self.certificates.len() as int) =~= self.certificates@);
        r
    }

    fn position(&self, id: &Vec<char>) -> (r: Option<usize>)
        ensures
            r matches Some(k) ==> first_with_id(self.records(), id@, k as int),
            r is None ==> no_id(self.records(), id@),
    {
        let mut i: usize = 0;
        while i < self.certificates.len()
            invariant
                i <= self.certificates.len(),
                forall|j: int| 0 <= j < i ==> #[trigger] self.certificates@[j].id@ != id@,
            decreases self.certificates.len() - i,
        {
            let cid = chars_of(self.certificates[i].id.as_str());
            if same_chars(&cid, id) {
                return Some(i);
            }
            i = i + 1;
        }
        None
    }

    /// The record with the id `id`.
    pub fn get(&self, id: &str) -> (r: AppResult<CertificateConfig>)
        ensures
            r matches Ok(c) ==> exists|k: int|
                first_with_id(self.records(), id@, k) && c@ == self.records()[k]@,
            r is Err <==> no_id(self.records(), id@),
            r matches Err(e) ==> e@ == missing_certificate(id@),
    {
        let key = chars_of(id);
        match self.position(&key) {
            Some(k) => Ok(self.certificates[k].duplicate()),
            None => Err(not_found_certificate(&key)),
        }
    }

    /// Removes the record with the id `id`.
    pub fn delete(&mut self, id: &str) -> (r: AppResult<()>)
        ensures
            r is Err <==> no_id(old(self).records(), id@),
            r matches Err(e) ==> e@ == missing_certificate(id@) && final(self).records()
                == old(self).records(),
            r is Ok ==> exists|k: int|
                first_with_id(old(self).records(), id@, k) && final(self).records() == old(
                    self,
                ).records().remove(k),
            final(self).counter() == old(self).counter(),
            suffixes_below(cert_ids(old(self).records()), old(self).counter()) ==> suffixes_below(
                cert_ids(final(self).records()),
                final(self).counter(),
            ),
    {
        let key = chars_of(id);
        match self.position(&key) {
            Some(k) => {
                let ghost before = self.certificates@;
                self.certificates.remove(k);
                proof {
                    let ids = cert_ids(before);
                    let now = cert_ids(self.certificates@);
                    if suffixes_below(ids, self.counter) {
                        assert forall|j: int| 0 <= j < now.len() implies match #[trigger] spec_id_suffix(
                            now[j],
                        ) {
                            Some(s) => s < self.counter,
                            None => true,
                        } by {
                            if j < k {
                                assert(now[j] == ids[j]);
                            } else {
                                assert(now[j] == ids[j + 1]);
                            }
                        }
                    }
                }
                Ok(())
            },
            None => Err(not_found_certificate(&key)),
        }
    }

    /// The id for a certificate created at `now_ms`, advancing the counter.
    fn next_id(&mut self, now_ms: i64) -> (r: Vec<char>)
        ensures
            r@ == cert_id(now_ms, old(self).counter()),
            final(self).counter() == wrapping_next(old(self).counter()),
            final(self).records() == old(self).records(),
    {
        let n = self.counter;
        self.counter = next_count(n);
        let mut id = chars_of("cert-");
        push_dec_i64(&mut id, now_ms);
        id.push('-');
        push_dec_u64(&mut id, n);
        assert(id@ =~= cert_id(now_ms, n));
        id
    }

    /// Checks an upload and, when it is accepted, records it under a new id made of
    /// `now_ms` and the counter.
    pub fn create(&mut self, input: CertificateUpload, now_ms: i64) -> (r: AppResult<
        CertificateConfig,
    >)
        ensures
            r is Err <==> upload_error(input) is Some,
            r matches Err(e) ==> Some(e@) == upload_error(input) && final(self).records() == old(
                self,
            ).records() && final(self).counter() == old(self).counter(),
            r matches Ok(c) ==> {
                &&& c@ == uploaded_config(input, cert_id(now_ms, old(self).counter()), now_ms)
                &&& config_views(final(self).records()) == config_views(old(self).records()).push(
                    c@,
                )
                &&& final(self).counter() == wrapping_next(old(self).counter())
                &&& suffixes_below(cert_ids(old(self).records()), old(self).counter()) ==> no_id(
                    old(self).records(),
                    c.id@,
                )
                &&& suffixes_below(cert_ids(old(self).records()), old(self).counter()) && old(
                    self,
                ).counter() < u64::MAX ==> suffixes_below(
                    cert_ids(final(self).records()),
                    final(self).counter(),
                )
            },
    {
        let name = match clean_name(input.name.as_str()) {
            Ok(n) => n,
            Err(e) => return Err(e),
        };
        let hosts = match clean_hosts(input.hosts) {
            Ok(h) => h,
            Err(e) => return Err(e),
        };
        match validate_key(input.key_bytes.as_slice()) {
            Ok(()) => {},
            Err(e) => return Err(e),
        }
        match validate_identity(input.cert_bytes.as_slice(), input.key_bytes.as_slice()) {
            Ok(()) => {},
            Err(e) => return Err(e),
        }
        let id = self.next_id(now_ms);
        let mut cert_path = slice_of(&id, 0, id.len());
        cert_path.push('/');
        append(&mut cert_path, &chars_of(CERT_FILE_NAME));
        let mut key_path = slice_of(&id, 0, id.len());
        key_path.push('/');
        append(&mut key_path, &chars_of(KEY_FILE_NAME));
        let cert_file_name = clean_file_name(
            match &input.cert_file_name {
                Some(v) => Some(v.as_str()),
                None => None,
            },
            CERT_FILE_NAME,
        );
        let key_file_name = clean_file_name(
            match &input.key_file_name {
                Some(v) => Some(v.as_str()),
                None => None,
            },
            KEY_FILE_NAME,
        );
        let certificate = CertificateConfig {
            id: string_of(&id),
            name,
            hosts,
            enabled: input.enabled,
            cert_path: string_of(&cert_path),
            key_path: string_of(&key_path),
            cert_file_name,
            key_file_name,
            fingerprint_sha256: sha256_hex(input.cert_bytes.as_slice()),
            created_at_ms: now_ms,
            updated_at_ms: now_ms,
        };
        let ghost expected = uploaded_config(input, cert_id(now_ms, old(self).counter()), now_ms);
        assert(certificate@.id == expected.id);
        assert(certificate@.name == expected.name);
        assert(certificate@.hosts == expected.hosts);
        assert(certificate@.cert_path =~= expected.cert_path);
        assert(certificate@.key_path =~= expected.key_path);
        assert(certificate@.cert_file_name == expected.cert_file_name);
        assert(certificate@.key_file_name == expected.key_file_name);
        assert(certificate@.fingerprint_sha256 == expected.fingerprint_sha256);
        assert(certificate@ == expected);
        let saved = certificate.duplicate();
        let ghost before = self.certificates@;
        self.certificates.push(certificate);
        assert(config_views(self.certificates@) =~= config_views(before).push(saved@));
        proof {
            let n = old(self).counter;
            let x = "cert-"@ + dec_int(now_ms as int);
            assert(saved.id@ =~= x + seq!['-'] + dec_nat(n as nat));
            if suffixes_below(cert_ids(before), n) {
                lemma_fresh_suffix(cert_ids(before), x, n);
                assert forall|j: int| 0 <= j < before.len() implies #[trigger] before[j].id@
                    != saved.id@ by {
                    assert(cert_ids(before)[j] == before[j].id@);
                }
                if n < u64::MAX {
                    lemma_suffixes_below_push(cert_ids(before), x, n);
                    assert(cert_ids(self.certificates@) =~= cert_ids(before).push(saved.id@));
                }
            }
        }
        Ok(saved)
    }

    /// The certificate that `host` selects, with the pattern that selected it.
    pub fn match_host(&self, host: &str) -> (r: Option<CertificateMatch>)
        ensures
            r is None <==> forall|i: int, j: int|
                match_at(self.records(), normalized_host(host@), i, j) is None,
            r matches Some(m) ==> exists|i: int, j: int|
                {
                    &&& is_selected(self.records(), normalized_host(host@), i, j)
                    &&& m.id@ == self.records()[i].id@
                    &&& m.name@ == self.records()[i].name@
                    &&& m.matched_host_pattern@ == self.records()[i].hosts@[j]@
                },
    {
        let h = normalize_host_chars(&chars_of(host));
        select_certificate(&self.certificates, &h)
    }
}

} // verus!
