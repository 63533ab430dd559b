//! What running a plan produces: the checks of a response, the diagnostics of
//! scripts, the result of each request, and the report of a run with its log.
use vstd::prelude::*;

use crate::certificates::{
    is_selected, match_at, normalized_host, views, CertificateMatch, CertificateStore,
};
use crate::error::{AppError, AppResult, ErrorKind};
use crate::plan::{
    assertion_pair, header_pair, headers_view, opt_string, HttpAssertion, HttpHeader, TestPlanRequest,
    TestPlanScript,
};
use crate::plan_parser::{parse_url, url_error, url_parse, validate_url};
use crate::substitution::{runtime_result, substitute_runtime, Variables};
use crate::plan_parser::{lines_view, spec_lines, split_lines};
use crate::plan_paths::{join_text, join_with};
use crate::text::{
    append, chars_of, dec_nat, find, find_in, lemma_find_from, push_dec_u64, same_chars, split,
    split_chars, starts_with, string_of, trim, trim_bounds, trim_start, trimmed,
};

verus! {

// ---------------------------------------------------------------------------
// Status checks

/// The outcome of a check on a response.
#[derive(Debug)]
pub struct AssertionResult {
    pub name: String,
    pub passed: bool,
    pub message: String,
}

/// The message of a status check that expected `expected` and saw `status`.
pub open spec fn status_message(expected: u16, status: u16) -> Seq<char> {
    if status == expected {
        "status was "@ + dec_nat(expected as nat)
    } else {
        "expected status "@ + dec_nat(expected as nat) + ", got "@ + dec_nat(status as nat)
    }
}

/// Checks a response status against an assertion.
pub fn evaluate_assertion(assertion: &HttpAssertion, status: u16) -> (r: AssertionResult)
    ensures
        r.name@ == assertion.name@,
        r.passed == (status == assertion_pair(*assertion).1),
        r.message@ == status_message(assertion_pair(*assertion).1, status),
{
    let expected = match assertion.kind {
        crate::plan::AssertionKind::StatusEquals { expected } => expected,
    };
    let passed = status == expected;
    let mut m: Vec<char>;
    if passed {
        m = chars_of("status was ");
        push_dec_u64(&mut m, expected as u64);
    } else {
        m = chars_of("expected status ");
        push_dec_u64(&mut m, expected as u64);
        append(&mut m, &chars_of(", got "));
        push_dec_u64(&mut m, status as u64);
    }
    AssertionResult { name: assertion.name.clone(), passed, message: string_of(&m) }
}

// ---------------------------------------------------------------------------
// Text shown in diagnostics and logs

/// The non-blank lines of `ls`, trimmed.
pub open spec fn nonblank_lines(ls: Seq<Seq<char>>) -> Seq<Seq<char>>
    decreases ls.len(),
{
    if ls.len() == 0 {
        Seq::empty()
    } else {
        nonblank_lines(ls.drop_last()) + if trim(ls.last()).len() > 0 {
            seq![trim(ls.last())]
        } else {
            Seq::empty()
        }
    }
}

/// `value` on one line: its non-blank lines, trimmed, joined with ` | `.
pub open spec fn spec_one_line(value: Seq<char>) -> Seq<char> {
    join_with(nonblank_lines(spec_lines(value)), " | "@)
}

/// `value` on one line.
pub fn one_line(value: &str) -> (r: String)
    ensures
        r@ == spec_one_line(value@),
{
    let text = chars_of(value);
    let lines = split_lines(&text);
    let ghost lv = spec_lines(value@);
    let mut parts: Vec<Vec<char>> = Vec::new();
    let mut i: usize = 0;
    assert(lv.take(0) =~= Seq::<Seq<char>>::empty());
    assert(lines_view(parts@) =~= nonblank_lines(lv.take(0)));
    while i < lines.len()
        invariant
            i <= lines.len(),
            lv == lines_view(lines@),
            lines_view(parts@) == nonblank_lines(lv.take(i as int)),
        decreases lines.len() - i,
    {
        let t = trimmed(&lines[i]);
        assert(lv[i as int] == lines@[i as int]@);
        assert(lv.take(i + 1).drop_last() =~= lv.take(i as int));
        let ghost before = parts@;
        if t.len() > 0 {
            parts.push(t);
            assert(lines_view(parts@) =~= lines_view(before).push(trim(lv[i as int])));
        }
        assert(lines_view(parts@) =~= nonblank_lines(lv.take(i + 1)));
        i = i + 1;
    }
    assert(lv.take(lines.len() as int) =~= lv);
    let sep = chars_of(" | ");
    let joined = join_text(&parts, &sep);
    assert(parts@.map_values(|v: Vec<char>| v@) =~= lines_view(parts@));
    string_of(&joined)
}

/// `s` right-aligned in three columns.
pub open spec fn pad3(s: Seq<char>) -> Seq<char> {
    if s.len() >= 3 {
        s
    } else {
        Seq::new((3 - s.len()) as nat, |i: int| ' ') + s
    }
}

/// The `i`-th line of a script preview (counted from 0).
pub open spec fn preview_line(i: int, line: Seq<char>) -> Seq<char> {
    pad3(dec_nat((i + 1) as nat)) + ": "@ + line
}

/// The most lines a script preview shows.
pub const MAX_PREVIEW_LINES: usize = 12;

/// The first twelve lines of a script, numbered, and `  ...` when there are more.
pub open spec fn spec_script_preview(source: Seq<char>) -> Seq<char> {
    let ls = spec_lines(source);
    let n = if ls.len() < 12 {
        ls.len()
    } else {
        12
    };
    let shown = Seq::new(n, |i: int| preview_line(i, ls[i]));
    join_with(
        if ls.len() > 12 {
            shown.push("  ..."@)
        } else {
            shown
        },
        seq!['\n'],
    )
}

/// The decimal text of `n`, right-aligned in three columns.
fn padded_number(n: u64) -> (r: Vec<char>)
    ensures
        r@ == pad3(dec_nat(n as nat)),
{
    let mut d: Vec<char> = Vec::new();
    push_dec_u64(&mut d, n);
    assert(d@ =~= dec_nat(n as nat));
    if d.len() >= 3 {
        return d;
    }
    let k: usize = 3 - d.len();
    let mut out: Vec<char> = Vec::new();
    while out.len() < k
        invariant
            out.len() <= k,
            out@ =~= Seq::new(out.len() as nat, |i: int| ' '),
        decreases k - out.len(),
    {
        out.push(' ');
    }
    append(&mut out, &d);
    out
}

/// A numbered preview of a script.
pub fn script_preview(source: &str) -> (r: String)
    ensures
        r@ == spec_script_preview(source@),
{
    let text = chars_of(source);
    let lines = split_lines(&text);
    let ghost ls = spec_lines(source@);
    let n: usize = if lines.len() < MAX_PREVIEW_LINES {
        lines.len()
    } else {
        MAX_PREVIEW_LINES
    };
    let mut shown: Vec<Vec<char>> = Vec::new();
    let mut i: usize = 0;
    while i < n
        invariant
            i <= n <= lines.len(),
            n <= 12,
            ls == lines_view(lines@),
            shown@.len() == i,
            forall|k: int| 0 <= k < i ==> #[trigger] shown@[k]@ == preview_line(k, ls[k]),
        decreases n - i,
    {
        let mut line = padded_number((i + 1) as u64);
        append(&mut line, &chars_of(": "));
        append(&mut line, &lines[i]);
        assert(ls[i as int] == lines@[i as int]@);
        shown.push(line);
        i = i + 1;
    }
    let ghost base = Seq::new(n as nat, |k: int| preview_line(k, ls[k]));
    assert(lines_view(shown@) =~= base);
    let ghost expected = if ls.len() > 12 {
        base.push("  ..."@)
    } else {
        base
    };
    if lines.len() > MAX_PREVIEW_LINES {
        let ghost before = shown@;
        shown.push(chars_of("  ..."));
        assert(lines_view(shown@) =~= lines_view(before).push("  ..."@));
    }
    assert(lines_view(shown@) =~= expected);
    let nl = vec!['\n'];
    assert(nl@ =~= seq!['\n']);
    let joined = join_text(&shown, &nl);
    assert(shown@.map_values(|v: Vec<char>| v@) =~= lines_view(shown@));
    assert(joined@ == join_with(expected, seq!['\n']));
    string_of(&joined)
}

// ---------------------------------------------------------------------------
// Script diagnostics

/// A problem met while running a request's scripts.
#[derive(Debug)]
pub struct ExecutionDiagnostic {
    pub kind: String,
    pub phase: String,
    pub message: String,
    pub details: Option<String>,
    pub source_preview: Option<String>,
}

/// An error that a script raised.
#[derive(Debug)]
pub struct ScriptRuntimeError {
    pub name: Option<String>,
    pub message: String,
    pub stack: Option<String>,
}

impl ExecutionDiagnostic {
    /// A script diagnostic of `phase` with `message`, previewing `source` if given.
    pub fn runtime(phase: &str, message: String, source: Option<&str>) -> (r: Self)
        ensures
            r.kind@ == "script"@,
            r.phase@ == phase@,
            r.message@ == message@,
            r.details is None,
            opt_string(r.source_preview) == match source {
                Some(s) => Some(spec_script_preview(s@)),
                None => None::<Seq<char>>,
            },
    {
        proof {
            reveal_strlit("script");
        }
        ExecutionDiagnostic {
            kind: string_of(&chars_of("script")),
            phase: string_of(&chars_of(phase)),
            message,
            details: None,
            source_preview: match source {
                Some(s) => Some(script_preview(s)),
                None => None,
            },
        }
    }
}

/// A diagnostic for a script of `phase` that failed with `message`.
pub fn script_diagnostic(phase: &str, source: &str, message: &str) -> (r: ExecutionDiagnostic)
    ensures
        r.kind@ == "script"@,
        r.phase@ == phase@,
        r.message@ == message@,
        r.details is None,
        opt_string(r.source_preview) == Some(spec_script_preview(source@)),
{
    ExecutionDiagnostic::runtime(phase, string_of(&chars_of(message)), Some(source))
}

/// The kind a script error is reported as.
pub open spec fn error_kind(e: ScriptRuntimeError) -> Seq<char> {
    match e.name {
        Some(n) => n@,
        None => "script"@,
    }
}

/// One diagnostic for each error a script of `phase` raised.
pub fn script_diagnostics(phase: &str, source: &str, errors: &Vec<ScriptRuntimeError>) -> (r: Vec<
    ExecutionDiagnostic,
>)
    ensures
        r.len() == errors.len(),
        forall|i: int|
            0 <= i < r.len() ==> {
                &&& (#[trigger] r@[i]).kind@ == error_kind(errors@[i])
                &&& r@[i].phase@ == phase@
                &&& r@[i].message@ == errors@[i].message@
                &&& opt_string(r@[i].details) == opt_string(errors@[i].stack)
                &&& opt_string(r@[i].source_preview) == Some(spec_script_preview(source@))
            },
{
    proof {
        reveal_strlit("script");
    }
    let mut out: Vec<ExecutionDiagnostic> = Vec::new();
    let mut i: usize = 0;
    while i < errors.len()
        invariant
            i <= errors.len(),
            out.len() == i,
            forall|k: int|
                0 <= k < i ==> {
                    &&& (#[trigger] out@[k]).kind@ == error_kind(errors@[k])
                    &&& out@[k].phase@ == phase@
                    &&& out@[k].message@ == errors@[k].message@
                    &&& opt_string(out@[k].details) == opt_string(errors@[k].stack)
                    &&& opt_string(out@[k].source_preview) == Some(spec_script_preview(source@))
                },
        decreases errors.len() - i,
    {
        let e = &errors[i];
        let kind = match &e.name {
            Some(n) => n.clone(),
            None => string_of(&chars_of("script")),
        };
        let details = match &e.stack {
            Some(s) => Some(s.clone()),
            None => None,
        };
        out.push(
            ExecutionDiagnostic {
                kind,
                phase: string_of(&chars_of(phase)),
                message: e.message.clone(),
                details,
                source_preview: Some(script_preview(source)),
            },
        );
        i = i + 1;
    }
    out
}

/// The error of a run stopped by the errors of a script of `phase`.
pub open spec fn script_error_text(phase: Seq<char>, errors: Seq<ScriptRuntimeError>) -> Seq<char> {
    if errors.len() > 0 {
        phase + " script failed: "@ + errors[0].message@
    } else {
        phase + " script failed"@
    }
}

/// The error of a run stopped by the errors of a script of `phase`.
pub fn format_script_error(phase: &str, errors: &Vec<ScriptRuntimeError>) -> (r: String)
    ensures
        r@ == script_error_text(phase@, errors@),
{
    let mut m = chars_of(phase);
    if errors.len() > 0 {
        append(&mut m, &chars_of(" script failed: "));
        append(&mut m, &chars_of(errors[0].message.as_str()));
    } else {
        append(&mut m, &chars_of(" script failed"));
    }
    string_of(&m)
}

/// Why a script cannot run here: it imports ES modules, or uses the crypto API.
pub open spec fn unsupported_feature(source: Seq<char>) -> Option<Seq<char>> {
    let t = trim_start(source);
    if "import "@.is_prefix_of(t) || find(t, "\nimport "@) is Some {
        Some("ES module imports are not supported yet"@)
    } else if find(source, "crypto."@) is Some {
        Some("JetBrains Crypto API is not supported yet"@)
    } else {
        None
    }
}

/// Refuses scripts that use features the script runtime does not offer.
pub fn reject_unsupported_script_features(source: &str) -> (r: Result<(), String>)
    ensures
        match unsupported_feature(source@) {
            Some(m) => r matches Err(x) && x@ == m,
            None => r is Ok,
        },
{
    let text = chars_of(source);
    let (a, _) = trim_bounds(&text);
    let t = crate::text::slice_of(&text, a, text.len());
    assert(t@ =~= trim_start(source@));
    let import = chars_of("import ");
    let nl_import = chars_of("\nimport ");
    if starts_with(&t, &import) || find_in(&t, &nl_import, 0).is_some() {
        return Err(string_of(&chars_of("ES module imports are not supported yet")));
    }
    if find_in(&text, &chars_of("crypto."), 0).is_some() {
        return Err(string_of(&chars_of("JetBrains Crypto API is not supported yet")));
    }
    Ok(())
}

/// `base` and `relative` joined as paths are.
pub open spec fn path_join(base: Seq<char>, relative: Seq<char>) -> Seq<char> {
    if base.len() == 0 {
        relative
    } else if base.last() == '/' {
        base + relative
    } else {
        base + seq!['/'] + relative
    }
}

/// The path of an external script under `base_dir`, refused when it is absolute or
/// has a `..` component.
pub open spec fn spec_safe_join(base_dir: Seq<char>, relative: Seq<char>) -> Result<Seq<char>, Seq<char>> {
    if relative.len() > 0 && relative[0] == '/' {
        Err("external script path "@ + relative + " must be relative"@)
    } else if split(relative, '/').contains(".."@) {
        Err("external script path "@ + relative + " cannot leave data/plans"@)
    } else {
        Ok(path_join(base_dir, relative))
    }
}

/// The path of an external script under `base_dir`.
pub fn safe_join(base_dir: &str, relative: &str) -> (r: Result<String, String>)
    ensures
        match spec_safe_join(base_dir@, relative@) {
            Ok(p) => r matches Ok(x) && x@ == p,
            Err(m) => r matches Err(x) && x@ == m,
        },
{
    let rel = chars_of(relative);
    if rel.len() > 0 && rel[0] == '/' {
        let mut m = chars_of("external script path ");
        append(&mut m, &rel);
        append(&mut m, &chars_of(" must be relative"));
        return Err(string_of(&m));
    }
    let segments = split_chars(&rel, '/');
    let dots = vec!['.', '.'];
    proof {
        reveal_strlit("..");
        assert(dots@ =~= ".."@);
    }
    let ghost parts = split(rel@, '/');
    let mut i: usize = 0;
    while i < segments.len()
        invariant
            i <= segments.len(),
            segments@.len() == parts.len(),
            parts == split(rel@, '/'),
            rel@ == relative@,
            dots@ == ".."@,
            !(rel@.len() > 0 && rel@[0] == '/'),
            forall|k: int| 0 <= k < segments@.len() ==> #[trigger] segments@[k]@ == parts[k],
            forall|k: int| 0 <= k < i ==> parts[k] != ".."@,
        decreases segments.len() - i,
    {
        assert(segments@[i as int]@ == parts[i as int]);
        if same_chars(&segments[i], &dots) {
            assert(parts[i as int] == ".."@);
            assert(parts.contains(".."@));
            let mut m = chars_of("external script path ");
            append(&mut m, &rel);
            append(&mut m, &chars_of(" cannot leave data/plans"));
            return Err(string_of(&m));
        }
        i = i + 1;
    }
    let mut out = chars_of(base_dir);
    if out.len() > 0 && out[out.len() - 1] != '/' {
        out.push('/');
    }
    append(&mut out, &rel);
    assert(out@ =~= path_join(base_dir@, relative@));
    Ok(string_of(&out))
}

// ---------------------------------------------------------------------------
// Response previews

/// What `String::from_utf8_lossy` makes of `bytes`: their UTF-8 text, with each
/// invalid sequence replaced by U+FFFD.
pub uninterp spec fn utf8_lossy(bytes: Seq<u8>) -> Seq<char>;

/// Calls `String::from_utf8_lossy`; its text depends on `bytes` alone and is named
/// `utf8_lossy`.
#[verifier::external_body]
fn lossy_text(bytes: &[u8]) -> (r: String)
    ensures
        r@ == utf8_lossy(bytes@),
{
    String::from_utf8_lossy(bytes).to_string()
}

/// The most bytes of a response body shown in a result.
pub const MAX_BODY_PREVIEW: usize = 8 * 1024;

/// The text of the first `MAX_BODY_PREVIEW` bytes of a response body.
pub fn preview_bytes(bytes: &[u8]) -> (r: String)
    ensures
        r@ == utf8_lossy(
            bytes@.take(
                if bytes@.len() < MAX_BODY_PREVIEW {
                    bytes@.len() as int
                } else {
                    MAX_BODY_PREVIEW as int
                },
            ),
        ),
{
    let end: usize = if bytes.len() < MAX_BODY_PREVIEW {
        bytes.len()
    } else {
        MAX_BODY_PREVIEW
    };
    let head = vstd::slice::slice_subrange(bytes, 0, end);
    assert(head@ =~= bytes@.take(end as int));
    lossy_text(head)
}

// ---------------------------------------------------------------------------
// Requests as they are sent

/// A request as it is sent: its placeholders resolved when it runs.
#[derive(Debug)]
pub struct ExecutableRequest {
    pub method: String,
    pub url: String,
    pub headers: Vec<HttpHeader>,
    pub body: Option<String>,
}

/// The contents of a request as it is sent.
pub struct ExecutableRequestView {
    pub method: Seq<char>,
    pub url: Seq<char>,
    pub headers: Seq<(Seq<char>, Seq<char>)>,
    pub body: Option<Seq<char>>,
}

impl View for ExecutableRequest {
    type V = ExecutableRequestView;

    open spec fn view(&self) -> ExecutableRequestView {
        ExecutableRequestView {
            method: self.method@,
            url: self.url@,
            headers: headers_view(self.headers@),
            body: opt_string(self.body),
        }
    }
}

/// A copy of a list of headers.
pub fn copy_headers(h: &Vec<HttpHeader>) -> (r: Vec<HttpHeader>)
    ensures
        headers_view(r@) == headers_view(h@),
{
    let mut r: Vec<HttpHeader> = Vec::new();
    let mut i: usize = 0;
    while i < h.len()
        invariant
            i <= h.len(),
            headers_view(r@) =~= headers_view(h@.take(i as int)),
        decreases h.len() - i,
    {
        let ghost before = r@;
        r.push(HttpHeader { name: h[i].name.clone(), value: h[i].value.clone() });
        assert(headers_view(r@) =~= headers_view(before).push(header_pair(h@[i as int])));
        assert(h@.take(i + 1) =~= h@.take(i as int).push(h@[i as int]));
        i = i + 1;
    }
    assert(h@.take(h.len() as int) =~= h@);
    r
}

/// A copy of an optional string.
pub fn copy_opt(o: &Option<String>) -> (r: Option<String>)
    ensures
        opt_string(r) == opt_string(*o),
{
    match o {
        Some(s) => Some(s.clone()),
        None => None,
    }
}

impl ExecutableRequest {
    /// The request as a plan wrote it, before its placeholders are resolved.
    pub fn from_plan(request: &TestPlanRequest) -> (r: Self)
        ensures
            r@ == (ExecutableRequestView {
                method: request.method@,
                url: request.raw_url@,
                headers: headers_view(request.raw_headers@),
                body: opt_string(request.raw_body),
            }),
    {
        ExecutableRequest {
            method: request.method.clone(),
            url: request.raw_url.clone(),
            headers: copy_headers(&request.raw_headers),
            body: copy_opt(&request.raw_body),
        }
    }

    /// A copy of the request.
    pub fn duplicate(&self) -> (r: Self)
        ensures
            r@ == self@,
    {
        ExecutableRequest {
            method: self.method.clone(),
            url: self.url.clone(),
            headers: copy_headers(&self.headers),
            body: copy_opt(&self.body),
        }
    }
}

/// The values drawn for the dynamic placeholders of a request as it runs, per place.
pub struct RuntimeDraws {
    pub url: Seq<Seq<char>>,
    pub headers: Seq<Seq<Seq<char>>>,
    pub body: Seq<Seq<char>>,
}

/// The first `n` headers with their values resolved, or the first error.
pub open spec fn resolve_headers_spec(
    hs: Seq<(Seq<char>, Seq<char>)>,
    n: int,
    fv: Map<Seq<char>, Seq<char>>,
    gv: Map<Seq<char>, Seq<char>>,
    rv: Map<Seq<char>, Seq<char>>,
    env: Map<Seq<char>, Seq<char>>,
    d: Seq<Seq<Seq<char>>>,
) -> Result<Seq<(Seq<char>, Seq<char>)>, (ErrorKind, Seq<char>)>
    decreases n,
{
    if n <= 0 {
        Ok(Seq::empty())
    } else {
        match resolve_headers_spec(hs, n - 1, fv, gv, rv, env, d) {
            Err(e) => Err(e),
            Ok(done) => match runtime_result(hs[n - 1].1, fv, gv, rv, env, d[n - 1]) {
                Err(e) => Err(e),
                Ok(v) => Ok(done.push((hs[n - 1].0, v))),
            },
        }
    }
}

proof fn lemma_resolve_headers_prefix(
    hs: Seq<(Seq<char>, Seq<char>)>,
    n: int,
    fv: Map<Seq<char>, Seq<char>>,
    gv: Map<Seq<char>, Seq<char>>,
    rv: Map<Seq<char>, Seq<char>>,
    env: Map<Seq<char>, Seq<char>>,
    d: Seq<Seq<Seq<char>>>,
    d2: Seq<Seq<Seq<char>>>,
)
    requires
        forall|j: int| 0 <= j < n ==> d[j] == d2[j],
    ensures
        resolve_headers_spec(hs, n, fv, gv, rv, env, d) == resolve_headers_spec(
            hs,
            n,
            fv,
            gv,
            rv,
            env,
            d2,
        ),
    decreases n,
{
    if n > 0 {
        lemma_resolve_headers_prefix(hs, n - 1, fv, gv, rv, env, d, d2);
    }
}

proof fn lemma_resolve_headers_err(
    hs: Seq<(Seq<char>, Seq<char>)>,
    i: int,
    n: int,
    fv: Map<Seq<char>, Seq<char>>,
    gv: Map<Seq<char>, Seq<char>>,
    rv: Map<Seq<char>, Seq<char>>,
    env: Map<Seq<char>, Seq<char>>,
    d: Seq<Seq<Seq<char>>>,
)
    requires
        i <= n,
        resolve_headers_spec(hs, i, fv, gv, rv, env, d) is Err,
    ensures
        resolve_headers_spec(hs, n, fv, gv, rv, env, d) == resolve_headers_spec(
            hs,
            i,
            fv,
            gv,
            rv,
            env,
            d,
        ),
    decreases n - i,
{
    if n > i {
        lemma_resolve_headers_err(hs, i, n - 1, fv, gv, rv, env, d);
    }
}

/// A request with its placeholders resolved when it runs: the URL (which must then
/// be a valid `http`/`https` URL), each header value in order, and the body; the
/// first error ends it.
pub open spec fn spec_resolve_request(
    req: ExecutableRequestView,
    fv: Map<Seq<char>, Seq<char>>,
    gv: Map<Seq<char>, Seq<char>>,
    rv: Map<Seq<char>, Seq<char>>,
    env: Map<Seq<char>, Seq<char>>,
    d: RuntimeDraws,
) -> Result<ExecutableRequestView, (ErrorKind, Seq<char>)> {
    match runtime_result(req.url, fv, gv, rv, env, d.url) {
        Err(e) => Err(e),
        Ok(url) => match url_error(url) {
            Some(e) => Err(e),
            None => match resolve_headers_spec(
                req.headers,
                req.headers.len() as int,
                fv,
                gv,
                rv,
                env,
                d.headers,
            ) {
                Err(e) => Err(e),
                Ok(hs) => match req.body {
                    None => Ok(ExecutableRequestView { method: req.method, url, headers: hs, body: None }),
                    Some(b) => match runtime_result(b, fv, gv, rv, env, d.body) {
                        Err(e) => Err(e),
                        Ok(body) => Ok(
                            ExecutableRequestView {
                                method: req.method,
                                url,
                                headers: hs,
                                body: Some(body),
                            },
                        ),
                    },
                },
            },
        },
    }
}

/// No values drawn.
spec fn no_runtime_draws() -> RuntimeDraws {
    RuntimeDraws { url: Seq::empty(), headers: Seq::empty(), body: Seq::empty() }
}

/// Resolves a request's placeholders when it runs, by the request variables, the
/// globals, the plan's variables, fresh dynamic values and the environment (`env`,
/// by variable name).
pub fn resolve_request(
    request: &ExecutableRequest,
    file_vars: &Variables,
    globals: &Variables,
    request_vars: &Variables,
    env: &Variables,
) -> (r: AppResult<ExecutableRequest>)
    ensures
        exists|d: RuntimeDraws|
            match #[trigger] spec_resolve_request(
                request@,
                file_vars@,
                globals@,
                request_vars@,
                env@,
                d,
            ) {
                Ok(x) => r matches Ok(y) && y@ == x,
                Err(e) => r matches Err(y) && y@ == e,
            },
{
    let ghost fv = file_vars@;
    let ghost gv = globals@;
    let ghost rv = request_vars@;
    let ghost ev = env@;
    let (u, Ghost(du)) = substitute_runtime(request.url.as_str(), file_vars, globals, request_vars, env);
    let url = match u {
        Err(e) => {
            let ghost d = RuntimeDraws { url: du, headers: Seq::empty(), body: Seq::empty() };
            assert(spec_resolve_request(request@, fv, gv, rv, ev, d) matches Err(x) && x == e@);
            return Err(e);
        },
        Ok(v) => v,
    };
    if let Err(e) = validate_url(url.as_str()) {
        let ghost d = RuntimeDraws { url: du, headers: Seq::empty(), body: Seq::empty() };
        assert(spec_resolve_request(request@, fv, gv, rv, ev, d) matches Err(x) && x == e@);
        return Err(e);
    }
    let ghost hv = headers_view(request.headers@);
    let mut headers: Vec<HttpHeader> = Vec::new();
    let ghost mut dh: Seq<Seq<Seq<char>>> = Seq::empty();
    let mut i: usize = 0;
    assert(headers_view(headers@) =~= Seq::<(Seq<char>, Seq<char>)>::empty());
    while i < request.headers.len()
        invariant
            i <= request.headers.len(),
            hv == headers_view(request.headers@),
            fv == file_vars@,
            gv == globals@,
            rv == request_vars@,
            ev == env@,
            runtime_result(request@.url, fv, gv, rv, ev, du) == Ok::<
                Seq<char>,
                (ErrorKind, Seq<char>),
            >(url@),
            url_error(url@) is None,
            dh.len() == i,
            resolve_headers_spec(hv, i as int, fv, gv, rv, ev, dh) == Ok::<
                Seq<(Seq<char>, Seq<char>)>,
                (ErrorKind, Seq<char>),
            >(headers_view(headers@)),
        decreases request.headers.len() - i,
    {
        let h = &request.headers[i];
        assert(hv[i as int] == (h.name@, h.value@));
        let (v, Ghost(d)) = substitute_runtime(h.value.as_str(), file_vars, globals, request_vars, env);
        let ghost old_dh = dh;
        proof {
            dh = dh.push(d);
            lemma_resolve_headers_prefix(hv, i as int, fv, gv, rv, ev, old_dh, dh);
        }
        match v {
            Err(e) => {
                proof {
                    lemma_resolve_headers_err(hv, i + 1, hv.len() as int, fv, gv, rv, ev, dh);
                }
                let ghost dd = RuntimeDraws { url: du, headers: dh, body: Seq::empty() };
                assert(spec_resolve_request(request@, fv, gv, rv, ev, dd) matches Err(x) && x
                    == e@);
                return Err(e);
            },
            Ok(value) => {
                let ghost before = headers@;
                headers.push(HttpHeader { name: h.name.clone(), value });
                assert(headers_view(headers@) =~= headers_view(before).push(
                    (hv[i as int].0, headers@.last().value@),
                ));
            },
        }
        i = i + 1;
    }
    match &request.body {
        None => {
            let ghost dd = RuntimeDraws { url: du, headers: dh, body: Seq::empty() };
            let r = ExecutableRequest { method: request.method.clone(), url, headers, body: None };
            assert(spec_resolve_request(request@, fv, gv, rv, ev, dd) matches Ok(x) && x == r@);
            Ok(r)
        },
        Some(b) => {
            let (bv, Ghost(db)) = substitute_runtime(b.as_str(), file_vars, globals, request_vars, env);
            let ghost dd = RuntimeDraws { url: du, headers: dh, body: db };
            match bv {
                Err(e) => {
                    assert(spec_resolve_request(request@, fv, gv, rv, ev, dd) matches Err(x) && x
                        == e@);
                    Err(e)
                },
                Ok(body) => {
                    let r = ExecutableRequest {
                        method: request.method.clone(),
                        url,
                        headers,
                        body: Some(body),
                    };
                    assert(spec_resolve_request(request@, fv, gv, rv, ev, dd) matches Ok(x) && x
                        == r@);
                    Ok(r)
                },
            }
        },
    }
}

// ---------------------------------------------------------------------------
// Client certificates

/// Whether and how a client certificate was chosen for a request.
#[derive(Debug)]
pub struct MtlsResult {
    pub certificate_selected: bool,
    pub certificate_id: Option<String>,
    pub certificate_name: Option<String>,
    pub matched_host_pattern: Option<String>,
    pub message: Option<String>,
}

/// The contents of an mTLS outcome.
pub struct MtlsView {
    pub certificate_selected: bool,
    pub certificate_id: Option<Seq<char>>,
    pub certificate_name: Option<Seq<char>>,
    pub matched_host_pattern: Option<Seq<char>>,
    pub message: Option<Seq<char>>,
}

impl View for MtlsResult {
    type V = MtlsView;

    open spec fn view(&self) -> MtlsView {
        MtlsView {
            certificate_selected: self.certificate_selected,
            certificate_id: opt_string(self.certificate_id),
            certificate_name: opt_string(self.certificate_name),
            matched_host_pattern: opt_string(self.matched_host_pattern),
            message: opt_string(self.message),
        }
    }
}

impl Default for MtlsResult {
    /// No certificate selected, and no message.
    fn default() -> (r: Self)
        ensures
            r@ == (MtlsView {
                certificate_selected: false,
                certificate_id: None,
                certificate_name: None,
                matched_host_pattern: None,
                message: None,
            }),
    {
        MtlsResult {
            certificate_selected: false,
            certificate_id: None,
            certificate_name: None,
            matched_host_pattern: None,
            message: None,
        }
    }
}

/// The outcome of a request sent without a client certificate, for `message`.
pub open spec fn skipped_view(message: Seq<char>) -> MtlsView {
    MtlsView {
        certificate_selected: false,
        certificate_id: None,
        certificate_name: None,
        matched_host_pattern: None,
        message: Some(message),
    }
}

/// The outcome of a request sent with the certificate `id` named `name`, chosen by
/// `pattern`.
pub open spec fn selected_view(id: Seq<char>, name: Seq<char>, pattern: Seq<char>, message: Seq<char>) -> MtlsView {
    MtlsView {
        certificate_selected: true,
        certificate_id: Some(id),
        certificate_name: Some(name),
        matched_host_pattern: Some(pattern),
        message: Some(message),
    }
}

/// The outcome of a request sent with the certificate `matched`.
pub fn mtls_result(matched: CertificateMatch, message: String) -> (r: MtlsResult)
    ensures
        r@ == selected_view(matched.id@, matched.name@, matched.matched_host_pattern@, message@),
{
    MtlsResult {
        certificate_selected: true,
        certificate_id: Some(matched.id),
        certificate_name: Some(matched.name),
        matched_host_pattern: Some(matched.matched_host_pattern),
        message: Some(message),
    }
}

fn skipped(message: &str) -> (r: MtlsResult)
    ensures
        r@ == skipped_view(message@),
{
    MtlsResult {
        certificate_selected: false,
        certificate_id: None,
        certificate_name: None,
        matched_host_pattern: None,
        message: Some(string_of(&chars_of(message))),
    }
}

/// Why no client certificate is looked for when `url` is requested: it does not
/// parse, is not `https`, has no host, or there is no certificate store.
pub open spec fn mtls_skip(url: Seq<char>, has_store: bool) -> Option<Seq<char>> {
    match url_parse(url) {
        Err(_) => Some("mTLS skipped because request URL could not be parsed"@),
        Ok((scheme, host)) => if scheme != "https"@ {
            Some("mTLS skipped for non-HTTPS URL"@)
        } else if host is None {
            Some("mTLS skipped because HTTPS URL has no hostname"@)
        } else if !has_store {
            Some("mTLS skipped because no certificate store is configured"@)
        } else {
            None
        },
    }
}

/// The host of an `https` URL.
pub open spec fn url_host(url: Seq<char>) -> Seq<char> {
    match url_parse(url) {
        Ok((_, Some(h))) => h,
        _ => Seq::empty(),
    }
}

/// The client a request is sent with: the default one, or one with a client
/// certificate, with the mTLS outcome.
#[derive(Debug)]
pub enum ClientChoice {
    Default(MtlsResult),
    Certificate(CertificateMatch, MtlsResult),
}

/// Chooses the client for a request to `url`: a certificate of `certificates` that
/// the URL's host selects, if the URL is `https` and has a host.
pub fn choose_client(url: &str, certificates: Option<&CertificateStore>) -> (r: ClientChoice)
    ensures
        match mtls_skip(url@, certificates is Some) {
            Some(m) => r matches ClientChoice::Default(res) && res@ == skipped_view(m),
            None => {
                let store = certificates->0;
                let host = normalized_host(url_host(url@));
                &&& (r is Default <==> forall|i: int, j: int|
                    match_at(store.records(), host, i, j) is None)
                &&& (r matches ClientChoice::Default(res) ==> res@ == skipped_view(
                    "mTLS: no configured client certificate matched "@ + url_host(url@),
                ))
                &&& (r matches ClientChoice::Certificate(m, res) ==> {
                    &&& exists|i: int, j: int|
                        {
                            &&& is_selected(store.records(), host, i, j)
                            &&& m.id@ == store.records()[i].id@
                            &&& m.name@ == store.records()[i].name@
                            &&& m.matched_host_pattern@ == store.records()[i].hosts@[j]@
                        }
                    &&& res@ == selected_view(
                        m.id@,
                        m.name@,
                        m.matched_host_pattern@,
                        "mTLS: https host "@ + url_host(url@) + " matched "@
                            + m.matched_host_pattern@ + " using "@ + m.name@,
                    )
                })
            },
        },
{
    proof {
        reveal_strlit("https");
    }
    let (scheme, host) = match parse_url(url) {
        Err(_) => {
            return ClientChoice::Default(
                skipped("mTLS skipped because request URL could not be parsed"),
            );
        },
        Ok(p) => p,
    };
    if !same_chars(&chars_of(scheme.as_str()), &chars_of("https")) {
        return ClientChoice::Default(skipped("mTLS skipped for non-HTTPS URL"));
    }
    let host = match host {
        None => {
            return ClientChoice::Default(skipped("mTLS skipped because HTTPS URL has no hostname"));
        },
        Some(h) => h,
    };
    let store = match certificates {
        None => {
            return ClientChoice::Default(
                skipped("mTLS skipped because no certificate store is configured"),
            );
        },
        Some(s) => s,
    };
    match store.match_host(host.as_str()) {
        None => {
            let mut m = chars_of("mTLS: no configured client certificate matched ");
            append(&mut m, &chars_of(host.as_str()));
            ClientChoice::Default(
                MtlsResult {
                    certificate_selected: false,
                    certificate_id: None,
                    certificate_name: None,
                    matched_host_pattern: None,
                    message: Some(string_of(&m)),
                },
            )
        },
        Some(matched) => {
            let mut m = chars_of("mTLS: https host ");
            append(&mut m, &chars_of(host.as_str()));
            append(&mut m, &chars_of(" matched "));
            append(&mut m, &chars_of(matched.matched_host_pattern.as_str()));
            append(&mut m, &chars_of(" using "));
            append(&mut m, &chars_of(matched.name.as_str()));
            let result = MtlsResult {
                certificate_selected: true,
                certificate_id: Some(matched.id.clone()),
                certificate_name: Some(matched.name.clone()),
                matched_host_pattern: Some(matched.matched_host_pattern.clone()),
                message: Some(string_of(&m)),
            };
            ClientChoice::Certificate(matched, result)
        },
    }
}

// ---------------------------------------------------------------------------
// Methods and headers

/// Whether `c` is a token character of HTTP (RFC 9110 `tchar`): an ASCII letter or
/// digit, or one of ``!#$%&'*+-.^_`|~``.
pub open spec fn is_tchar(c: char) -> bool {
    ||| ('a' <= c && c <= 'z')
    ||| ('A' <= c && c <= 'Z')
    ||| ('0' <= c && c <= '9')
    ||| c == '!' || c == '#' || c == '$' || c == '%' || c == '&' || c == '\''
    ||| c == '*' || c == '+' || c == '-' || c == '.' || c == '^' || c == '_'
    ||| c == '`' || c == '|' || c == '~'
}

/// Whether `http::Method::from_bytes` accepts the bytes of `method`: it is not
/// empty and made of token characters.
pub open spec fn http_method_valid(method: Seq<char>) -> bool {
    method.len() > 0 && forall|i: int| 0 <= i < method.len() ==> is_tchar(#[trigger] method[i])
}

/// Whether `http::HeaderName::from_bytes` accepts the bytes of `name`: it is not
/// empty, at most 65535 long, and made of token characters.
pub open spec fn header_name_valid(name: Seq<char>) -> bool {
    &&& 0 < name.len() <= 65535
    &&& forall|i: int| 0 <= i < name.len() ==> is_tchar(#[trigger] name[i])
}

/// Whether `http::HeaderValue::from_str` accepts `value`: no control character but
/// the tab (each byte is at least 32 and not 127, or a tab).
pub open spec fn header_value_valid(value: Seq<char>) -> bool {
    forall|i: int|
        0 <= i < value.len() ==> ((#[trigger] value[i] as u32) >= 32 && (value[i] as u32) != 127)
            || value[i] == '\t'
}

/// Calls `http::Method::from_bytes` (as `axum::http::Method`), which accepts the
/// bytes exactly when `http_method_valid` holds (its `METHOD_CHARS` table holds the
/// token characters). Its error's text is `invalid HTTP method`.
#[verifier::external_body]
fn check_method(method: &str) -> (r: Result<(), String>)
    ensures
        r is Ok == http_method_valid(method@),
        r matches Err(e) ==> e@ == "invalid HTTP method"@,
{
    match axum::http::Method::from_bytes(method.as_bytes()) {
        Ok(_) => Ok(()),
        Err(err) => Err(err.to_string()),
    }
}

/// Calls `http::HeaderName::from_bytes` (as `axum::http::HeaderName`), which accepts
/// the bytes exactly when `header_name_valid` holds (its `HEADER_CHARS` table holds
/// the token characters; longer than `MAX_HEADER_NAME_LEN`, 65535, is refused; a
/// character outside ASCII gives a byte the table refuses). Its error's text is
/// `invalid HTTP header name`.
#[verifier::external_body]
fn check_header_name(name: &str) -> (r: Result<(), String>)
    ensures
        r is Ok == header_name_valid(name@),
        r matches Err(e) ==> e@ == "invalid HTTP header name"@,
{
    match axum::http::HeaderName::from_bytes(name.as_bytes()) {
        Ok(_) => Ok(()),
        Err(err) => Err(err.to_string()),
    }
}

/// Calls `http::HeaderValue::from_str` (as `axum::http::HeaderValue`), which accepts
/// the text exactly when every byte is at least 32 and not 127, or a tab; the bytes
/// of a character outside ASCII are all at least 128, so this is `header_value_valid`.
/// Its error's text is `failed to parse header value`.
#[verifier::external_body]
fn check_header_value(value: &str) -> (r: Result<(), String>)
    ensures
        r is Ok == header_value_valid(value@),
        r matches Err(e) ==> e@ == "failed to parse header value"@,
{
    match axum::http::HeaderValue::from_str(value) {
        Ok(_) => Ok(()),
        Err(err) => Err(err.to_string()),
    }
}

/// The problem with the first of the first `n` headers that cannot be sent: its
/// name, else its value.
pub open spec fn header_problem(hs: Seq<(Seq<char>, Seq<char>)>, n: int) -> Option<Seq<char>>
    decreases n,
{
    if n <= 0 {
        None
    } else {
        match header_problem(hs, n - 1) {
            Some(p) => Some(p),
            None => if !header_name_valid(hs[n - 1].0) {
                Some("invalid header name "@ + hs[n - 1].0 + ": "@ + "invalid HTTP header name"@)
            } else if !header_value_valid(hs[n - 1].1) {
                Some(
                    "invalid value for header "@ + hs[n - 1].0 + ": "@
                        + "failed to parse header value"@,
                )
            } else {
                None
            },
        }
    }
}

/// Why a request cannot be sent: its method, else the first bad header.
pub open spec fn request_problem(req: ExecutableRequestView) -> Option<Seq<char>> {
    if !http_method_valid(req.method) {
        Some("invalid method: "@ + "invalid HTTP method"@)
    } else {
        header_problem(req.headers, req.headers.len() as int)
    }
}

proof fn lemma_header_problem_stays(hs: Seq<(Seq<char>, Seq<char>)>, i: int, n: int)
    requires
        i <= n,
        header_problem(hs, i) is Some,
    ensures
        header_problem(hs, n) == header_problem(hs, i),
    decreases n - i,
{
    if n > i {
        lemma_header_problem_stays(hs, i, n - 1);
    }
}

/// Checks that a request's method and headers can be sent.
pub fn check_request(req: &ExecutableRequest) -> (r: Result<(), String>)
    ensures
        match request_problem(req@) {
            Some(m) => r matches Err(x) && x@ == m,
            None => r is Ok,
        },
{
    if let Err(e) = check_method(req.method.as_str()) {
        let mut m = chars_of("invalid method: ");
        append(&mut m, &chars_of(e.as_str()));
        return Err(string_of(&m));
    }
    let ghost hv = headers_view(req.headers@);
    let mut i: usize = 0;
    while i < req.headers.len()
        invariant
            i <= req.headers.len(),
            hv == headers_view(req.headers@),
            http_method_valid(req@.method),
            header_problem(hv, i as int) is None,
        decreases req.headers.len() - i,
    {
        let h = &req.headers[i];
        assert(hv[i as int] == (h.name@, h.value@));
        if let Err(e) = check_header_name(h.name.as_str()) {
            let mut m = chars_of("invalid header name ");
            append(&mut m, &chars_of(h.name.as_str()));
            append(&mut m, &chars_of(": "));
            append(&mut m, &chars_of(e.as_str()));
            proof {
                lemma_header_problem_stays(hv, i + 1, hv.len() as int);
            }
            return Err(string_of(&m));
        }
        if let Err(e) = check_header_value(h.value.as_str()) {
            let mut m = chars_of("invalid value for header ");
            append(&mut m, &chars_of(h.name.as_str()));
            append(&mut m, &chars_of(": "));
            append(&mut m, &chars_of(e.as_str()));
            proof {
                lemma_header_problem_stays(hv, i + 1, hv.len() as int);
            }
            return Err(string_of(&m));
        }
        i = i + 1;
    }
    Ok(())
}

// ---------------------------------------------------------------------------
// Running a request

/// The result of running one request of a plan.
#[derive(Debug)]
pub struct ExecutionResult {
    pub id: usize,
    pub name: String,
    pub method: String,
    pub url: String,
    pub status: Option<u16>,
    pub ok: bool,
    pub duration_ms: u128,
    pub response_bytes: usize,
    pub response_preview: String,
    pub error: Option<String>,
    pub logs: Vec<String>,
    pub assertions: Vec<AssertionResult>,
    pub diagnostics: Vec<ExecutionDiagnostic>,
    pub mtls: MtlsResult,
}

/// What running a script gave back: the tests it recorded, its log lines, and the
/// errors it raised.
#[derive(Debug)]
pub struct ScriptOutcome {
    pub tests: Vec<AssertionResult>,
    pub logs: Vec<String>,
    pub errors: Vec<ScriptRuntimeError>,
}

/// Whether `d` is the diagnostic for the error `e` of a script of `phase`.
pub open spec fn is_error_diagnostic(
    d: ExecutionDiagnostic,
    phase: Seq<char>,
    source: Seq<char>,
    e: ScriptRuntimeError,
) -> bool {
    &&& d.kind@ == error_kind(e)
    &&& d.phase@ == phase
    &&& d.message@ == e.message@
    &&& opt_string(d.details) == opt_string(e.stack)
    &&& opt_string(d.source_preview) == Some(spec_script_preview(source))
}

/// The state of a request while it runs: the request as it will be sent, and what
/// has been gathered for its result.
#[derive(Debug)]
pub struct RequestRun {
    pub executable: ExecutableRequest,
    pub assertions: Vec<AssertionResult>,
    pub logs: Vec<String>,
    pub status: Option<u16>,
    pub response_bytes: usize,
    pub response_preview: String,
    pub error: Option<String>,
    pub diagnostics: Vec<ExecutionDiagnostic>,
    pub mtls: MtlsResult,
}

/// Whether every check in `a` passed.
pub open spec fn all_passed(a: Seq<AssertionResult>) -> bool {
    forall|i: int| 0 <= i < a.len() ==> (#[trigger] a[i]).passed
}

impl RequestRun {
    /// The state at the start of a request's run: the request as the plan wrote it,
    /// nothing gathered yet.
    pub fn start(request: &TestPlanRequest) -> (r: Self)
        ensures
            r.executable@ == (ExecutableRequestView {
                method: request.method@,
                url: request.raw_url@,
                headers: headers_view(request.raw_headers@),
                body: opt_string(request.raw_body),
            }),
            r.assertions@.len() == 0,
            r.logs@.len() == 0,
            r.status is None,
            r.response_bytes == 0,
            r.response_preview@.len() == 0,
            r.error is None,
            r.diagnostics@.len() == 0,
            r.mtls@ == (MtlsView {
                certificate_selected: false,
                certificate_id: None,
                certificate_name: None,
                matched_host_pattern: None,
                message: None,
            }),
    {
        RequestRun {
            executable: ExecutableRequest::from_plan(request),
            assertions: Vec::new(),
            logs: Vec::new(),
            status: None,
            response_bytes: 0,
            response_preview: String::new(),
            error: None,
            diagnostics: Vec::new(),
            mtls: MtlsResult::default(),
        }
    }

    /// Takes in what a script of `phase` with source `source` gave back: its logs and
    /// tests are kept; if it raised errors, each becomes a diagnostic and the run
    /// stops with an error. Returns whether the run goes on.
    pub fn record_script(&mut self, phase: &str, source: &str, outcome: ScriptOutcome) -> (go_on:
        bool)
        ensures
            go_on == (outcome.errors@.len() == 0),
            final(self).logs@ == old(self).logs@ + outcome.logs@,
            final(self).assertions@ == old(self).assertions@ + outcome.tests@,
            go_on ==> final(self).error == old(self).error && final(self).diagnostics@ == old(
                self,
            ).diagnostics@,
            !go_on ==> {
                &&& opt_string(final(self).error) == Some(
                    script_error_text(phase@, outcome.errors@),
                )
                &&& final(self).diagnostics@.len() == old(self).diagnostics@.len()
                    + outcome.errors@.len()
                &&& final(self).diagnostics@.take(old(self).diagnostics@.len() as int) == old(
                    self,
                ).diagnostics@
                &&& forall|i: int|
                    0 <= i < outcome.errors@.len() ==> is_error_diagnostic(
                        #[trigger] final(self).diagnostics@[old(self).diagnostics@.len() + i],
                        phase@,
                        source@,
                        outcome.errors@[i],
                    )
            },
            final(self).executable == old(self).executable,
            final(self).status == old(self).status,
            final(self).response_bytes == old(self).response_bytes,
            final(self).response_preview == old(self).response_preview,
            final(self).mtls == old(self).mtls,
    {
        let ScriptOutcome { mut tests, mut logs, errors } = outcome;
        self.logs.append(&mut logs);
        self.assertions.append(&mut tests);
        if errors.len() == 0 {
            return true;
        }
        let ghost before = self.diagnostics@;
        let mut found = script_diagnostics(phase, source, &errors);
        let ghost fv = found@;
        self.diagnostics.append(&mut found);
        assert(self.diagnostics@.take(before.len() as int) =~= before);
        assert forall|i: int| 0 <= i < errors@.len() implies is_error_diagnostic(
            #[trigger] self.diagnostics@[before.len() + i],
            phase@,
            source@,
            errors@[i],
        ) by {
            assert(self.diagnostics@[before.len() + i] == fv[i]);
        }
        self.error = Some(format_script_error(phase, &errors));
        false
    }

    /// Stops the run: a script of `phase` with source `source` could not run.
    pub fn record_script_failure(&mut self, phase: &str, source: &str, err: String)
        ensures
            opt_string(final(self).error) == Some(err@),
            final(self).diagnostics@.len() == old(self).diagnostics@.len() + 1,
            final(self).diagnostics@.drop_last() == old(self).diagnostics@,
            final(self).diagnostics@.last().kind@ == "script"@,
            final(self).diagnostics@.last().phase@ == phase@,
            final(self).diagnostics@.last().message@ == err@,
            final(self).diagnostics@.last().details is None,
            opt_string(final(self).diagnostics@.last().source_preview) == Some(
                spec_script_preview(source@),
            ),
            final(self).executable == old(self).executable,
            final(self).logs == old(self).logs,
            final(self).assertions == old(self).assertions,
            final(self).status == old(self).status,
            final(self).response_bytes == old(self).response_bytes,
            final(self).response_preview == old(self).response_preview,
            final(self).mtls == old(self).mtls,
    {
        let d = script_diagnostic(phase, source, err.as_str());
        self.diagnostics.push(d);
        self.error = Some(err);
    }

    /// Stops the run: the script of `phase` could not be found.
    pub fn record_missing_script(&mut self, phase: &str, err: String)
        ensures
            opt_string(final(self).error) == Some(err@),
            final(self).diagnostics@.len() == old(self).diagnostics@.len() + 1,
            final(self).diagnostics@.drop_last() == old(self).diagnostics@,
            final(self).diagnostics@.last().kind@ == "script"@,
            final(self).diagnostics@.last().phase@ == phase@,
            final(self).diagnostics@.last().message@ == err@,
            final(self).diagnostics@.last().details is None,
            final(self).diagnostics@.last().source_preview is None,
            final(self).executable == old(self).executable,
            final(self).logs == old(self).logs,
            final(self).assertions == old(self).assertions,
            final(self).status == old(self).status,
            final(self).response_bytes == old(self).response_bytes,
            final(self).response_preview == old(self).response_preview,
            final(self).mtls == old(self).mtls,
    {
        let d = ExecutionDiagnostic::runtime(phase, string_of(&chars_of(err.as_str())), None);
        self.diagnostics.push(d);
        self.error = Some(err);
    }

    /// Resolves the request's placeholders, once its pre-request scripts ran; an
    /// error stops the run.
    pub fn resolve(
        &mut self,
        file_vars: &Variables,
        globals: &Variables,
        request_vars: &Variables,
        env: &Variables,
    )
        requires
            old(self).error is None,
        ensures
            exists|d: RuntimeDraws|
                match #[trigger] spec_resolve_request(
                    old(self).executable@,
                    file_vars@,
                    globals@,
                    request_vars@,
                    env@,
                    d,
                ) {
                    Ok(x) => final(self).executable@ == x && final(self).error is None,
                    Err(e) => final(self).executable == old(self).executable && opt_string(
                        final(self).error,
                    ) == Some(e.1),
                },
            final(self).logs == old(self).logs,
            final(self).assertions == old(self).assertions,
            final(self).diagnostics == old(self).diagnostics,
            final(self).status == old(self).status,
            final(self).response_bytes == old(self).response_bytes,
            final(self).response_preview == old(self).response_preview,
            final(self).mtls == old(self).mtls,
    {
        match resolve_request(&self.executable, file_vars, globals, request_vars, env) {
            Ok(resolved) => {
                self.executable = resolved;
            },
            Err(e) => {
                self.error = Some(e.message());
            },
        }
    }

    /// Ends the pre-request phase and says whether the request is sent: not after a
    /// pre-request script stopped the run, nor when a placeholder cannot be
    /// resolved; otherwise the request is sent with its placeholders resolved.
    pub fn prepare(
        &mut self,
        file_vars: &Variables,
        globals: &Variables,
        request_vars: &Variables,
        env: &Variables,
    ) -> (send: bool)
        ensures
            send == (final(self).error is None),
            old(self).error is Some ==> !send && final(self).executable == old(self).executable
                && final(self).error == old(self).error,
            old(self).error is None ==> exists|d: RuntimeDraws|
                match #[trigger] spec_resolve_request(
                    old(self).executable@,
                    file_vars@,
                    globals@,
                    request_vars@,
                    env@,
                    d,
                ) {
                    Ok(x) => send && final(self).executable@ == x,
                    Err(e) => !send && final(self).executable == old(self).executable
                        && opt_string(final(self).error) == Some(e.1),
                },
            final(self).logs == old(self).logs,
            final(self).assertions == old(self).assertions,
            final(self).diagnostics == old(self).diagnostics,
            final(self).status == old(self).status,
            final(self).response_bytes == old(self).response_bytes,
            final(self).response_preview == old(self).response_preview,
            final(self).mtls == old(self).mtls,
    {
        if self.error.is_some() {
            return false;
        }
        self.resolve(file_vars, globals, request_vars, env);
        self.error.is_none()
    }

    /// The result of a run stopped before the request was sent.
    pub fn stopped(self, request: &TestPlanRequest, duration_ms: u128) -> (r: ExecutionResult)
        requires
            self.error is Some,
        ensures
            r.id == request.id,
            r.name@ == request.name@,
            r.method == self.executable.method,
            r.url == self.executable.url,
            r.status is None,
            !r.ok,
            r.duration_ms == duration_ms,
            r.response_bytes == self.response_bytes,
            r.response_preview == self.response_preview,
            r.error == self.error,
            r.logs == self.logs,
            r.assertions == self.assertions,
            r.diagnostics == self.diagnostics,
            r.mtls == self.mtls,
    {
        let RequestRun {
            executable,
            assertions,
            logs,
            status: _,
            response_bytes,
            response_preview,
            error,
            diagnostics,
            mtls,
        } = self;
        ExecutionResult {
            id: request.id,
            name: request.name.clone(),
            method: executable.method,
            url: executable.url,
            status: None,
            ok: false,
            duration_ms,
            response_bytes,
            response_preview,
            error,
            logs,
            assertions,
            diagnostics,
            mtls,
        }
    }

    /// The result of a run whose request could not be sent, for `error`.
    pub fn failed_before_send(self, request: &TestPlanRequest, duration_ms: u128, error: String) -> (r:
        ExecutionResult)
        ensures
            r.id == request.id,
            r.name@ == request.name@,
            r.method == self.executable.method,
            r.url == self.executable.url,
            r.status is None,
            !r.ok,
            r.duration_ms == duration_ms,
            r.response_bytes == 0,
            r.response_preview@.len() == 0,
            opt_string(r.error) == Some(error@),
            r.logs == self.logs,
            r.assertions == self.assertions,
            r.diagnostics == self.diagnostics,
            r.mtls == self.mtls,
    {
        let RequestRun {
            executable,
            assertions,
            logs,
            status: _,
            response_bytes: _,
            response_preview: _,
            error: _,
            diagnostics,
            mtls,
        } = self;
        ExecutionResult {
            id: request.id,
            name: request.name.clone(),
            method: executable.method,
            url: executable.url,
            status: None,
            ok: false,
            duration_ms,
            response_bytes: 0,
            response_preview: String::new(),
            error: Some(error),
            logs,
            assertions,
            diagnostics,
            mtls,
        }
    }

    /// Takes in the body of the response: its size and the preview of its start.
    pub fn record_body(&mut self, bytes: &[u8])
        ensures
            final(self).response_bytes == bytes@.len(),
            final(self).response_preview@ == utf8_lossy(
                bytes@.take(
                    if bytes@.len() < MAX_BODY_PREVIEW {
                        bytes@.len() as int
                    } else {
                        MAX_BODY_PREVIEW as int
                    },
                ),
            ),
            final(self).executable == old(self).executable,
            final(self).logs == old(self).logs,
            final(self).assertions == old(self).assertions,
            final(self).diagnostics == old(self).diagnostics,
            final(self).status == old(self).status,
            final(self).error == old(self).error,
            final(self).mtls == old(self).mtls,
    {
        self.response_bytes = bytes.len();
        self.response_preview = preview_bytes(bytes);
    }

    /// Records that the response body could not be read.
    pub fn record_body_error(&mut self, err: &str)
        ensures
            opt_string(final(self).error) == Some("failed to read response body: "@ + err@),
            final(self).executable == old(self).executable,
            final(self).logs == old(self).logs,
            final(self).assertions == old(self).assertions,
            final(self).diagnostics == old(self).diagnostics,
            final(self).status == old(self).status,
            final(self).response_bytes == old(self).response_bytes,
            final(self).response_preview == old(self).response_preview,
            final(self).mtls == old(self).mtls,
    {
        let mut m = chars_of("failed to read response body: ");
        append(&mut m, &chars_of(err));
        self.error = Some(string_of(&m));
    }

    /// Keeps how the client for the request was chosen.
    pub fn use_client(&mut self, choice: MtlsResult)
        ensures
            final(self).mtls == choice,
            final(self).executable == old(self).executable,
            final(self).logs == old(self).logs,
            final(self).assertions == old(self).assertions,
            final(self).diagnostics == old(self).diagnostics,
            final(self).status == old(self).status,
            final(self).response_bytes == old(self).response_bytes,
            final(self).response_preview == old(self).response_preview,
            final(self).error == old(self).error,
    {
        self.mtls = choice;
    }

    /// Records the status of the response.
    pub fn record_status(&mut self, status: u16)
        ensures
            final(self).status == Some(status),
            final(self).executable == old(self).executable,
            final(self).logs == old(self).logs,
            final(self).assertions == old(self).assertions,
            final(self).diagnostics == old(self).diagnostics,
            final(self).response_bytes == old(self).response_bytes,
            final(self).response_preview == old(self).response_preview,
            final(self).mtls == old(self).mtls,
            final(self).error == old(self).error,
    {
        self.status = Some(status);
    }

    /// Records that the request could not be sent, with the client's error text.
    pub fn record_send_error(&mut self, err: String)
        ensures
            opt_string(final(self).error) == Some(err@),
            final(self).executable == old(self).executable,
            final(self).logs == old(self).logs,
            final(self).assertions == old(self).assertions,
            final(self).diagnostics == old(self).diagnostics,
            final(self).status == old(self).status,
            final(self).response_bytes == old(self).response_bytes,
            final(self).response_preview == old(self).response_preview,
            final(self).mtls == old(self).mtls,
    {
        self.error = Some(err);
    }

    /// Checks the plan's status assertions against the response status, when the
    /// request has no response handler scripts (which make their own checks).
    pub fn check_status(&mut self, request: &TestPlanRequest, status: u16)
        ensures
            request.response_handler_scripts@.len() > 0 ==> final(self).assertions == old(
                self,
            ).assertions,
            request.response_handler_scripts@.len() == 0 ==> {
                &&& final(self).assertions@.len() == old(self).assertions@.len()
                    + request.assertions@.len()
                &&& final(self).assertions@.take(old(self).assertions@.len() as int) == old(
                    self,
                ).assertions@
                &&& forall|i: int|
                    0 <= i < request.assertions@.len() ==> {
                        let a = #[trigger] final(self).assertions@[old(self).assertions@.len() + i];
                        let x = request.assertions@[i];
                        &&& a.name@ == x.name@
                        &&& a.passed == (status == assertion_pair(x).1)
                        &&& a.message@ == status_message(assertion_pair(x).1, status)
                    }
            },
            final(self).executable == old(self).executable,
            final(self).logs == old(self).logs,
            final(self).diagnostics == old(self).diagnostics,
            final(self).status == old(self).status,
            final(self).error == old(self).error,
            final(self).response_bytes == old(self).response_bytes,
            final(self).response_preview == old(self).response_preview,
            final(self).mtls == old(self).mtls,
    {
        if request.response_handler_scripts.len() > 0 {
            return;
        }
        let ghost start = self.assertions@;
        let mut i: usize = 0;
        while i < request.assertions.len()
            invariant
                i <= request.assertions.len(),
                self.assertions@.len() == start.len() + i,
                self.assertions@.take(start.len() as int) == start,
                start == old(self).assertions@,
                request.response_handler_scripts@.len() == 0,
                self.executable == old(self).executable,
                self.logs == old(self).logs,
                self.diagnostics == old(self).diagnostics,
                self.status == old(self).status,
                self.error == old(self).error,
                self.response_bytes == old(self).response_bytes,
                self.response_preview == old(self).response_preview,
                self.mtls == old(self).mtls,
                forall|k: int|
                    0 <= k < i ==> {
                        let a = #[trigger] self.assertions@[start.len() + k];
                        let x = request.assertions@[k];
                        &&& a.name@ == x.name@
                        &&& a.passed == (status == assertion_pair(x).1)
                        &&& a.message@ == status_message(assertion_pair(x).1, status)
                    },
            decreases request.assertions.len() - i,
        {
            let a = evaluate_assertion(&request.assertions[i], status);
            let ghost before = self.assertions@;
            self.assertions.push(a);
            assert(self.assertions@.take(start.len() as int) =~= before.take(start.len() as int));
            assert(forall|k: int| 0 <= k < before.len() ==> self.assertions@[k] == before[k]);
            i = i + 1;
        }
    }

    /// The result of the run: it passed when there was no error, a status came back,
    /// and every check passed.
    pub fn finish(self, request: &TestPlanRequest, duration_ms: u128) -> (r: ExecutionResult)
        ensures
            r.ok == (self.error is None && self.status is Some && all_passed(self.assertions@)),
            r.id == request.id,
            r.name@ == request.name@,
            r.method == self.executable.method,
            r.url == self.executable.url,
            r.status == self.status,
            r.duration_ms == duration_ms,
            r.response_bytes == self.response_bytes,
            r.response_preview == self.response_preview,
            r.error == self.error,
            r.logs == self.logs,
            r.assertions == self.assertions,
            r.diagnostics == self.diagnostics,
            r.mtls == self.mtls,
    {
        let mut passed = true;
        let mut i: usize = 0;
        while i < self.assertions.len()
            invariant
                i <= self.assertions.len(),
                passed == forall|k: int| 0 <= k < i ==> (#[trigger] self.assertions@[k]).passed,
            decreases self.assertions.len() - i,
        {
            if !self.assertions[i].passed {
                passed = false;
            }
            i = i + 1;
        }
        let ok = self.error.is_none() && self.status.is_some() && passed;
        let RequestRun {
            executable,
            assertions,
            logs,
            status,
            response_bytes,
            response_preview,
            error,
            diagnostics,
            mtls,
        } = self;
        ExecutionResult {
            id: request.id,
            name: request.name.clone(),
            method: executable.method,
            url: executable.url,
            status,
            ok,
            duration_ms,
            response_bytes,
            response_preview,
            error,
            logs,
            assertions,
            diagnostics,
            mtls,
        }
    }
}

// ---------------------------------------------------------------------------
// Reports and logs

/// The report of a run of a plan.
#[derive(Debug)]
pub struct ExecutionReport {
    pub id: String,
    pub plan_id: String,
    pub plan_path: String,
    pub plan_name: String,
    pub script: String,
    pub started_at_ms: i64,
    pub finished_at_ms: i64,
    pub duration_ms: u128,
    pub total: usize,
    pub passed: usize,
    pub failed: usize,
    pub results: Vec<ExecutionResult>,
}

/// The number of results in `rs` that passed.
pub open spec fn count_ok(rs: Seq<ExecutionResult>) -> nat
    decreases rs.len(),
{
    if rs.len() == 0 {
        0
    } else {
        count_ok(rs.drop_last()) + if rs.last().ok {
            1nat
        } else {
            0nat
        }
    }
}

proof fn lemma_count_ok_bound(rs: Seq<ExecutionResult>)
    ensures
        count_ok(rs) <= rs.len(),
    decreases rs.len(),
{
    if rs.len() > 0 {
        lemma_count_ok_bound(rs.drop_last());
    }
}

/// The report of a run of the plan `plan_id` named `plan_name` (whose text is
/// `script`): its results in order, how many passed and how many failed.
pub fn plan_report(
    id: String,
    plan_id: &str,
    plan_name: &str,
    script: String,
    started_at_ms: i64,
    finished_at_ms: i64,
    duration_ms: u128,
    results: Vec<ExecutionResult>,
) -> (r: ExecutionReport)
    ensures
        r.id == id,
        r.plan_id@ == plan_id@,
        r.plan_path@ == plan_id@,
        r.plan_name@ == plan_name@,
        r.script == script,
        r.started_at_ms == started_at_ms,
        r.finished_at_ms == finished_at_ms,
        r.duration_ms == duration_ms,
        r.results == results,
        r.total == results@.len(),
        r.passed == count_ok(results@),
        r.failed == results@.len() - count_ok(results@),
        r.passed + r.failed == r.total,
{
    let mut passed: usize = 0;
    let mut i: usize = 0;
    while i < results.len()
        invariant
            i <= results.len(),
            passed == count_ok(results@.take(i as int)),
            passed <= i,
        decreases results.len() - i,
    {
        assert(results@.take(i + 1).drop_last() =~= results@.take(i as int));
        if results[i].ok {
            passed = passed + 1;
        }
        i = i + 1;
    }
    assert(results@.take(results.len() as int) =~= results@);
    let total = results.len();
    ExecutionReport {
        id,
        plan_id: string_of(&chars_of(plan_id)),
        plan_path: string_of(&chars_of(plan_id)),
        plan_name: string_of(&chars_of(plan_name)),
        script,
        started_at_ms,
        finished_at_ms,
        duration_ms,
        total,
        passed,
        failed: total - passed,
        results,
    }
}

/// `PASS` or `FAIL`.
pub open spec fn pass_word(p: bool) -> Seq<char> {
    if p {
        "PASS"@
    } else {
        "FAIL"@
    }
}

/// A response status as a log shows it.
pub open spec fn status_text(s: Option<u16>) -> Seq<char> {
    match s {
        Some(v) => dec_nat(v as nat),
        None => "ERR"@,
    }
}

/// The lines of a list of line lists, in order.
pub open spec fn flat(parts: Seq<Seq<Seq<char>>>) -> Seq<Seq<char>>
    decreases parts.len(),
{
    if parts.len() == 0 {
        Seq::empty()
    } else {
        flat(parts.drop_last()) + parts.last()
    }
}

/// The log lines for a diagnostic.
pub open spec fn diagnostic_lines(d: ExecutionDiagnostic) -> Seq<Seq<char>> {
    seq!["  diagnostic ["@ + d.kind@ + ":"@ + d.phase@ + "]: "@ + d.message@] + details_lines(d)
        + preview_lines(d)
}

/// The log line for the details of a diagnostic, if it has any.
pub open spec fn details_lines(d: ExecutionDiagnostic) -> Seq<Seq<char>> {
    match d.details {
        Some(x) => seq!["    details: "@ + spec_one_line(x@)],
        None => Seq::empty(),
    }
}

/// The log lines for the script preview of a diagnostic, if it has one.
pub open spec fn preview_lines(d: ExecutionDiagnostic) -> Seq<Seq<char>> {
    match d.source_preview {
        Some(p) => seq!["    script:"@] + spec_lines(p@).map_values(|l: Seq<char>| "      "@ + l),
        None => Seq::empty(),
    }
}

/// The log lines for the mTLS outcome of a request.
pub open spec fn mtls_lines(m: MtlsResult) -> Seq<Seq<char>> {
    let note = match m.message {
        Some(x) => seq!["  "@ + x@],
        None => Seq::empty(),
    };
    let name = match m.certificate_name {
        Some(n) => n@,
        None => "unknown"@,
    };
    let pattern = match m.matched_host_pattern {
        Some(p) => p@,
        None => "unknown host pattern"@,
    };
    note + if m.certificate_selected {
        seq!["  mtls certificate: "@ + name + " ("@ + pattern + ")"@]
    } else {
        Seq::empty()
    }
}

/// The first log line for the result of a request.
pub open spec fn result_head(r: ExecutionResult) -> Seq<char> {
    pass_word(r.ok) + " "@ + r.method@ + " "@ + r.url@ + " -> "@ + status_text(r.status) + " in "@
        + dec_nat(r.duration_ms as nat) + " ms"@
}

/// The log line for the error of a result, if it has one.
pub open spec fn error_lines(r: ExecutionResult) -> Seq<Seq<char>> {
    match r.error {
        Some(e) => seq!["  error: "@ + e@],
        None => Seq::empty(),
    }
}

/// The log lines for the diagnostics of a result.
pub open spec fn diagnostics_lines(r: ExecutionResult) -> Seq<Seq<char>> {
    flat(r.diagnostics@.map_values(|d: ExecutionDiagnostic| diagnostic_lines(d)))
}

/// The log lines for the script logs of a result.
pub open spec fn script_log_lines(r: ExecutionResult) -> Seq<Seq<char>> {
    r.logs@.map_values(|l: String| "  log: "@ + l@)
}

/// The log line for a check.
pub open spec fn check_line(a: AssertionResult) -> Seq<char> {
    "  "@ + pass_word(a.passed) + " "@ + a.name@ + ": "@ + a.message@
}

/// The log lines for the checks of a result.
pub open spec fn check_lines(r: ExecutionResult) -> Seq<Seq<char>> {
    r.assertions@.map_values(|a: AssertionResult| check_line(a))
}

/// The log lines for the result of a request.
pub open spec fn result_lines(r: ExecutionResult) -> Seq<Seq<char>> {
    seq![result_head(r)] + error_lines(r) + mtls_lines(r.mtls) + diagnostics_lines(r)
        + script_log_lines(r) + check_lines(r)
}

/// The lines of the log of a run.
pub open spec fn log_lines(report: ExecutionReport) -> Seq<Seq<char>> {
    seq![
        "Execution "@ + report.id@,
        "Plan "@ + report.plan_name@ + " ("@ + report.plan_id@ + ")"@,
        "Result: "@ + dec_nat(report.passed as nat) + "/"@ + dec_nat(report.total as nat)
            + " passed, "@ + dec_nat(report.failed as nat) + " failed in "@ + dec_nat(
            report.duration_ms as nat,
        ) + " ms"@,
        Seq::empty(),
    ] + flat(report.results@.map_values(|r: ExecutionResult| result_lines(r)))
}

/// The text log of a run.
pub open spec fn spec_execution_log(report: ExecutionReport) -> Seq<char> {
    join_with(log_lines(report), seq!['\n'])
}

/// Appends the characters `s` as a line.
fn push_line(lines: &mut Vec<Vec<char>>, s: Vec<char>)
    ensures
        lines_view(final(lines)@) == lines_view(old(lines)@).push(s@),
{
    let ghost before = lines@;
    lines.push(s);
    assert(lines_view(lines@) =~= lines_view(before).push(s@));
}

fn push_diagnostic_lines(lines: &mut Vec<Vec<char>>, d: &ExecutionDiagnostic)
    ensures
        lines_view(final(lines)@) == lines_view(old(lines)@) + diagnostic_lines(*d),
{
    let mut first = chars_of("  diagnostic [");
    append(&mut first, &chars_of(d.kind.as_str()));
    append(&mut first, &chars_of(":"));
    append(&mut first, &chars_of(d.phase.as_str()));
    append(&mut first, &chars_of("]: "));
    append(&mut first, &chars_of(d.message.as_str()));
    let ghost start = lines_view(lines@);
    push_line(lines, first);
    let ghost mid = lines_view(lines@);
    if let Some(x) = &d.details {
        let mut l = chars_of("    details: ");
        append(&mut l, &chars_of(one_line(x.as_str()).as_str()));
        push_line(lines, l);
    }
    let ghost details_part = details_lines(*d);
    assert(lines_view(lines@) =~= mid + details_part);
    let ghost after_details = lines_view(lines@);
    if let Some(p) = &d.source_preview {
        push_line(lines, chars_of("    script:"));
        let pl = split_lines(&chars_of(p.as_str()));
        let ghost ls = spec_lines(p@);
        let ghost base = lines_view(lines@);
        let mut i: usize = 0;
        while i < pl.len()
            invariant
                i <= pl.len(),
                ls == lines_view(pl@),
                lines_view(lines@) == base + ls.take(i as int).map_values(
                    |l: Seq<char>| "      "@ + l,
                ),
            decreases pl.len() - i,
        {
            let mut l = chars_of("      ");
            append(&mut l, &pl[i]);
            assert(ls[i as int] == pl@[i as int]@);
            let ghost prev = lines_view(lines@);
            push_line(lines, l);
            assert(ls.take(i + 1).map_values(|l: Seq<char>| "      "@ + l) =~= ls.take(
                i as int,
            ).map_values(|l: Seq<char>| "      "@ + l).push("      "@ + ls[i as int]));
            i = i + 1;
        }
        assert(ls.take(pl.len() as int) =~= ls);
    }
    let ghost preview_part = preview_lines(*d);
    assert(lines_view(lines@) =~= after_details + preview_part);
    assert(lines_view(lines@) =~= start + diagnostic_lines(*d));
}

fn result_head_chars(r: &ExecutionResult) -> (h: Vec<char>)
    ensures
        h@ == result_head(*r),
{
    let mut head = if r.ok {
        chars_of("PASS")
    } else {
        chars_of("FAIL")
    };
    append(&mut head, &chars_of(" "));
    append(&mut head, &chars_of(r.method.as_str()));
    append(&mut head, &chars_of(" "));
    append(&mut head, &chars_of(r.url.as_str()));
    append(&mut head, &chars_of(" -> "));
    match r.status {
        Some(v) => push_dec_u64(&mut head, v as u64),
        None => append(&mut head, &chars_of("ERR")),
    }
    append(&mut head, &chars_of(" in "));
    crate::text::push_dec_u128(&mut head, r.duration_ms);
    append(&mut head, &chars_of(" ms"));
    head
}

fn push_mtls_lines(lines: &mut Vec<Vec<char>>, m: &MtlsResult)
    ensures
        lines_view(final(lines)@) == lines_view(old(lines)@) + mtls_lines(*m),
{
    let ghost start = lines_view(lines@);
    if let Some(x) = &m.message {
        let mut l = chars_of("  ");
        append(&mut l, &chars_of(x.as_str()));
        push_line(lines, l);
    }
    if m.certificate_selected {
        let mut l = chars_of("  mtls certificate: ");
        match &m.certificate_name {
            Some(n) => append(&mut l, &chars_of(n.as_str())),
            None => append(&mut l, &chars_of("unknown")),
        }
        append(&mut l, &chars_of(" ("));
        match &m.matched_host_pattern {
            Some(p) => append(&mut l, &chars_of(p.as_str())),
            None => append(&mut l, &chars_of("unknown host pattern")),
        }
        append(&mut l, &chars_of(")"));
        push_line(lines, l);
    }
    assert(lines_view(lines@) =~= start + mtls_lines(*m));
}

fn push_all_diagnostics(lines: &mut Vec<Vec<char>>, r: &ExecutionResult)
    ensures
        lines_view(final(lines)@) == lines_view(old(lines)@) + diagnostics_lines(*r),
{
    let ghost p3 = lines_view(lines@);
    let ghost dv = r.diagnostics@.map_values(|d: ExecutionDiagnostic| diagnostic_lines(d));
    let mut i: usize = 0;
    assert(dv.take(0) =~= Seq::<Seq<Seq<char>>>::empty());
    assert(lines_view(lines@) =~= p3 + flat(dv.take(0)));
    while i < r.diagnostics.len()
        invariant
            i <= r.diagnostics.len(),
            dv == r.diagnostics@.map_values(|d: ExecutionDiagnostic| diagnostic_lines(d)),
            lines_view(lines@) == p3 + flat(dv.take(i as int)),
        decreases r.diagnostics.len() - i,
    {
        push_diagnostic_lines(lines, &r.diagnostics[i]);
        assert(dv.take(i + 1).drop_last() =~= dv.take(i as int));
        assert(dv.take(i + 1).last() == diagnostic_lines(r.diagnostics@[i as int]));
        i = i + 1;
    }
    assert(dv.take(r.diagnostics.len() as int) =~= dv);
}

fn push_script_logs(lines: &mut Vec<Vec<char>>, r: &ExecutionResult)
    ensures
        lines_view(final(lines)@) == lines_view(old(lines)@) + script_log_lines(*r),
{
    let ghost p4 = lines_view(lines@);
    let ghost lg = script_log_lines(*r);
    let mut j: usize = 0;
    while j < r.logs.len()
        invariant
            j <= r.logs.len(),
            lg == script_log_lines(*r),
            lines_view(lines@) == p4 + lg.take(j as int),
        decreases r.logs.len() - j,
    {
        let mut l = chars_of("  log: ");
        append(&mut l, &chars_of(r.logs[j].as_str()));
        push_line(lines, l);
        assert(lg.take(j + 1) =~= lg.take(j as int).push(lg[j as int]));
        j = j + 1;
    }
    assert(lg.take(r.logs.len() as int) =~= lg);
}

fn push_checks(lines: &mut Vec<Vec<char>>, r: &ExecutionResult)
    ensures
        lines_view(final(lines)@) == lines_view(old(lines)@) + check_lines(*r),
{
    let ghost p5 = lines_view(lines@);
    let ghost av = check_lines(*r);
    let mut k: usize = 0;
    while k < r.assertions.len()
        invariant
            k <= r.assertions.len(),
            av == check_lines(*r),
            lines_view(lines@) == p5 + av.take(k as int),
        decreases r.assertions.len() - k,
    {
        let a = &r.assertions[k];
        let mut l = chars_of("  ");
        if a.passed {
            append(&mut l, &chars_of("PASS"));
        } else {
            append(&mut l, &chars_of("FAIL"));
        }
        append(&mut l, &chars_of(" "));
        append(&mut l, &chars_of(a.name.as_str()));
        append(&mut l, &chars_of(": "));
        append(&mut l, &chars_of(a.message.as_str()));
        assert(l@ == check_line(r.assertions@[k as int]));
        push_line(lines, l);
        assert(av.take(k + 1) =~= av.take(k as int).push(av[k as int]));
        k = k + 1;
    }
    assert(av.take(r.assertions.len() as int) =~= av);
}

fn push_result_lines(lines: &mut Vec<Vec<char>>, r: &ExecutionResult)
    ensures
        lines_view(final(lines)@) == lines_view(old(lines)@) + result_lines(*r),
{
    let ghost start = lines_view(lines@);
    push_line(lines, result_head_chars(r));
    let ghost p1 = lines_view(lines@);
    if let Some(e) = &r.error {
        let mut l = chars_of("  error: ");
        append(&mut l, &chars_of(e.as_str()));
        push_line(lines, l);
    }
    assert(lines_view(lines@) =~= p1 + error_lines(*r));
    let ghost p2 = lines_view(lines@);
    push_mtls_lines(lines, &r.mtls);
    let ghost p3 = lines_view(lines@);
    push_all_diagnostics(lines, r);
    let ghost p4 = lines_view(lines@);
    push_script_logs(lines, r);
    let ghost p5 = lines_view(lines@);
    push_checks(lines, r);
    assert(lines_view(lines@) =~= start + result_lines(*r));
}

/// The text log of a run: a header with the totals, then for each request its
/// outcome line, error, mTLS note, diagnostics, script logs and checks.
pub fn execution_log(report: &ExecutionReport) -> (r: String)
    ensures
        r@ == spec_execution_log(*report),
{
    let mut lines: Vec<Vec<char>> = Vec::new();
    let mut l1 = chars_of("Execution ");
    append(&mut l1, &chars_of(report.id.as_str()));
    push_line(&mut lines, l1);
    let mut l2 = chars_of("Plan ");
    append(&mut l2, &chars_of(report.plan_name.as_str()));
    append(&mut l2, &chars_of(" ("));
    append(&mut l2, &chars_of(report.plan_id.as_str()));
    append(&mut l2, &chars_of(")"));
    push_line(&mut lines, l2);
    let mut l3 = chars_of("Result: ");
    push_dec_u64(&mut l3, report.passed as u64);
    append(&mut l3, &chars_of("/"));
    push_dec_u64(&mut l3, report.total as u64);
    append(&mut l3, &chars_of(" passed, "));
    push_dec_u64(&mut l3, report.failed as u64);
    append(&mut l3, &chars_of(" failed in "));
    crate::text::push_dec_u128(&mut l3, report.duration_ms);
    append(&mut l3, &chars_of(" ms"));
    push_line(&mut lines, l3);
    push_line(&mut lines, Vec::new());
    let ghost head = lines_view(lines@);
    let ghost rv = report.results@.map_values(|r: ExecutionResult| result_lines(r));
    let mut i: usize = 0;
    assert(rv.take(0) =~= Seq::<Seq<Seq<char>>>::empty());
    assert(lines_view(lines@) =~= head + flat(rv.take(0)));
    while i < report.results.len()
        invariant
            i <= report.results.len(),
            rv == report.results@.map_values(|r: ExecutionResult| result_lines(r)),
            lines_view(lines@) == head + flat(rv.take(i as int)),
        decreases report.results.len() - i,
    {
        push_result_lines(&mut lines, &report.results[i]);
        assert(rv.take(i + 1).drop_last() =~= rv.take(i as int));
        assert(rv.take(i + 1).last() == result_lines(report.results@[i as int]));
        i = i + 1;
    }
    assert(rv.take(report.results.len() as int) =~= rv);
    assert(lines_view(lines@) =~= log_lines(*report));
    let nl = vec!['\n'];
    assert(nl@ =~= seq!['\n']);
    let joined = join_text(&lines, &nl);
    assert(lines@.map_values(|v: Vec<char>| v@) =~= lines_view(lines@));
    string_of(&joined)
}

// ---------------------------------------------------------------------------
// Script sources and clients

/// Where a script's source comes from: the plan itself, or a file to read.
#[derive(Debug)]
pub enum ScriptSource {
    Text(String),
    File(String),
}

/// Where the source of `script` comes from, with the plans directory `base_dir`
/// (none for an ad-hoc run): inline source as written; a file path joined to the
/// plans directory, which must keep it inside.
pub fn locate_script(script: &TestPlanScript, base_dir: Option<&str>) -> (r: Result<ScriptSource, String>)
    ensures
        match script {
            TestPlanScript::Inline { source } => r matches Ok(ScriptSource::Text(t)) && t@ == source@,
            TestPlanScript::File { path } => match base_dir {
                None => r matches Err(e) && e@ == "external script "@ + path@
                    + " cannot be resolved for ad-hoc execution"@,
                Some(b) => match spec_safe_join(b@, path@) {
                    Ok(p) => r matches Ok(ScriptSource::File(x)) && x@ == p,
                    Err(m) => r matches Err(e) && e@ == m,
                },
            },
        },
{
    match script {
        TestPlanScript::Inline { source } => Ok(ScriptSource::Text(source.clone())),
        TestPlanScript::File { path } => match base_dir {
            None => {
                let mut m = chars_of("external script ");
                append(&mut m, &chars_of(path.as_str()));
                append(&mut m, &chars_of(" cannot be resolved for ad-hoc execution"));
                Err(string_of(&m))
            },
            Some(b) => match safe_join(b, path.as_str()) {
                Ok(p) => Ok(ScriptSource::File(p)),
                Err(m) => Err(m),
            },
        },
    }
}

/// The error for an external script file that could not be read.
pub fn script_read_error(full_path: &str, err: &str) -> (r: String)
    ensures
        r@ == "failed to read external script "@ + full_path@ + ": "@ + err@,
{
    let mut m = chars_of("failed to read external script ");
    append(&mut m, &chars_of(full_path));
    append(&mut m, &chars_of(": "));
    append(&mut m, &chars_of(err));
    string_of(&m)
}

/// The error for a client certificate that could not be loaded.
pub fn certificate_load_error(name: &str, err: &str) -> (r: String)
    ensures
        r@ == "mTLS: failed to load certificate "@ + name@ + ": "@ + err@,
{
    let mut m = chars_of("mTLS: failed to load certificate ");
    append(&mut m, &chars_of(name));
    append(&mut m, &chars_of(": "));
    append(&mut m, &chars_of(err));
    string_of(&m)
}

/// The error for a client that could not be built with a certificate.
pub fn client_build_error(name: &str, err: &str) -> (r: String)
    ensures
        r@ == "mTLS: failed to create client for "@ + name@ + ": "@ + err@,
{
    let mut m = chars_of("mTLS: failed to create client for ");
    append(&mut m, &chars_of(name));
    append(&mut m, &chars_of(": "));
    append(&mut m, &chars_of(err));
    string_of(&m)
}

} // verus!
