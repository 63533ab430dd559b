//! The reader of JetBrains-style `.http` test plans: variables, `###` request
//! blocks, request lines, headers, bodies, pre-request (`<`) and response handler
//! (`>`) scripts, and the status assertions found in inline handlers.
use vstd::prelude::*;

use crate::certificates::views;
use crate::error::{AppError, AppResult, ErrorKind};
use crate::plan::{
    assertion_pair, assertions_view, headers_view, scripts_view, AssertionKind, HttpAssertion,
    opt_request_view, opt_string, requests_view, HttpHeader, TestPlan, TestPlanInput,
    TestPlanRequest, TestPlanScript,
};
use crate::substitution::{display_subst, opt_seq, substitute_allow_unresolved, Variables};
use crate::plan_paths::join_parts;
use crate::text::{
    append, ascii_upper, chars_of, dec_nat, find, find_char, find_in, has_char, is_ws,
    is_ws_char, lemma_find_from, lemma_trim_start_shape, matches_at, occurs_at, parse_u64,
    parse_u64_chars, push_dec_u64, same_chars, slice_of, starts_with, string_of, to_ascii_upper,
    trim, trim_bounds, trim_start, trim_start_char, trimmed,
};

verus! {

// ---------------------------------------------------------------------------
// Lines and tokens

/// A line without the `\r` of a `\r\n` ending.
pub open spec fn strip_cr(l: Seq<char>) -> Seq<char> {
    if l.len() > 0 && l.last() == '\r' {
        l.drop_last()
    } else {
        l
    }
}

/// The lines of `s`, as `str::lines` yields them: split at `\n`, a `\r` before
/// the `\n` dropped, and no empty line after a final `\n`.
pub open spec fn spec_lines(s: Seq<char>) -> Seq<Seq<char>>
    decreases s.len(),
{
    if s.len() == 0 {
        Seq::empty()
    } else {
        match find(s, seq!['\n']) {
            Some(i) => if 0 <= i < s.len() {
                seq![strip_cr(s.take(i))] + spec_lines(s.skip(i + 1))
            } else {
                seq![s]
            },
            None => seq![s],
        }
    }
}

/// The number of leading characters of `s` that are not whitespace.
pub open spec fn token_len(s: Seq<char>) -> nat
    decreases s.len(),
{
    if s.len() > 0 && !is_ws(s[0]) {
        1 + token_len(s.drop_first())
    } else {
        0
    }
}

pub proof fn lemma_token_len(s: Seq<char>)
    ensures
        token_len(s) <= s.len(),
        s.len() > 0 && !is_ws(s[0]) ==> token_len(s) >= 1,
        forall|i: int| 0 <= i < token_len(s) ==> !is_ws(#[trigger] s[i]),
        token_len(s) < s.len() ==> is_ws(s[token_len(s) as int]),
    decreases s.len(),
{
    if s.len() > 0 && !is_ws(s[0]) {
        lemma_token_len(s.drop_first());
        assert forall|i: int| 0 <= i < token_len(s) implies !is_ws(#[trigger] s[i]) by {
            if i > 0 {
                assert(s[i] == s.drop_first()[i - 1]);
            }
        }
        if token_len(s) < s.len() {
            assert(s[token_len(s) as int] == s.drop_first()[token_len(s) - 1]);
        }
    }
}

/// The whitespace-separated words of `s`, as `str::split_whitespace` yields them.
pub open spec fn tokens(s: Seq<char>) -> Seq<Seq<char>>
    decreases s.len(),
{
    let t = trim_start(s);
    if t.len() == 0 {
        Seq::empty()
    } else {
        let n = token_len(t);
        proof {
            lemma_trim_start_shape(s);
            lemma_token_len(t);
        }
        seq![t.take(n as int)] + tokens(t.skip(n as int))
    }
}

/// The `k`-th word of `s`, if it has one.
pub open spec fn nth_token(s: Seq<char>, k: int) -> Option<Seq<char>> {
    if 0 <= k < tokens(s).len() {
        Some(tokens(s)[k])
    } else {
        None
    }
}

/// The request methods a request line may start with.
pub open spec fn is_method(m: Seq<char>) -> bool {
    ||| m == "GET"@
    ||| m == "POST"@
    ||| m == "PUT"@
    ||| m == "PATCH"@
    ||| m == "DELETE"@
    ||| m == "HEAD"@
    ||| m == "OPTIONS"@
}

/// Whether `line` starts with a request method (in any ASCII case).
pub open spec fn spec_is_request_line(line: Seq<char>) -> bool {
    match nth_token(line, 0) {
        Some(t) => is_method(ascii_upper(t)),
        None => false,
    }
}

// ---------------------------------------------------------------------------
// Variables and names

/// `@name = value`: the trimmed name (not empty) and trimmed value.
pub open spec fn spec_parse_variable(line: Seq<char>) -> Option<(Seq<char>, Seq<char>)> {
    if line.len() > 0 && line[0] == '@' {
        let rest = line.skip(1);
        match find(rest, seq!['=']) {
            Some(i) => {
                let name = trim(rest.take(i));
                if name.len() > 0 {
                    Some((name, trim(rest.skip(i + 1))))
                } else {
                    None
                }
            },
            None => None,
        }
    } else {
        None
    }
}

/// `# @name X` or `// @name X`: the trimmed name `X` (not empty).
pub open spec fn spec_parse_name_comment(line: Seq<char>) -> Option<Seq<char>> {
    let rest = if "# @name"@.is_prefix_of(line) {
        Some(line.skip(7))
    } else if "// @name"@.is_prefix_of(line) {
        Some(line.skip(8))
    } else {
        None
    };
    match rest {
        Some(r) => if trim(r).len() > 0 {
            Some(trim(r))
        } else {
            None
        },
        None => None,
    }
}

/// Whether some line of `lines` is not blank.
pub open spec fn has_content(lines: Seq<Seq<char>>) -> bool {
    exists|i: int| 0 <= i < lines.len() && trim(#[trigger] lines[i]).len() > 0
}

/// A request block: the lines between `###` separators, with its name.
pub struct BlockView {
    pub name: Option<Seq<char>>,
    pub lines: Seq<Seq<char>>,
}

/// What reading the lines of a plan has gathered so far.
pub struct ScanState {
    pub vars: Map<Seq<char>, Seq<char>>,
    pub blocks: Seq<BlockView>,
    pub current: Seq<Seq<char>>,
    pub pending: Option<Seq<char>>,
}

/// Closes the current block: kept, with the pending name, if it has content;
/// dropped otherwise (the pending name stays).
pub open spec fn close_block(st: ScanState) -> ScanState {
    if has_content(st.current) {
        ScanState {
            vars: st.vars,
            blocks: st.blocks.push(BlockView { name: st.pending, lines: st.current }),
            current: Seq::empty(),
            pending: None,
        }
    } else {
        ScanState { vars: st.vars, blocks: st.blocks, current: Seq::empty(), pending: st.pending }
    }
}

/// The name after a `###` separator: the rest trimmed, leading `#`s dropped, trimmed.
pub open spec fn heading_name(line: Seq<char>) -> Seq<char> {
    trim(trim_start_char(trim(line.skip(3)), '#'))
}

/// Reads one raw line of a plan.
pub open spec fn scan_line(st: ScanState, raw: Seq<char>) -> ScanState {
    let line = trim(raw);
    if "###"@.is_prefix_of(line) {
        let closed = close_block(st);
        let n = heading_name(line);
        ScanState {
            vars: closed.vars,
            blocks: closed.blocks,
            current: closed.current,
            pending: if n.len() > 0 {
                Some(n)
            } else {
                None
            },
        }
    } else if !has_content(st.current) && spec_parse_variable(line) is Some {
        let (name, value) = spec_parse_variable(line)->0;
        ScanState {
            vars: st.vars.insert(name, value),
            blocks: st.blocks,
            current: Seq::empty(),
            pending: st.pending,
        }
    } else if !has_content(st.current) && spec_parse_name_comment(line) is Some {
        ScanState {
            vars: st.vars,
            blocks: st.blocks,
            current: Seq::empty(),
            pending: spec_parse_name_comment(line),
        }
    } else {
        ScanState {
            vars: st.vars,
            blocks: st.blocks,
            current: st.current.push(raw),
            pending: st.pending,
        }
    }
}

/// The state after reading the first `n` lines.
pub open spec fn scan_lines(lines: Seq<Seq<char>>, n: int) -> ScanState
    decreases n,
{
    if n <= 0 {
        ScanState {
            vars: Map::empty(),
            blocks: Seq::empty(),
            current: Seq::empty(),
            pending: None,
        }
    } else {
        scan_line(scan_lines(lines, n - 1), lines[n - 1])
    }
}

/// The variables and request blocks of a plan's text.
pub open spec fn scan_plan(content: Seq<char>) -> ScanState {
    let lines = spec_lines(content);
    close_block(scan_lines(lines, lines.len() as int))
}


// ---------------------------------------------------------------------------
// Scripts

/// A script of a request: inline source, or the path of a script file.
pub enum ScriptView {
    Inline(Seq<char>),
    File(Seq<char>),
}

/// The source of a `{% ... %}` script that starts at line `j` with the text
/// `current`: up to the first `%}`, lines joined with `\n`; with the last line
/// index reached and whether the end of the block came first.
pub open spec fn scan_script(lines: Seq<Seq<char>>, current: Seq<char>, j: int) -> (
    Seq<char>,
    int,
    bool,
)
    decreases lines.len() - j,
{
    match find(current, seq!['%', '}']) {
        Some(end) => (current.take(end), j, false),
        None => if j + 1 >= lines.len() {
            (current, j + 1, true)
        } else {
            let (rest, k, unterminated) = scan_script(lines, lines[j + 1], j + 1);
            (current + seq!['\n'] + rest, k, unterminated)
        },
    }
}

pub proof fn lemma_scan_script(lines: Seq<Seq<char>>, current: Seq<char>, j: int)
    ensures
        scan_script(lines, current, j).1 >= j,
        scan_script(lines, current, j).2 ==> scan_script(lines, current, j).1 >= lines.len(),
        !scan_script(lines, current, j).2 ==> scan_script(lines, current, j).1 < lines.len()
            || scan_script(lines, current, j).1 == j,
        j < lines.len() ==> scan_script(lines, current, j).1 <= lines.len(),
    decreases lines.len() - j,
{
    match find(current, seq!['%', '}']) {
        Some(end) => {},
        None => if j + 1 >= lines.len() {
        } else {
            lemma_scan_script(lines, lines[j + 1], j + 1);
        },
    }
}

/// The warning for a script block that runs past the end of its request block.
pub open spec fn unterminated_warning(id: nat) -> Seq<char> {
    "Request "@ + dec_nat(id) + " has an unterminated script block"@
}

/// What collecting the scripts marked by `marker` finds from line `i` on: the
/// scripts, the lines they occupy, and the warnings.
pub struct ScriptScan {
    pub scripts: Seq<ScriptView>,
    pub masked: Set<int>,
    pub warnings: Seq<Seq<char>>,
}

/// Collects the scripts of a block marked by `marker` (`<` or `>`) from line `i`: a
/// line whose trimmed text starts with the marker holds either `{% ... %}` inline
/// source (maybe over several lines) or the path of a script file.
pub open spec fn collect_from(lines: Seq<Seq<char>>, marker: char, id: nat, i: int) -> ScriptScan
    decreases lines.len() + 1 - i,
{
    if i < 0 || i >= lines.len() {
        ScriptScan { scripts: Seq::empty(), masked: Set::empty(), warnings: Seq::empty() }
    } else {
        let t = trim(lines[i]);
        if !(t.len() > 0 && t[0] == marker) {
            collect_from(lines, marker, id, i + 1)
        } else {
            let rest = trim(t.skip(1));
            if seq!['{', '%'].is_prefix_of(rest) {
                let (src, k, unterminated) = scan_script(lines, rest.skip(2), i);
                proof {
                    lemma_scan_script(lines, rest.skip(2), i);
                }
                let after = collect_from(lines, marker, id, k + 1);
                ScriptScan {
                    scripts: seq![ScriptView::Inline(trim(src))] + after.scripts,
                    masked: Set::new(|x: int| i <= x <= k && x < lines.len()).union(after.masked),
                    warnings: (if unterminated {
                        seq![unterminated_warning(id)]
                    } else {
                        Seq::empty()
                    }) + after.warnings,
                }
            } else {
                let after = collect_from(lines, marker, id, i + 1);
                ScriptScan {
                    scripts: if rest.len() > 0 {
                        seq![ScriptView::File(rest)] + after.scripts
                    } else {
                        after.scripts
                    },
                    masked: after.masked.insert(i),
                    warnings: after.warnings,
                }
            }
        }
    }
}

// ---------------------------------------------------------------------------
// Headers and body

/// What reading the lines after the request line gathers.
pub struct PartsState {
    pub in_body: bool,
    pub headers: Seq<(Seq<char>, Seq<char>)>,
    pub body: Seq<Seq<char>>,
    pub warnings: Seq<Seq<char>>,
}

/// The warning for a header line without a colon.
pub open spec fn malformed_header_warning(id: nat, line: Seq<char>) -> Seq<char> {
    "Request "@ + dec_nat(id) + " ignored malformed header: "@ + line
}

/// Reads one line after the request line: script and marker lines are skipped; the
/// first blank line starts the body; before it, comments are skipped and other lines
/// are `name: value` headers (or a warning).
pub open spec fn parts_step(st: PartsState, raw: Seq<char>, masked: bool, id: nat) -> PartsState {
    let t = trim(raw);
    if masked || (t.len() > 0 && (t[0] == '>' || t[0] == '<')) {
        st
    } else if !st.in_body && t.len() == 0 {
        PartsState { in_body: true, ..st }
    } else if !st.in_body {
        if (t.len() > 0 && t[0] == '#') || "//"@.is_prefix_of(t) {
            st
        } else {
            match find(raw, seq![':']) {
                None => PartsState {
                    warnings: st.warnings.push(malformed_header_warning(id, t)),
                    ..st
                },
                Some(c) => PartsState {
                    headers: st.headers.push((trim(raw.take(c)), trim(raw.skip(c + 1)))),
                    ..st
                },
            }
        }
    } else {
        PartsState { body: st.body.push(raw), ..st }
    }
}

/// The state after reading lines `from..n`.
pub open spec fn parts_scan(lines: Seq<Seq<char>>, masked: Set<int>, id: nat, from: int, n: int) -> PartsState
    decreases n - from,
{
    if n <= from {
        PartsState {
            in_body: false,
            headers: Seq::empty(),
            body: Seq::empty(),
            warnings: Seq::empty(),
        }
    } else {
        parts_step(parts_scan(lines, masked, id, from, n - 1), lines[n - 1], masked.contains(n - 1), id)
    }
}

/// `lines` without its trailing blank lines.
pub open spec fn drop_blank_tail(lines: Seq<Seq<char>>) -> Seq<Seq<char>>
    decreases lines.len(),
{
    if lines.len() > 0 && trim(lines.last()).len() == 0 {
        drop_blank_tail(lines.drop_last())
    } else {
        lines
    }
}


// ---------------------------------------------------------------------------
// Status assertions

/// The number of leading ASCII digits of `s`.
pub open spec fn digit_run(s: Seq<char>) -> nat
    decreases s.len(),
{
    if s.len() > 0 && crate::text::is_digit(s[0]) {
        1 + digit_run(s.drop_first())
    } else {
        0
    }
}

/// `digits.parse::<u16>()`.
pub open spec fn parse_u16(digits: Seq<char>) -> Option<u16> {
    match parse_u64(digits) {
        Some(v) => if v <= 65535 {
            Some(v as u16)
        } else {
            None
        },
        None => None,
    }
}

/// The status number after the first `pattern` in `line`, if digits follow it.
pub open spec fn status_after(line: Seq<char>, pattern: Seq<char>) -> Option<u16> {
    match find(line, pattern) {
        None => None,
        Some(i) => {
            let tail = trim_start(line.skip(i + pattern.len()));
            parse_u16(tail.take(digit_run(tail) as int))
        },
    }
}

/// The status that a handler line expects: `response.status === N` or
/// `response.status == N`.
pub open spec fn spec_parse_status_assertion(line: Seq<char>) -> Option<u16> {
    match status_after(line, "response.status ==="@) {
        Some(v) => Some(v),
        None => status_after(line, "response.status =="@),
    }
}

/// The text of a quoted string opened by `q` (backslash escapes the next
/// character), or `None` when it is not closed.
pub open spec fn quoted_text(s: Seq<char>, q: char, acc: Seq<char>, escaped: bool) -> Option<Seq<char>>
    decreases s.len(),
{
    if s.len() == 0 {
        None
    } else if escaped {
        quoted_text(s.drop_first(), q, acc.push(s[0]), false)
    } else if s[0] == '\\' {
        quoted_text(s.drop_first(), q, acc, true)
    } else if s[0] == q {
        Some(acc)
    } else {
        quoted_text(s.drop_first(), q, acc.push(s[0]), false)
    }
}

/// The name in `client.test("name", ...)` on `line`, quoted with `"`, `'` or `` ` ``.
pub open spec fn spec_parse_client_test_name(line: Seq<char>) -> Option<Seq<char>> {
    match find(line, "client.test("@) {
        None => None,
        Some(i) => {
            let tail = trim_start(line.skip(i + 12));
            if tail.len() == 0 {
                None
            } else {
                let q = tail[0];
                if q == '"' || q == '\'' || q == '`' {
                    quoted_text(tail.skip(1), q, Seq::empty(), false)
                } else {
                    None
                }
            }
        },
    }
}

/// The status assertion of a handler line, named after its `client.test` or
/// `Status is N`.
pub open spec fn assertion_of_line(line: Seq<char>) -> Option<(Seq<char>, u16)> {
    match spec_parse_status_assertion(line) {
        None => None,
        Some(e) => Some(
            (
                match spec_parse_client_test_name(line) {
                    Some(n) => n,
                    None => "Status is "@ + dec_nat(e as nat),
                },
                e,
            ),
        ),
    }
}

/// `line`'s assertion as a list of zero or one.
pub open spec fn assertions_of_line(line: Seq<char>) -> Seq<(Seq<char>, u16)> {
    match assertion_of_line(line) {
        Some(a) => seq![a],
        None => Seq::empty(),
    }
}

/// The assertions of the first `n` lines of a source, each line trimmed.
pub open spec fn assertions_of_lines(lines: Seq<Seq<char>>, n: int) -> Seq<(Seq<char>, u16)>
    decreases n,
{
    if n <= 0 {
        Seq::empty()
    } else {
        assertions_of_lines(lines, n - 1) + assertions_of_line(trim(lines[n - 1]))
    }
}

/// The assertions of an inline handler: those of each line, then that of the
/// whole source.
pub open spec fn assertions_of_source(src: Seq<char>) -> Seq<(Seq<char>, u16)> {
    let ls = spec_lines(src);
    assertions_of_lines(ls, ls.len() as int) + assertions_of_line(trim(src))
}

/// The assertions of the first `n` response handler scripts.
pub open spec fn assertions_of_scripts(scripts: Seq<ScriptView>, n: int) -> Seq<(Seq<char>, u16)>
    decreases n,
{
    if n <= 0 {
        Seq::empty()
    } else {
        assertions_of_scripts(scripts, n - 1) + match scripts[n - 1] {
            ScriptView::Inline(src) => assertions_of_source(src),
            ScriptView::File(_) => Seq::empty(),
        }
    }
}

// ---------------------------------------------------------------------------
// URLs

/// What `url::Url::parse` gives for `value`: the scheme and host of the URL, or
/// the text of its error.
pub uninterp spec fn url_parse(value: Seq<char>) -> Result<(Seq<char>, Option<Seq<char>>), Seq<char>>;

/// Calls `url::Url::parse` (as `reqwest::Url`) and reads the scheme and host of
/// the URL; what it gives depends on `value` alone and is named `url_parse`.
#[verifier::external_body]
pub(crate) fn parse_url(value: &str) -> (r: Result<(String, Option<String>), String>)
    ensures
        match r {
            Ok((scheme, host)) => url_parse(value@) == Ok::<
                (Seq<char>, Option<Seq<char>>),
                Seq<char>,
            >((scheme@, opt_seq_string(host))),
            Err(m) => url_parse(value@) == Err::<(Seq<char>, Option<Seq<char>>), Seq<char>>(m@),
        },
{
    match reqwest::Url::parse(value) {
        Ok(url) => Ok((url.scheme().to_string(), url.host_str().map(|h| h.to_string()))),
        Err(err) => Err(err.to_string()),
    }
}

/// The view of an optional string.
pub open spec fn opt_seq_string(o: Option<String>) -> Option<Seq<char>> {
    match o {
        Some(v) => Some(v@),
        None => None,
    }
}

/// Why a request URL is refused: it does not parse, or its scheme is neither
/// `http` nor `https`.
pub open spec fn url_error(url: Seq<char>) -> Option<(ErrorKind, Seq<char>)> {
    match url_parse(url) {
        Err(m) => Some((ErrorKind::BadRequest, "invalid request URL "@ + url + ": "@ + m)),
        Ok((scheme, _)) => if scheme == "http"@ || scheme == "https"@ {
            None
        } else {
            Some(
                (
                    ErrorKind::BadRequest,
                    "unsupported URL scheme "@ + scheme + "; only http and https are supported"@,
                ),
            )
        },
    }
}


// ---------------------------------------------------------------------------
// Requests and plans

/// The values drawn for the dynamic placeholders of a block, per place: the request
/// line, each header value, the body, and the URL.
pub struct BlockDraws {
    pub line: Seq<Seq<char>>,
    pub headers: Seq<Seq<Seq<char>>>,
    pub body: Seq<Seq<char>>,
    pub url: Seq<Seq<char>>,
}

/// The contents of a request of a plan.
pub struct RequestView {
    pub id: usize,
    pub name: Seq<char>,
    pub method: Seq<char>,
    pub url: Seq<char>,
    pub headers: Seq<(Seq<char>, Seq<char>)>,
    pub body: Option<Seq<char>>,
    pub pre_request_scripts: Seq<ScriptView>,
    pub response_handler_scripts: Seq<ScriptView>,
    pub assertions: Seq<(Seq<char>, u16)>,
    pub raw_url: Seq<char>,
    pub raw_headers: Seq<(Seq<char>, Seq<char>)>,
    pub raw_body: Option<Seq<char>>,
}

/// The first line from `i` on that is not part of a script and starts with a
/// request method.
pub open spec fn first_request_line(lines: Seq<Seq<char>>, masked: Set<int>, i: int) -> Option<int>
    decreases lines.len() - i,
{
    if i < 0 || i >= lines.len() {
        None
    } else if !masked.contains(i) && spec_is_request_line(trim(lines[i])) {
        Some(i)
    } else {
        first_request_line(lines, masked, i + 1)
    }
}

/// The error for a request line without a URL.
pub open spec fn missing_url(id: nat) -> (ErrorKind, Seq<char>) {
    (ErrorKind::BadRequest, "request "@ + dec_nat(id) + " is missing a URL"@)
}

/// The name of the default assertion of a request without response handlers.
pub open spec fn default_assertion() -> (Seq<char>, u16) {
    ("HTTP status is successful"@, 200u16)
}

/// The request of a block (none if the block has no request line) and the
/// warnings about it.
///
/// The request line is the first line outside scripts that starts with a method;
/// its first two words are the method (ASCII-uppercased; it is a method word, so
/// this is its uppercase) and the URL, taken after placeholders are resolved. Then
/// come headers up to the first blank line, then the body (without trailing blank
/// lines, joined with `\n`). Unresolved placeholders are kept; a URL without any
/// is checked.
pub open spec fn spec_parse_block(
    id: usize,
    block: BlockView,
    vars: Map<Seq<char>, Seq<char>>,
    d: BlockDraws,
) -> Result<(Option<RequestView>, Seq<Seq<char>>), (ErrorKind, Seq<char>)> {
    let lines = block.lines;
    let pre = collect_from(lines, '<', id as nat, 0);
    let post = collect_from(lines, '>', id as nat, 0);
    let masked = pre.masked.union(post.masked);
    let warnings = pre.warnings + post.warnings;
    match first_request_line(lines, masked, 0) {
        None => Ok((None, warnings)),
        Some(index) => {
            let raw_line = lines[index];
            match nth_token(raw_line, 1) {
                None => Err(missing_url(id as nat)),
                Some(raw_url) => {
                    let request_line = display_subst(raw_line, vars, d.line);
                    match nth_token(request_line, 1) {
                        None => Err(missing_url(id as nat)),
                        Some(url1) => {
                            let method = ascii_upper(nth_token(request_line, 0)->0);
                            let parts = parts_scan(
                                lines,
                                masked,
                                id as nat,
                                index + 1,
                                lines.len() as int,
                            );
                            let raw_headers = parts.headers;
                            let headers = Seq::new(
                                raw_headers.len(),
                                |k: int|
                                    (
                                        raw_headers[k].0,
                                        display_subst(raw_headers[k].1, vars, d.headers[k]),
                                    ),
                            );
                            let body_lines = drop_blank_tail(parts.body);
                            let raw_body = if body_lines.len() == 0 {
                                None
                            } else {
                                Some(crate::plan_paths::join_with(body_lines, seq!['\n']))
                            };
                            let body = match raw_body {
                                Some(b) => Some(display_subst(b, vars, d.body)),
                                None => None,
                            };
                            let found = assertions_of_scripts(
                                post.scripts,
                                post.scripts.len() as int,
                            );
                            let assertions = if found.len() == 0 && post.scripts.len() == 0 {
                                seq![default_assertion()]
                            } else {
                                found
                            };
                            let url = display_subst(url1, vars, d.url);
                            let err = if find(url, seq!['{', '{']) is None {
                                url_error(url)
                            } else {
                                None
                            };
                            match err {
                                Some(e) => Err(e),
                                None => Ok(
                                    (
                                        Some(
                                            RequestView {
                                                id: id,
                                                name: match block.name {
                                                    Some(n) => n,
                                                    None => method + seq![' '] + url,
                                                },
                                                method: method,
                                                url: url,
                                                headers: headers,
                                                body: body,
                                                pre_request_scripts: pre.scripts,
                                                response_handler_scripts: post.scripts,
                                                assertions: assertions,
                                                raw_url: raw_url,
                                                raw_headers: raw_headers,
                                                raw_body: raw_body,
                                            },
                                        ),
                                        warnings + parts.warnings,
                                    ),
                                ),
                            }
                        },
                    }
                },
            }
        },
    }
}

/// The requests and warnings of the first `n` blocks; requests are numbered from 1
/// in order, and the first error ends the reading.
pub open spec fn parse_blocks(
    blocks: Seq<BlockView>,
    n: int,
    vars: Map<Seq<char>, Seq<char>>,
    ds: Seq<BlockDraws>,
) -> Result<(Seq<RequestView>, Seq<Seq<char>>), (ErrorKind, Seq<char>)>
    decreases n,
{
    if n <= 0 {
        Ok((Seq::empty(), Seq::empty()))
    } else {
        match parse_blocks(blocks, n - 1, vars, ds) {
            Err(e) => Err(e),
            Ok((reqs, ws)) => match spec_parse_block(
                (reqs.len() + 1) as usize,
                blocks[n - 1],
                vars,
                ds[n - 1],
            ) {
                Err(e) => Err(e),
                Ok((r, w)) => Ok(
                    (
                        match r {
                            Some(req) => reqs.push(req),
                            None => reqs,
                        },
                        ws + w,
                    ),
                ),
            },
        }
    }
}

/// The contents of a parsed plan.
pub struct PlanView {
    pub name: Seq<char>,
    pub variables: Map<Seq<char>, Seq<char>>,
    pub requests: Seq<RequestView>,
    pub warnings: Seq<Seq<char>>,
}

/// The error for a plan without requests.
pub open spec fn no_requests() -> (ErrorKind, Seq<char>) {
    (ErrorKind::BadRequest, "test plan does not contain any executable requests"@)
}

/// A plan read from its text: the file's variables with the given ones over them,
/// the requests of its blocks (at least one), and the warnings; named by the given
/// name unless it is blank.
pub open spec fn spec_parse(
    name: Option<Seq<char>>,
    content: Seq<char>,
    given: Map<Seq<char>, Seq<char>>,
    ds: Seq<BlockDraws>,
) -> Result<PlanView, (ErrorKind, Seq<char>)> {
    let st = scan_plan(content);
    let vars = st.vars.union_prefer_right(given);
    match parse_blocks(st.blocks, st.blocks.len() as int, vars, ds) {
        Err(e) => Err(e),
        Ok((reqs, ws)) => if reqs.len() == 0 {
            Err(no_requests())
        } else {
            Ok(
                PlanView {
                    name: match name {
                        Some(n) => if trim(n).len() > 0 {
                            n
                        } else {
                            "Uploaded test plan"@
                        },
                        None => "Uploaded test plan"@,
                    },
                    variables: vars,
                    requests: reqs,
                    warnings: ws,
                },
            )
        },
    }
}


// ---------------------------------------------------------------------------
// Reading lines and words

/// The views of a list of character lists.
pub open spec fn lines_view(v: Seq<Vec<char>>) -> Seq<Seq<char>> {
    v.map_values(|x: Vec<char>| x@)
}

/// The lines of `s`.
pub fn split_lines(s: &Vec<char>) -> (r: Vec<Vec<char>>)
    ensures
        lines_view(r@) == spec_lines(s@),
{
    let mut out: Vec<Vec<char>> = Vec::new();
    let mut pos: usize = 0;
    assert(s@.skip(0) =~= s@);
    assert(lines_view(out@) =~= Seq::<Seq<char>>::empty());
    loop
        invariant
            pos <= s.len(),
            spec_lines(s@) == lines_view(out@) + spec_lines(s@.skip(pos as int)),
        decreases s.len() - pos,
    {
        let ghost rest = s@.skip(pos as int);
        if pos == s.len() {
            assert(rest.len() == 0);
            assert(lines_view(out@) + Seq::<Seq<char>>::empty() =~= lines_view(out@));
            return out;
        }
        proof {
            crate::text::lemma_find_char(rest, '\n');
        }
        match find_char(s, '\n', pos) {
            Some(k) => {
                let mut piece = slice_of(s, pos, k);
                if piece.len() > 0 && piece[piece.len() - 1] == '\r' {
                    piece.pop();
                }
                proof {
                    assert(rest[k - pos] == '\n');
                    if let Some(i) = find(rest, seq!['\n']) {
                        assert(i == k - pos);
                    } else {
                        assert(rest.contains('\n'));
                    }
                    assert(piece@ =~= strip_cr(rest.take(k - pos)));
                    assert(rest.skip(k - pos + 1) =~= s@.skip(k + 1));
                }
                let ghost before = lines_view(out@);
                out.push(piece);
                assert(lines_view(out@) =~= before.push(piece@));
                pos = k + 1;
            },
            None => {
                let piece = slice_of(s, pos, s.len());
                proof {
                    if let Some(i) = find(rest, seq!['\n']) {
                        assert(rest[i] == s@[pos + i]);
                    }
                    assert(piece@ =~= rest);
                }
                let ghost before = lines_view(out@);
                out.push(piece);
                assert(lines_view(out@) =~= before.push(piece@));
                assert(lines_view(out@) + Seq::<Seq<char>>::empty() =~= lines_view(out@));
                return out;
            },
        }
    }
}

proof fn lemma_token_len_exact(t: Seq<char>, k: int)
    requires
        0 <= k <= t.len(),
        forall|i: int| 0 <= i < k ==> !is_ws(#[trigger] t[i]),
        k == t.len() || is_ws(t[k]),
    ensures
        token_len(t) == k,
    decreases k,
{
    if k > 0 {
        assert forall|i: int| 0 <= i < k - 1 implies !is_ws(#[trigger] t.drop_first()[i]) by {
            assert(t.drop_first()[i] == t[i + 1]);
        }
        if k < t.len() {
            assert(t.drop_first()[k - 1] == t[k]);
        }
        lemma_token_len_exact(t.drop_first(), k - 1);
    }
}

/// The whitespace-separated words of `s`.
pub fn split_whitespace(s: &Vec<char>) -> (r: Vec<Vec<char>>)
    ensures
        lines_view(r@) == tokens(s@),
{
    let mut out: Vec<Vec<char>> = Vec::new();
    let mut pos: usize = 0;
    assert(s@.skip(0) =~= s@);
    assert(lines_view(out@) =~= Seq::<Seq<char>>::empty());
    loop
        invariant
            pos <= s.len(),
            tokens(s@) == lines_view(out@) + tokens(s@.skip(pos as int)),
        decreases s.len() - pos,
    {
        let ghost rest = s@.skip(pos as int);
        let mut a: usize = pos;
        while a < s.len() && is_ws_char(s[a])
            invariant
                pos <= a <= s.len(),
                forall|j: int| pos <= j < a ==> is_ws(#[trigger] s@[j]),
            decreases s.len() - a,
        {
            a = a + 1;
        }
        proof {
            assert forall|j: int| 0 <= j < a - pos implies is_ws(#[trigger] rest[j]) by {
                assert(rest[j] == s@[pos + j]);
            }
            crate::text::lemma_trim_start_skip(rest, a - pos);
            assert(rest.skip(a - pos) =~= s@.skip(a as int));
            if a < s.len() {
                assert(!is_ws(s@.skip(a as int)[0]));
            }
        }
        if a == s.len() {
            assert(trim_start(rest).len() == 0);
            assert(lines_view(out@) + Seq::<Seq<char>>::empty() =~= lines_view(out@));
            return out;
        }
        let ghost t = s@.skip(a as int);
        assert(trim_start(rest) == t);
        let mut b: usize = a;
        while b < s.len() && !is_ws_char(s[b])
            invariant
                a <= b <= s.len(),
                forall|j: int| a <= j < b ==> !is_ws(#[trigger] s@[j]),
            decreases s.len() - b,
        {
            b = b + 1;
        }
        proof {
            assert forall|j: int| 0 <= j < b - a implies !is_ws(#[trigger] t[j]) by {
                assert(t[j] == s@[a + j]);
            }
            if b < s.len() {
                assert(t[b - a] == s@[b as int]);
            }
            lemma_token_len_exact(t, b - a);
            assert(t.skip(b - a) =~= s@.skip(b as int));
        }
        let word = slice_of(s, a, b);
        assert(word@ =~= t.take(b - a));
        let ghost before = lines_view(out@);
        out.push(word);
        assert(lines_view(out@) =~= before.push(word@));
        pos = b;
    }
}

/// Whether `line` starts with a request method.
pub fn is_request_line(line: &Vec<char>) -> (r: bool)
    ensures
        r == spec_is_request_line(line@),
{
    let words = split_whitespace(line);
    if words.len() == 0 {
        return false;
    }
    let m = to_ascii_upper(&words[0]);
    assert(words@[0]@ == tokens(line@)[0]);
    proof {
        reveal_strlit("GET");
        reveal_strlit("POST");
        reveal_strlit("PUT");
        reveal_strlit("PATCH");
        reveal_strlit("DELETE");
        reveal_strlit("HEAD");
        reveal_strlit("OPTIONS");
    }
    same_chars(&m, &chars_of("GET")) || same_chars(&m, &chars_of("POST")) || same_chars(
        &m,
        &chars_of("PUT"),
    ) || same_chars(&m, &chars_of("PATCH")) || same_chars(&m, &chars_of("DELETE"))
        || same_chars(&m, &chars_of("HEAD")) || same_chars(&m, &chars_of("OPTIONS"))
}

/// `@name = value` on a trimmed line.
pub fn parse_variable(line: &Vec<char>) -> (r: Option<(Vec<char>, Vec<char>)>)
    ensures
        match spec_parse_variable(line@) {
            Some((n, v)) => r matches Some((a, b)) && a@ == n && b@ == v,
            None => r is None,
        },
{
    if line.len() == 0 || line[0] != '@' {
        return None;
    }
    let rest = slice_of(line, 1, line.len());
    assert(rest@ =~= line@.skip(1));
    proof {
        crate::text::lemma_find_char(rest@, '=');
    }
    match find_char(&rest, '=', 0) {
        None => {
            proof {
                if let Some(i) = find(rest@, seq!['=']) {
                    assert(rest@[i] == '=');
                }
            }
            None
        },
        Some(i) => {
            proof {
                if let Some(j) = find(rest@, seq!['=']) {
                    assert(j == i);
                } else {
                    assert(rest@[i as int] == '=');
                    assert(rest@.contains('='));
                }
            }
            let name = trimmed(&slice_of(&rest, 0, i));
            assert(rest@.take(i as int) =~= slice_of_view(rest@, 0, i as int));
            if name.len() == 0 {
                return None;
            }
            let value = trimmed(&slice_of(&rest, i + 1, rest.len()));
            assert(rest@.skip(i + 1) =~= slice_of_view(rest@, i + 1, rest@.len() as int));
            Some((name, value))
        },
    }
}

/// `s[a..b]`, as a spec of `slice_of`.
pub open spec fn slice_of_view(s: Seq<char>, a: int, b: int) -> Seq<char> {
    s.subrange(a, b)
}

/// `# @name X` or `// @name X` on a trimmed line.
pub fn parse_name_comment(line: &Vec<char>) -> (r: Option<Vec<char>>)
    ensures
        opt_seq(r) == spec_parse_name_comment(line@),
{
    let hash = chars_of("# @name");
    let slash = chars_of("// @name");
    proof {
        reveal_strlit("# @name");
        reveal_strlit("// @name");
    }
    let rest = if starts_with(line, &hash) {
        slice_of(line, 7, line.len())
    } else if starts_with(line, &slash) {
        slice_of(line, 8, line.len())
    } else {
        return None;
    };
    assert(starts_with_spec_skip(line@, rest@));
    let name = trimmed(&rest);
    if name.len() == 0 {
        return None;
    }
    Some(name)
}

/// Helper fact: `rest` is what follows the name marker of `line`.
pub open spec fn starts_with_spec_skip(line: Seq<char>, rest: Seq<char>) -> bool {
    (("# @name"@.is_prefix_of(line) && rest == line.skip(7)) || (!"# @name"@.is_prefix_of(line)
        && "// @name"@.is_prefix_of(line) && rest == line.skip(8)))
}

/// Whether some line of `lines` is not blank.
pub fn any_content(lines: &Vec<Vec<char>>) -> (r: bool)
    ensures
        r == has_content(lines_view(lines@)),
{
    let mut i: usize = 0;
    while i < lines.len()
        invariant
            i <= lines.len(),
            forall|j: int| 0 <= j < i ==> trim(#[trigger] lines_view(lines@)[j]).len() == 0,
        decreases lines.len() - i,
    {
        let t = trim_bounds(&lines[i]);
        assert(lines_view(lines@)[i as int] == lines@[i as int]@);
        if t.0 < t.1 {
            return true;
        }
        i = i + 1;
    }
    false
}


// ---------------------------------------------------------------------------
// Reading the blocks of a plan

/// A request block being read.
pub struct Block {
    pub name: Option<Vec<char>>,
    pub lines: Vec<Vec<char>>,
}

/// The contents of a block.
pub open spec fn block_view(b: Block) -> BlockView {
    BlockView { name: opt_seq(b.name), lines: lines_view(b.lines@) }
}

/// The contents of a list of blocks.
pub open spec fn blocks_view(v: Seq<Block>) -> Seq<BlockView> {
    v.map_values(|b: Block| block_view(b))
}

struct Scan {
    vars: Variables,
    blocks: Vec<Block>,
    current: Vec<Vec<char>>,
    pending: Option<Vec<char>>,
}

spec fn scan_view(st: Scan) -> ScanState {
    ScanState {
        vars: st.vars@,
        blocks: blocks_view(st.blocks@),
        current: lines_view(st.current@),
        pending: opt_seq(st.pending),
    }
}

fn close_current(st: Scan) -> (r: Scan)
    ensures
        scan_view(r) == close_block(scan_view(st)),
{
    let Scan { vars, mut blocks, current, pending } = st;
    if any_content(&current) {
        let ghost before = blocks@;
        let b = Block { name: pending, lines: current };
        let ghost bv = block_view(b);
        blocks.push(b);
        assert(blocks_view(blocks@) =~= blocks_view(before).push(bv));
        let r = Scan { vars, blocks, current: Vec::new(), pending: None };
        assert(lines_view(r.current@) =~= Seq::<Seq<char>>::empty());
        r
    } else {
        let r = Scan { vars, blocks, current: Vec::new(), pending };
        assert(lines_view(r.current@) =~= Seq::<Seq<char>>::empty());
        r
    }
}

/// The name after a `###` separator of the trimmed `line`.
fn heading_name_of(line: &Vec<char>) -> (r: Vec<char>)
    requires
        line.len() >= 3,
    ensures
        r@ == heading_name(line@),
{
    let rest = slice_of(line, 3, line.len());
    assert(rest@ =~= line@.skip(3));
    let t = trimmed(&rest);
    let u = crate::text::strip_leading(&t, '#');
    trimmed(&u)
}

fn scan_one(st: Scan, raw: &Vec<char>) -> (r: Scan)
    ensures
        scan_view(r) == scan_line(scan_view(st), raw@),
{
    let line = trimmed(raw);
    let marker = vec!['#', '#', '#'];
    proof {
        reveal_strlit("###");
        assert(marker@ =~= "###"@);
    }
    if starts_with(&line, &marker) {
        let closed = close_current(st);
        let n = heading_name_of(&line);
        let Scan { vars, blocks, current, pending: _ } = closed;
        return Scan {
            vars,
            blocks,
            current,
            pending: if n.len() > 0 {
                Some(n)
            } else {
                None
            },
        };
    }
    let Scan { mut vars, blocks, mut current, pending } = st;
    if !any_content(&current) {
        if let Some((name, value)) = parse_variable(&line) {
            vars.insert(string_of(&name), string_of(&value));
            let r = Scan { vars, blocks, current: Vec::new(), pending };
            assert(lines_view(r.current@) =~= Seq::<Seq<char>>::empty());
            return r;
        }
        if let Some(name) = parse_name_comment(&line) {
            let r = Scan { vars, blocks, current: Vec::new(), pending: Some(name) };
            assert(lines_view(r.current@) =~= Seq::<Seq<char>>::empty());
            return r;
        }
    }
    let ghost before = current@;
    let copy = slice_of(raw, 0, raw.len());
    assert(copy@ =~= raw@);
    current.push(copy);
    assert(lines_view(current@) =~= lines_view(before).push(raw@));
    Scan { vars, blocks, current, pending }
}

/// The variables and blocks of a plan's text.
pub fn scan_plan_text(content: &Vec<char>) -> (r: (Variables, Vec<Block>))
    ensures
        r.0@ == scan_plan(content@).vars,
        blocks_view(r.1@) == scan_plan(content@).blocks,
{
    let lines = split_lines(content);
    let ghost lv = spec_lines(content@);
    let mut st = Scan {
        vars: Variables::new(),
        blocks: Vec::new(),
        current: Vec::new(),
        pending: None,
    };
    assert(blocks_view(st.blocks@) =~= Seq::<BlockView>::empty());
    assert(lines_view(st.current@) =~= Seq::<Seq<char>>::empty());
    let mut i: usize = 0;
    while i < lines.len()
        invariant
            i <= lines.len(),
            lv == lines_view(lines@),
            scan_view(st) == scan_lines(lv, i as int),
        decreases lines.len() - i,
    {
        st = scan_one(st, &lines[i]);
        assert(lv[i as int] == lines@[i as int]@);
        i = i + 1;
    }
    let closed = close_current(st);
    (closed.vars, closed.blocks)
}

// ---------------------------------------------------------------------------
// Reading scripts

proof fn lemma_collect_masked(lines: Seq<Seq<char>>, marker: char, id: nat, i: int)
    ensures
        forall|x: int|
            #[trigger] collect_from(lines, marker, id, i).masked.contains(x) ==> i <= x < lines.len(),
    decreases lines.len() + 1 - i,
{
    if i < 0 || i >= lines.len() {
        assert(collect_from(lines, marker, id, i).masked =~= Set::<int>::empty());
    } else {
        let t = trim(lines[i]);
        if !(t.len() > 0 && t[0] == marker) {
            lemma_collect_masked(lines, marker, id, i + 1);
            assert(collect_from(lines, marker, id, i) == collect_from(lines, marker, id, i + 1));
        } else {
            let rest = trim(t.skip(1));
            if seq!['{', '%'].is_prefix_of(rest) {
                lemma_scan_script(lines, rest.skip(2), i);
                let k = scan_script(lines, rest.skip(2), i).1;
                lemma_collect_masked(lines, marker, id, k + 1);
                let after = collect_from(lines, marker, id, k + 1);
                assert(collect_from(lines, marker, id, i).masked == Set::new(
                    |x: int| i <= x <= k && x < lines.len(),
                ).union(after.masked));
                assert forall|x: int| #[trigger]
                    collect_from(lines, marker, id, i).masked.contains(x) implies i <= x
                    < lines.len() by {
                    if after.masked.contains(x) {
                    }
                }
            } else {
                lemma_collect_masked(lines, marker, id, i + 1);
                let after = collect_from(lines, marker, id, i + 1);
                assert(collect_from(lines, marker, id, i).masked == after.masked.insert(i));
            }
        }
    }
}

/// The source of an inline script that starts at line `j0` with the text `first`:
/// up to the first `%}`, lines joined with `\n`; with the last line index reached
/// and whether the block ended first.
fn read_script(lines: &Vec<Vec<char>>, first: Vec<char>, j0: usize) -> (r: (Vec<char>, usize, bool))
    requires
        j0 < lines.len(),
    ensures
        (r.0@, r.1 as int, r.2) == scan_script(lines_view(lines@), first@, j0 as int),
        r.1 <= lines.len(),
{
    let ghost lv = lines_view(lines@);
    let close = vec!['%', '}'];
    let mut source: Vec<char> = Vec::new();
    let mut current = first;
    let mut j: usize = j0;
    proof {
        lemma_scan_script(lv, first@, j0 as int);
    }
    assert(source@ + scan_script(lv, current@, j as int).0 =~= scan_script(lv, current@, j as int).0);
    loop
        invariant
            j0 <= j < lines.len(),
            lv == lines_view(lines@),
            close@ == seq!['%', '}'],
            scan_script(lv, first@, j0 as int) == (
                source@ + scan_script(lv, current@, j as int).0,
                scan_script(lv, current@, j as int).1,
                scan_script(lv, current@, j as int).2,
            ),
        decreases lines.len() - j,
    {
        proof {
            lemma_scan_script(lv, current@, j as int);
        }
        match find_in(&current, &close, 0) {
            Some(end) => {
                proof {
                    lemma_find_from(current@, close@, 0);
                }
                let piece = slice_of(&current, 0, end);
                assert(piece@ =~= current@.take(end as int));
                append(&mut source, &piece);
                return (source, j, false);
            },
            None => {
                append(&mut source, &current);
                if j + 1 >= lines.len() {
                    assert(source@ =~= source@);
                    return (source, j + 1, true);
                }
                let ghost cur = current@;
                let ghost src = source@;
                source.push('\n');
                j = j + 1;
                current = slice_of(&lines[j], 0, lines[j].len());
                assert(current@ =~= lv[j as int]);
                assert(source@ + scan_script(lv, current@, j as int).0 =~= src + seq!['\n']
                    + scan_script(lv, current@, j as int).0);
            },
        }
    }
}

/// The warning for a script block of request `id` that runs past its block.
fn unterminated_message(id: usize) -> (r: String)
    ensures
        r@ == unterminated_warning(id as nat),
{
    let mut out = chars_of("Request ");
    push_dec_u64(&mut out, id as u64);
    append(&mut out, &chars_of(" has an unterminated script block"));
    string_of(&out)
}

/// The scripts of a block marked by `marker`, which lines they occupy, and the
/// warnings about them.
pub fn collect_scripts(lines: &Vec<Vec<char>>, marker: char, id: usize) -> (r: (
    Vec<TestPlanScript>,
    Vec<bool>,
    Vec<String>,
))
    ensures
        scripts_view(r.0@) == collect_from(lines_view(lines@), marker, id as nat, 0).scripts,
        r.1.len() == lines.len(),
        forall|x: int|
            0 <= x < lines.len() ==> r.1@[x] == collect_from(
                lines_view(lines@),
                marker,
                id as nat,
                0,
            ).masked.contains(x),
        views(r.2@) == collect_from(lines_view(lines@), marker, id as nat, 0).warnings,
{
    let ghost lv = lines_view(lines@);
    let ghost full = collect_from(lv, marker, id as nat, 0);
    let mut scripts: Vec<TestPlanScript> = Vec::new();
    let mut mask: Vec<bool> = Vec::new();
    let mut warnings: Vec<String> = Vec::new();
    let mut n: usize = 0;
    while n < lines.len()
        invariant
            n <= lines.len(),
            mask.len() == n,
            forall|x: int| 0 <= x < n ==> !mask@[x],
        decreases lines.len() - n,
    {
        mask.push(false);
        n = n + 1;
    }
    let mut i: usize = 0;
    proof {
        lemma_collect_masked(lv, marker, id as nat, 0);
    }
    assert(scripts_view(scripts@) + full.scripts =~= full.scripts);
    assert(views(warnings@) + full.warnings =~= full.warnings);
    while i < lines.len()
        invariant
            i <= lines.len(),
            lv == lines_view(lines@),
            full == collect_from(lv, marker, id as nat, 0),
            mask.len() == lines.len(),
            full.scripts == scripts_view(scripts@) + collect_from(lv, marker, id as nat, i as int).scripts,
            full.warnings == views(warnings@) + collect_from(lv, marker, id as nat, i as int).warnings,
            forall|x: int| 0 <= x < i ==> mask@[x] == full.masked.contains(x),
            forall|x: int| i <= x < lines.len() ==> !mask@[x],
            forall|x: int|
                i <= x ==> (full.masked.contains(x) <==> collect_from(
                    lv,
                    marker,
                    id as nat,
                    i as int,
                ).masked.contains(x)),
        decreases lines.len() - i,
    {
        let ghost here = collect_from(lv, marker, id as nat, i as int);
        assert(lv[i as int] == lines@[i as int]@);
        let t = trimmed(&lines[i]);
        if !(t.len() > 0 && t[0] == marker) {
            proof {
                lemma_collect_masked(lv, marker, id as nat, i + 1);
            }
            i = i + 1;
            continue;
        }
        let after_marker = slice_of(&t, 1, t.len());
        assert(after_marker@ =~= t@.skip(1));
        let rest = trimmed(&after_marker);
        if rest.len() >= 2 && rest[0] == '{' && rest[1] == '%' {
            assert(seq!['{', '%'].is_prefix_of(rest@));
            let first = slice_of(&rest, 2, rest.len());
            assert(first@ =~= rest@.skip(2));
            let (src, k, unterminated) = read_script(lines, first, i);
            proof {
                lemma_scan_script(lv, rest@.skip(2), i as int);
                lemma_collect_masked(lv, marker, id as nat, k + 1);
            }
            let ghost after = collect_from(lv, marker, id as nat, k + 1);
            let ghost covered = Set::new(|x: int| i <= x <= k && x < lines.len());
            assert(here.masked == covered.union(after.masked));
            let source = trimmed(&src);
            let ghost before_scripts = scripts@;
            scripts.push(TestPlanScript::Inline { source: string_of(&source) });
            assert(scripts_view(scripts@) =~= scripts_view(before_scripts).push(
                ScriptView::Inline(trim(src@)),
            ));
            assert(full.scripts =~= scripts_view(scripts@) + after.scripts);
            if unterminated {
                let ghost before_w = warnings@;
                warnings.push(unterminated_message(id));
                assert(views(warnings@) =~= views(before_w).push(unterminated_warning(id as nat)));
                assert(full.warnings =~= views(warnings@) + after.warnings);
            } else {
                assert(full.warnings =~= views(warnings@) + after.warnings);
            }
            let mut x: usize = i;
            while x <= k && x < lines.len()
                invariant
                    i <= x <= k + 1,
                    x <= lines.len(),
                    k <= lines.len(),
                    mask.len() == lines.len(),
                    forall|y: int| 0 <= y < i ==> mask@[y] == full.masked.contains(y),
                    forall|y: int| i <= y < x ==> mask@[y],
                    forall|y: int| x <= y < lines.len() ==> !mask@[y],
                decreases lines.len() - x,
            {
                mask.set(x, true);
                x = x + 1;
            }
            i = if k >= lines.len() {
                lines.len()
            } else {
                k + 1
            };
            assert(collect_from(lv, marker, id as nat, i as int) == after);
        } else {
            proof {
                lemma_collect_masked(lv, marker, id as nat, i + 1);
            }
            let ghost after = collect_from(lv, marker, id as nat, i + 1);
            if rest.len() > 0 {
                let ghost before_scripts = scripts@;
                scripts.push(TestPlanScript::File { path: string_of(&rest) });
                assert(scripts_view(scripts@) =~= scripts_view(before_scripts).push(
                    ScriptView::File(rest@),
                ));
            }
            assert(full.scripts =~= scripts_view(scripts@) + after.scripts);
            mask.set(i, true);
            i = i + 1;
        }
    }
    (scripts, mask, warnings)
}

// ---------------------------------------------------------------------------
// Reading status assertions

proof fn lemma_digit_run_exact(t: Seq<char>, k: int)
    requires
        0 <= k <= t.len(),
        forall|i: int| 0 <= i < k ==> crate::text::is_digit(#[trigger] t[i]),
        k == t.len() || !crate::text::is_digit(t[k]),
    ensures
        digit_run(t) == k,
    decreases k,
{
    if k > 0 {
        assert forall|i: int| 0 <= i < k - 1 implies crate::text::is_digit(
            #[trigger] t.drop_first()[i],
        ) by {
            assert(t.drop_first()[i] == t[i + 1]);
        }
        if k < t.len() {
            assert(t.drop_first()[k - 1] == t[k]);
        }
        lemma_digit_run_exact(t.drop_first(), k - 1);
    }
}

/// The status number after the first `pattern` in `line`.
fn status_after_chars(line: &Vec<char>, pattern: &Vec<char>) -> (r: Option<u16>)
    ensures
        r == status_after(line@, pattern@),
{
    let i = match find_in(line, pattern, 0) {
        None => return None,
        Some(i) => i,
    };
    proof {
        lemma_find_from(line@, pattern@, 0);
        assert(occurs_at(line@, pattern@, i as int));
        assert(i + pattern@.len() <= line@.len());
    }
    assert(i + pattern.len() <= line.len());
    let rest = slice_of(line, i + pattern.len(), line.len());
    assert(rest@ =~= line@.skip(i + pattern.len()));
    let (a, _) = trim_bounds(&rest);
    let tail = slice_of(&rest, a, rest.len());
    assert(tail@ =~= trim_start(rest@));
    let mut d: usize = 0;
    while d < tail.len() && '0' <= tail[d] && tail[d] <= '9'
        invariant
            d <= tail.len(),
            forall|j: int| 0 <= j < d ==> crate::text::is_digit(#[trigger] tail@[j]),
        decreases tail.len() - d,
    {
        d = d + 1;
    }
    proof {
        lemma_digit_run_exact(tail@, d as int);
    }
    let digits = slice_of(&tail, 0, d);
    assert(digits@ =~= tail@.take(d as int));
    match parse_u64_chars(&digits) {
        Some(v) => if v <= 65535 {
            Some(v as u16)
        } else {
            None
        },
        None => None,
    }
}

/// The status that a handler line expects.
pub fn parse_status_assertion(line: &Vec<char>) -> (r: Option<u16>)
    ensures
        r == spec_parse_status_assertion(line@),
{
    let strict = chars_of("response.status ===");
    match status_after_chars(line, &strict) {
        Some(v) => Some(v),
        None => status_after_chars(line, &chars_of("response.status ==")),
    }
}

/// The text of the quoted string that `s` continues, opened by `q`.
fn quoted_chars(s: &Vec<char>, q: char) -> (r: Option<Vec<char>>)
    ensures
        opt_seq(r) == quoted_text(s@, q, Seq::empty(), false),
{
    let mut acc: Vec<char> = Vec::new();
    let mut escaped = false;
    let mut j: usize = 0;
    assert(s@.skip(0) =~= s@);
    while j < s.len()
        invariant
            j <= s.len(),
            quoted_text(s@, q, Seq::empty(), false) == quoted_text(s@.skip(j as int), q, acc@, escaped),
        decreases s.len() - j,
    {
        let c = s[j];
        assert(s@.skip(j as int)[0] == c);
        assert(s@.skip(j as int).drop_first() =~= s@.skip(j + 1));
        if escaped {
            acc.push(c);
            escaped = false;
        } else if c == '\\' {
            escaped = true;
        } else if c == q {
            return Some(acc);
        } else {
            acc.push(c);
        }
        j = j + 1;
    }
    None
}

/// The name in `client.test("name", ...)` on `line`.
pub fn parse_client_test_name(line: &Vec<char>) -> (r: Option<Vec<char>>)
    ensures
        opt_seq(r) == spec_parse_client_test_name(line@),
{
    let call = chars_of("client.test(");
    proof {
        reveal_strlit("client.test(");
    }
    let i = match find_in(line, &call, 0) {
        None => return None,
        Some(i) => i,
    };
    proof {
        lemma_find_from(line@, call@, 0);
        assert(occurs_at(line@, call@, i as int));
        assert(i + call@.len() <= line@.len());
    }
    assert(i + 12 <= line.len());
    let rest = slice_of(line, i + 12, line.len());
    assert(rest@ =~= line@.skip(i + 12));
    let (a, _) = trim_bounds(&rest);
    let tail = slice_of(&rest, a, rest.len());
    assert(tail@ =~= trim_start(rest@));
    if tail.len() == 0 {
        return None;
    }
    let q = tail[0];
    if q != '"' && q != '\'' && q != '`' {
        return None;
    }
    let inner = slice_of(&tail, 1, tail.len());
    assert(inner@ =~= tail@.skip(1));
    quoted_chars(&inner, q)
}

/// The status assertion of a handler line.
fn assertion_of(line: &Vec<char>) -> (r: Option<HttpAssertion>)
    ensures
        match assertion_of_line(line@) {
            Some(a) => r matches Some(x) && assertion_pair(x) == a,
            None => r is None,
        },
{
    let expected = match parse_status_assertion(line) {
        None => return None,
        Some(e) => e,
    };
    let name = match parse_client_test_name(line) {
        Some(n) => n,
        None => {
            let mut out = chars_of("Status is ");
            push_dec_u64(&mut out, expected as u64);
            out
        },
    };
    Some(HttpAssertion { name: string_of(&name), kind: AssertionKind::StatusEquals { expected } })
}

/// The assertions of an inline response handler: those of each line, then that of
/// the whole source.
pub fn source_assertions(src: &Vec<char>) -> (r: Vec<HttpAssertion>)
    ensures
        assertions_view(r@) == assertions_of_source(src@),
{
    let lines = split_lines(src);
    let ghost ls = spec_lines(src@);
    let mut out: Vec<HttpAssertion> = Vec::new();
    let mut i: usize = 0;
    assert(assertions_view(out@) =~= assertions_of_lines(ls, 0));
    while i < lines.len()
        invariant
            i <= lines.len(),
            ls == lines_view(lines@),
            assertions_view(out@) == assertions_of_lines(ls, i as int),
        decreases lines.len() - i,
    {
        let t = trimmed(&lines[i]);
        assert(ls[i as int] == lines@[i as int]@);
        let ghost before = out@;
        match assertion_of(&t) {
            Some(a) => {
                out.push(a);
                assert(assertions_view(out@) =~= assertions_view(before) + assertions_of_line(
                    t@,
                ));
            },
            None => {
                assert(assertions_view(out@) =~= assertions_view(before) + assertions_of_line(
                    t@,
                ));
            },
        }
        i = i + 1;
    }
    let whole = trimmed(src);
    let ghost before = out@;
    match assertion_of(&whole) {
        Some(a) => {
            out.push(a);
        },
        None => {},
    }
    assert(assertions_view(out@) =~= assertions_view(before) + assertions_of_line(whole@));
    out
}

/// The assertions of a request's response handlers.
fn handler_assertions(scripts: &Vec<TestPlanScript>) -> (r: Vec<HttpAssertion>)
    ensures
        assertions_view(r@) == assertions_of_scripts(
            scripts_view(scripts@),
            scripts@.len() as int,
        ),
{
    let ghost sv = scripts_view(scripts@);
    let mut out: Vec<HttpAssertion> = Vec::new();
    let mut i: usize = 0;
    assert(assertions_view(out@) =~= Seq::<(Seq<char>, u16)>::empty());
    while i < scripts.len()
        invariant
            i <= scripts.len(),
            sv == scripts_view(scripts@),
            assertions_view(out@) == assertions_of_scripts(sv, i as int),
        decreases scripts.len() - i,
    {
        match &scripts[i] {
            TestPlanScript::Inline { source } => {
                let mut found = source_assertions(&chars_of(source.as_str()));
                let ghost before = out@;
                let ghost fv = found@;
                out.append(&mut found);
                assert(assertions_view(out@) =~= assertions_view(before) + assertions_view(fv));
            },
            TestPlanScript::File { .. } => {
                assert(assertions_of_scripts(sv, i + 1) =~= assertions_of_scripts(sv, i as int));
            },
        }
        i = i + 1;
    }
    out
}

// ---------------------------------------------------------------------------
// Reading headers and bodies

struct Parts {
    in_body: bool,
    headers: Vec<HttpHeader>,
    body: Vec<Vec<char>>,
    warnings: Vec<String>,
}

spec fn parts_view(p: Parts) -> PartsState {
    PartsState {
        in_body: p.in_body,
        headers: headers_view(p.headers@),
        body: lines_view(p.body@),
        warnings: views(p.warnings@),
    }
}

/// The warning for a header line of request `id` without a colon.
fn malformed_header_message(id: usize, line: &Vec<char>) -> (r: String)
    ensures
        r@ == malformed_header_warning(id as nat, line@),
{
    let mut out = chars_of("Request ");
    push_dec_u64(&mut out, id as u64);
    append(&mut out, &chars_of(" ignored malformed header: "));
    append(&mut out, line);
    string_of(&out)
}

fn parts_line(st: Parts, raw: &Vec<char>, masked: bool, id: usize) -> (r: Parts)
    ensures
        parts_view(r) == parts_step(parts_view(st), raw@, masked, id as nat),
{
    let t = trimmed(raw);
    if masked || (t.len() > 0 && (t[0] == '>' || t[0] == '<')) {
        return st;
    }
    let Parts { in_body, mut headers, mut body, mut warnings } = st;
    if !in_body && t.len() == 0 {
        return Parts { in_body: true, headers, body, warnings };
    }
    if !in_body {
        let slashes = vec!['/', '/'];
        proof {
            reveal_strlit("//");
            assert(slashes@ =~= "//"@);
        }
        if (t.len() > 0 && t[0] == '#') || starts_with(&t, &slashes) {
            return Parts { in_body, headers, body, warnings };
        }
        proof {
            crate::text::lemma_find_char(raw@, ':');
        }
        match find_char(raw, ':', 0) {
            None => {
                proof {
                    if let Some(i) = find(raw@, seq![':']) {
                        assert(raw@[i] == ':');
                    }
                }
                let ghost before = warnings@;
                warnings.push(malformed_header_message(id, &t));
                assert(views(warnings@) =~= views(before).push(
                    malformed_header_warning(id as nat, t@),
                ));
                Parts { in_body, headers, body, warnings }
            },
            Some(c) => {
                proof {
                    if let Some(i) = find(raw@, seq![':']) {
                        assert(i == c);
                    } else {
                        assert(raw@[c as int] == ':');
                        assert(raw@.contains(':'));
                    }
                }
                let name = trimmed(&slice_of(raw, 0, c));
                assert(raw@.take(c as int) =~= raw@.subrange(0, c as int));
                let value = trimmed(&slice_of(raw, c + 1, raw.len()));
                assert(raw@.skip(c + 1) =~= raw@.subrange(c + 1, raw@.len() as int));
                let ghost before = headers@;
                headers.push(HttpHeader { name: string_of(&name), value: string_of(&value) });
                assert(headers_view(headers@) =~= headers_view(before).push(
                    (trim(raw@.take(c as int)), trim(raw@.skip(c + 1))),
                ));
                Parts { in_body, headers, body, warnings }
            },
        }
    } else {
        let ghost before = body@;
        let copy = slice_of(raw, 0, raw.len());
        assert(copy@ =~= raw@);
        body.push(copy);
        assert(lines_view(body@) =~= lines_view(before).push(raw@));
        Parts { in_body, headers, body, warnings }
    }
}

/// Reads the lines after the request line at `index`.
fn read_parts(lines: &Vec<Vec<char>>, mask: &Vec<bool>, index: usize, id: usize, Ghost(masked): Ghost<Set<int>>) -> (r: Parts)
    requires
        index < lines.len(),
        mask.len() == lines.len(),
        forall|x: int| 0 <= x < lines.len() ==> mask@[x] == masked.contains(x),
    ensures
        parts_view(r) == parts_scan(
            lines_view(lines@),
            masked,
            id as nat,
            index + 1,
            lines.len() as int,
        ),
{
    let ghost lv = lines_view(lines@);
    let mut st = Parts {
        in_body: false,
        headers: Vec::new(),
        body: Vec::new(),
        warnings: Vec::new(),
    };
    assert(headers_view(st.headers@) =~= Seq::<(Seq<char>, Seq<char>)>::empty());
    assert(lines_view(st.body@) =~= Seq::<Seq<char>>::empty());
    assert(views(st.warnings@) =~= Seq::<Seq<char>>::empty());
    assert(parts_view(st) == parts_scan(lv, masked, id as nat, index + 1, index + 1));
    let mut i: usize = index + 1;
    while i < lines.len()
        invariant
            index + 1 <= i <= lines.len(),
            lv == lines_view(lines@),
            mask.len() == lines.len(),
            forall|x: int| 0 <= x < lines.len() ==> mask@[x] == masked.contains(x),
            parts_view(st) == parts_scan(lv, masked, id as nat, index + 1, i as int),
        decreases lines.len() - i,
    {
        assert(lv[i as int] == lines@[i as int]@);
        st = parts_line(st, &lines[i], mask[i], id);
        i = i + 1;
    }
    st
}

/// Drops the trailing blank lines of `body`.
fn drop_blank_lines(body: &mut Vec<Vec<char>>)
    ensures
        lines_view(final(body)@) == drop_blank_tail(lines_view(old(body)@)),
{
    loop
        invariant
            drop_blank_tail(lines_view(old(body)@)) == drop_blank_tail(lines_view(body@)),
        decreases body.len(),
    {
        if body.len() == 0 {
            return;
        }
        let (a, b) = trim_bounds(&body[body.len() - 1]);
        assert(lines_view(body@).last() == body@[body.len() - 1]@);
        if a < b {
            return;
        }
        let ghost before = body@;
        body.pop();
        assert(lines_view(body@) =~= lines_view(before).drop_last());
    }
}

/// The headers with their values resolved, and the values drawn for each.
fn resolve_headers(raw: &Vec<HttpHeader>, vars: &Variables) -> (r: (
    Vec<HttpHeader>,
    Ghost<Seq<Seq<Seq<char>>>>,
))
    ensures
        r.1@.len() == raw.len(),
        headers_view(r.0@) == Seq::new(
            raw.len() as nat,
            |k: int|
                (
                    headers_view(raw@)[k].0,
                    display_subst(headers_view(raw@)[k].1, vars@, r.1@[k]),
                ),
        ),
{
    let ghost rv = headers_view(raw@);
    let mut out: Vec<HttpHeader> = Vec::new();
    let ghost mut drawn: Seq<Seq<Seq<char>>> = Seq::empty();
    let mut k: usize = 0;
    while k < raw.len()
        invariant
            k <= raw.len(),
            rv == headers_view(raw@),
            drawn.len() == k,
            headers_view(out@) =~= Seq::new(
                k as nat,
                |j: int| (rv[j].0, display_subst(rv[j].1, vars@, drawn[j])),
            ),
        decreases raw.len() - k,
    {
        let h = &raw[k];
        assert(rv[k as int] == (h.name@, h.value@));
        let (value, Ghost(d)) = substitute_allow_unresolved(&chars_of(h.value.as_str()), vars);
        let ghost before = out@;
        out.push(HttpHeader { name: h.name.clone(), value: string_of(&value) });
        proof {
            drawn = drawn.push(d);
        }
        assert(headers_view(out@) =~= headers_view(before).push(
            (rv[k as int].0, display_subst(rv[k as int].1, vars@, d)),
        ));
        k = k + 1;
    }
    (out, Ghost(drawn))
}

/// Checks a request URL: it must parse, and its scheme must be `http` or `https`.
pub fn validate_url(value: &str) -> (r: AppResult<()>)
    ensures
        match url_error(value@) {
            None => r is Ok,
            Some(e) => r matches Err(x) && x@ == e,
        },
{
    match parse_url(value) {
        Err(m) => {
            let mut out = chars_of("invalid request URL ");
            append(&mut out, &chars_of(value));
            append(&mut out, &chars_of(": "));
            append(&mut out, &chars_of(m.as_str()));
            Err(AppError::BadRequest(string_of(&out)))
        },
        Ok((scheme, _)) => {
            let sc = chars_of(scheme.as_str());
            proof {
                reveal_strlit("http");
                reveal_strlit("https");
            }
            if same_chars(&sc, &chars_of("http")) || same_chars(&sc, &chars_of("https")) {
                Ok(())
            } else {
                let mut out = chars_of("unsupported URL scheme ");
                append(&mut out, &sc);
                append(&mut out, &chars_of("; only http and https are supported"));
                Err(AppError::BadRequest(string_of(&out)))
            }
        },
    }
}

// ---------------------------------------------------------------------------
// Reading a request block

/// The first line outside scripts that starts with a request method.
fn find_request_line(lines: &Vec<Vec<char>>, mask: &Vec<bool>, Ghost(masked): Ghost<Set<int>>) -> (r: Option<usize>)
    requires
        mask.len() == lines.len(),
        forall|x: int| 0 <= x < lines.len() ==> mask@[x] == masked.contains(x),
    ensures
        r matches Some(i) ==> i < lines.len() && first_request_line(lines_view(lines@), masked, 0)
            == Some(i as int),
        r is None ==> first_request_line(lines_view(lines@), masked, 0) is None,
{
    let ghost lv = lines_view(lines@);
    let mut i: usize = 0;
    while i < lines.len()
        invariant
            i <= lines.len(),
            lv == lines_view(lines@),
            mask.len() == lines.len(),
            forall|x: int| 0 <= x < lines.len() ==> mask@[x] == masked.contains(x),
            first_request_line(lv, masked, 0) == first_request_line(lv, masked, i as int),
        decreases lines.len() - i,
    {
        assert(lv[i as int] == lines@[i as int]@);
        if !mask[i] && is_request_line(&trimmed(&lines[i])) {
            return Some(i);
        }
        i = i + 1;
    }
    None
}

/// The error for request `id` without a URL.
fn missing_url_error(id: usize) -> (e: AppError)
    ensures
        e@ == missing_url(id as nat),
{
    let mut out = chars_of("request ");
    push_dec_u64(&mut out, id as u64);
    append(&mut out, &chars_of(" is missing a URL"));
    AppError::BadRequest(string_of(&out))
}

/// No values drawn.
spec fn no_draws() -> BlockDraws {
    BlockDraws { line: Seq::empty(), headers: Seq::empty(), body: Seq::empty(), url: Seq::empty() }
}

/// The request of a block, numbered `id`, and the warnings about it; with the
/// values drawn for its dynamic placeholders.
pub fn parse_block(id: usize, block: &Block, vars: &Variables) -> (r: (
    AppResult<(Option<TestPlanRequest>, Vec<String>)>,
    Ghost<BlockDraws>,
))
    ensures
        match spec_parse_block(id, block_view(*block), vars@, r.1@) {
            Ok((req, ws)) => r.0 matches Ok((x, w)) && opt_request_view(x) == req && views(w@)
                == ws,
            Err(e) => r.0 matches Err(x) && x@ == e,
        },
{
    let lines = &block.lines;
    let ghost lv = lines_view(lines@);
    let (pre_scripts, pre_mask, mut warnings) = collect_scripts(lines, '<', id);
    let (post_scripts, post_mask, mut post_w) = collect_scripts(lines, '>', id);
    let ghost pre = collect_from(lv, '<', id as nat, 0);
    let ghost post = collect_from(lv, '>', id as nat, 0);
    let ghost masked = pre.masked.union(post.masked);
    let mut mask: Vec<bool> = Vec::new();
    let mut n: usize = 0;
    while n < lines.len()
        invariant
            n <= lines.len(),
            pre_mask.len() == lines.len(),
            post_mask.len() == lines.len(),
            mask.len() == n,
            forall|x: int| 0 <= x < n ==> mask@[x] == (pre_mask@[x] || post_mask@[x]),
        decreases lines.len() - n,
    {
        mask.push(pre_mask[n] || post_mask[n]);
        n = n + 1;
    }
    let ghost pre_wv = views(warnings@);
    let ghost post_wv = views(post_w@);
    warnings.append(&mut post_w);
    assert(views(warnings@) =~= pre_wv + post_wv);
    let index = match find_request_line(lines, &mask, Ghost(masked)) {
        None => return (Ok((None, warnings)), Ghost(no_draws())),
        Some(i) => i,
    };
    let raw_line = &lines[index];
    assert(lv[index as int] == raw_line@);
    let raw_words = split_whitespace(raw_line);
    if raw_words.len() < 2 {
        return (Err(missing_url_error(id)), Ghost(no_draws()));
    }
    assert(raw_words@[1]@ == tokens(raw_line@)[1]);
    let raw_url = string_of(&raw_words[1]);
    let (request_line, Ghost(dl)) = substitute_allow_unresolved(raw_line, vars);
    let words = split_whitespace(&request_line);
    if words.len() < 2 {
        return (
            Err(missing_url_error(id)),
            Ghost(BlockDraws { line: dl, headers: Seq::empty(), body: Seq::empty(), url: Seq::empty() }),
        );
    }
    assert(words@[0]@ == tokens(request_line@)[0]);
    assert(words@[1]@ == tokens(request_line@)[1]);
    let method = to_ascii_upper(&words[0]);
    let parts = read_parts(lines, &mask, index, id, Ghost(masked));
    let Parts { in_body: _, headers: raw_headers, body: mut body_lines, warnings: mut part_w } =
        parts;
    let (headers, Ghost(dh)) = resolve_headers(&raw_headers, vars);
    drop_blank_lines(&mut body_lines);
    let raw_body: Option<Vec<char>> = if body_lines.len() == 0 {
        None
    } else {
        let joined = join_parts(&body_lines, '\n');
        assert(body_lines@.map_values(|v: Vec<char>| v@) =~= lines_view(body_lines@));
        Some(joined)
    };
    let (body, Ghost(db)) = match &raw_body {
        Some(b) => {
            let (v, Ghost(d)) = substitute_allow_unresolved(b, vars);
            (Some(string_of(&v)), Ghost(d))
        },
        None => (None, Ghost(Seq::empty())),
    };
    let mut assertions = handler_assertions(&post_scripts);
    if assertions.len() == 0 && post_scripts.len() == 0 {
        proof {
            reveal_strlit("HTTP status is successful");
        }
        assertions.push(
            HttpAssertion {
                name: string_of(&chars_of("HTTP status is successful")),
                kind: AssertionKind::StatusEquals { expected: 200 },
            },
        );
        assert(assertions_view(assertions@) =~= seq![default_assertion()]);
    }
    let (url, Ghost(du)) = substitute_allow_unresolved(&words[1], vars);
    let draws = Ghost(BlockDraws { line: dl, headers: dh, body: db, url: du });
    let url_text = string_of(&url);
    let open = vec!['{', '{'];
    if find_in(&url, &open, 0).is_none() {
        if let Err(e) = validate_url(url_text.as_str()) {
            return (Err(e), draws);
        }
    }
    let name = match &block.name {
        Some(n) => string_of(n),
        None => {
            let mut t = method.clone();
            t.push(' ');
            append(&mut t, &url);
            string_of(&t)
        },
    };
    let ghost ws = views(warnings@);
    let ghost pw = views(part_w@);
    warnings.append(&mut part_w);
    assert(views(warnings@) =~= ws + pw);
    let request = TestPlanRequest {
        id,
        name,
        method: string_of(&method),
        url: url_text,
        headers,
        body,
        pre_request_scripts: pre_scripts,
        response_handler_scripts: post_scripts,
        assertions,
        raw_url,
        raw_headers,
        raw_body: match &raw_body {
            Some(b) => Some(string_of(b)),
            None => None,
        },
    };
    proof {
        let b = block_view(*block);
        assert(b.lines == lv);
        assert(first_request_line(lv, masked, 0) == Some(index as int));
        assert(nth_token(lv[index as int], 1) == Some(raw_url@));
        assert(display_subst(lv[index as int], vars@, draws@.line) == request_line@);
        assert(nth_token(request_line@, 1) == Some(words@[1]@));
        assert(request.method@ == ascii_upper(nth_token(request_line@, 0)->0));
        assert(request.url@ == display_subst(words@[1]@, vars@, draws@.url));
        assert(request@.raw_headers == parts_scan(lv, masked, id as nat, index + 1, lv.len() as int).headers);
        assert(request@.assertions == (if assertions_of_scripts(post.scripts, post.scripts.len() as int).len() == 0 && post.scripts.len() == 0 {
            seq![default_assertion()]
        } else {
            assertions_of_scripts(post.scripts, post.scripts.len() as int)
        }));
        assert(request@.pre_request_scripts == pre.scripts);
        assert(request@.response_handler_scripts == post.scripts);
        let ps = parts_scan(lv, masked, id as nat, index + 1, lv.len() as int);
        let rh = ps.headers;
        assert(request@.headers == Seq::new(
            rh.len(),
            |k: int| (rh[k].0, display_subst(rh[k].1, vars@, draws@.headers[k])),
        ));
        let bl = drop_blank_tail(ps.body);
        let rb = if bl.len() == 0 {
            None
        } else {
            Some(crate::plan_paths::join_with(bl, seq!['\n']))
        };
        assert(request@.raw_body == rb);
        assert(request@.body == match rb {
            Some(x) => Some(display_subst(x, vars@, draws@.body)),
            None => None,
        });
        assert(request@.name == match b.name {
            Some(n) => n,
            None => request@.method + seq![' '] + request@.url,
        });
        assert(views(warnings@) == pre.warnings + post.warnings + ps.warnings);
    }
    (Ok((Some(request), warnings)), draws)
}

// ---------------------------------------------------------------------------
// Reading a plan

proof fn lemma_parse_blocks_prefix(
    blocks: Seq<BlockView>,
    n: int,
    vars: Map<Seq<char>, Seq<char>>,
    ds: Seq<BlockDraws>,
    ds2: Seq<BlockDraws>,
)
    requires
        forall|j: int| 0 <= j < n ==> ds[j] == ds2[j],
    ensures
        parse_blocks(blocks, n, vars, ds) == parse_blocks(blocks, n, vars, ds2),
    decreases n,
{
    if n > 0 {
        lemma_parse_blocks_prefix(blocks, n - 1, vars, ds, ds2);
    }
}

proof fn lemma_parse_blocks_err(
    blocks: Seq<BlockView>,
    i: int,
    n: int,
    vars: Map<Seq<char>, Seq<char>>,
    ds: Seq<BlockDraws>,
)
    requires
        i <= n,
        parse_blocks(blocks, i, vars, ds) is Err,
    ensures
        parse_blocks(blocks, n, vars, ds) == parse_blocks(blocks, i, vars, ds),
    decreases n - i,
{
    if n > i {
        lemma_parse_blocks_err(blocks, i, n - 1, vars, ds);
    }
}

/// The name of a plan: the given name unless it is missing or blank.
fn plan_name(name: Option<String>) -> (r: String)
    ensures
        r@ == match opt_string(name) {
            Some(n) => if trim(n).len() > 0 {
                n
            } else {
                "Uploaded test plan"@
            },
            None => "Uploaded test plan"@,
        },
{
    if let Some(n) = name {
        let (a, b) = trim_bounds(&chars_of(n.as_str()));
        if a < b {
            return n;
        }
    }
    proof {
        reveal_strlit("Uploaded test plan");
    }
    string_of(&chars_of("Uploaded test plan"))
}

/// Reads a test plan: the variables of its text with the given ones over them, the
/// requests of its `###` blocks numbered from 1, and the warnings met. A plan without
/// any request, a request line without a URL, and a URL that does not parse or is
/// not `http`/`https` (once no placeholder is left in it) are refused. Placeholders
/// are resolved by the variables or, for dynamic names, by values drawn while reading
/// (`ds`); others are kept for when the request runs.
pub fn parse(input: TestPlanInput) -> (r: AppResult<TestPlan>)
    ensures
        exists|ds: Seq<BlockDraws>|
            match #[trigger] spec_parse(opt_string(input.name), input.content@, input.variables@, ds) {
                Ok(p) => r matches Ok(x) && x@ == p,
                Err(e) => r matches Err(x) && x@ == e,
            },
{
    let ghost name_v = opt_string(input.name);
    let ghost content_v = input.content@;
    let ghost given_v = input.variables@;
    let TestPlanInput { name, content, variables: given } = input;
    let text = chars_of(content.as_str());
    let (mut variables, blocks) = scan_plan_text(&text);
    variables.extend(&given);
    let ghost vars = variables@;
    let ghost bv = blocks_view(blocks@);
    assert(vars == scan_plan(content_v).vars.union_prefer_right(given_v));
    let mut warnings: Vec<String> = Vec::new();
    let mut requests: Vec<TestPlanRequest> = Vec::new();
    let ghost mut ds: Seq<BlockDraws> = Seq::empty();
    assert(requests_view(requests@) =~= Seq::<RequestView>::empty());
    assert(views(warnings@) =~= Seq::<Seq<char>>::empty());
    let mut i: usize = 0;
    while i < blocks.len()
        invariant
            i <= blocks.len(),
            ds.len() == i,
            bv == blocks_view(blocks@),
            bv == scan_plan(content_v).blocks,
            name_v == opt_string(input.name),
            content_v == input.content@,
            given_v == input.variables@,
            vars == variables@,
            vars == scan_plan(content_v).vars.union_prefer_right(given_v),
            requests.len() <= i,
            parse_blocks(bv, i as int, vars, ds) == Ok::<
                (Seq<RequestView>, Seq<Seq<char>>),
                (ErrorKind, Seq<char>),
            >((requests_view(requests@), views(warnings@))),
        decreases blocks.len() - i,
    {
        let (res, Ghost(d)) = parse_block(requests.len() + 1, &blocks[i], &variables);
        let ghost old_ds = ds;
        proof {
            ds = ds.push(d);
            lemma_parse_blocks_prefix(bv, i as int, vars, old_ds, ds);
            assert(bv[i as int] == block_view(blocks@[i as int]));
        }
        match res {
            Err(e) => {
                proof {
                    lemma_parse_blocks_err(bv, i + 1, bv.len() as int, vars, ds);
                    assert(spec_parse(name_v, content_v, given_v, ds) matches Err(x) && x == e@);
                }
                return Err(e);
            },
            Ok((req, mut w)) => {
                let ghost rv = requests_view(requests@);
                let ghost wv = views(warnings@);
                let ghost wn = views(w@);
                match req {
                    Some(x) => {
                        requests.push(x);
                        assert(requests_view(requests@) =~= rv.push(requests@.last()@));
                    },
                    None => {},
                }
                warnings.append(&mut w);
                assert(views(warnings@) =~= wv + wn);
            },
        }
        i = i + 1;
    }
    if requests.len() == 0 {
        proof {
            reveal_strlit("test plan does not contain any executable requests");
        }
        let e = AppError::BadRequest(
            string_of(&chars_of("test plan does not contain any executable requests")),
        );
        assert(spec_parse(name_v, content_v, given_v, ds) matches Err(x) && x == e@);
        return Err(e);
    }
    let plan = TestPlan { name: plan_name(name), variables, requests, warnings };
    assert(spec_parse(name_v, content_v, given_v, ds) matches Ok(p) && plan@ == p);
    Ok(plan)
}

} // verus!
