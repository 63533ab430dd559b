//! Names and relative paths of stored test plans: cleaning user-given paths, the
//! display name of a plan file, and the file name a new plan is saved under.
use vstd::prelude::*;

use crate::certificates::path_file_name;
use crate::error::{bad_request_msg, AppError, AppResult, ErrorKind};
use crate::text::{
    append, chars_of, ends_with, find, has_char, same_chars, slice_of, split, split_chars,
    string_of, strip_leading, strip_trailing, trim, trim_end_char, trim_start_char, trimmed,
};

verus! {

/// The error for a path segment that is not a plain name.
pub open spec fn invalid_segment() -> (ErrorKind, Seq<char>) {
    (ErrorKind::BadRequest, "invalid path segment"@)
}

/// A path segment trimmed; it must not be empty, `.` or `..`, nor hold a slash or
/// a backslash.
pub open spec fn spec_clean_path_segment(segment: Seq<char>) -> Result<Seq<char>, (ErrorKind, Seq<char>)> {
    let s = trim(segment);
    if s.len() == 0 || s == seq!['.'] || s == seq!['.', '.'] || s.contains('/') || s.contains(
        '\\',
    ) {
        Err(invalid_segment())
    } else {
        Ok(s)
    }
}

fn clean_segment_chars(segment: &Vec<char>) -> (r: Result<Vec<char>, AppError>)
    ensures
        match spec_clean_path_segment(segment@) {
            Ok(s) => r matches Ok(v) && v@ == s,
            Err(e) => r matches Err(x) && x@ == e,
        },
{
    let s = trimmed(segment);
    let is_dot = s.len() == 1 && s[0] == '.';
    let is_dots = s.len() == 2 && s[0] == '.' && s[1] == '.';
    proof {
        if s@ == seq!['.'] {
            assert(s@[0] == '.');
        }
        if s@ == seq!['.', '.'] {
            assert(s@[0] == '.' && s@[1] == '.');
        }
        if is_dot {
            assert(s@ =~= seq!['.']);
        }
        if is_dots {
            assert(s@ =~= seq!['.', '.']);
        }
    }
    if s.len() == 0 || is_dot || is_dots || has_char(&s, '/') || has_char(&s, '\\') {
        return Err(bad_request_msg("invalid path segment"));
    }
    Ok(s)
}

/// Cleans one segment of a plan path.
pub fn clean_path_segment(segment: &str) -> (r: AppResult<String>)
    ensures
        match spec_clean_path_segment(segment@) {
            Ok(s) => r matches Ok(v) && v@ == s,
            Err(e) => r matches Err(x) && x@ == e,
        },
{
    match clean_segment_chars(&chars_of(segment)) {
        Ok(v) => Ok(string_of(&v)),
        Err(e) => Err(e),
    }
}

/// A relative path trimmed of whitespace, then of slashes at either end.
pub open spec fn stripped_path(path: Seq<char>) -> Seq<char> {
    trim_end_char(trim_start_char(trim(path), '/'), '/')
}

/// The Unix components of the path segment `i` of `segs`: `None` for the current or
/// parent directory, the name for a normal component; empty and inner `.` segments
/// are no components at all (`Ok(None)` stands for "skip").
pub open spec fn segment_component(segs: Seq<Seq<char>>, i: int) -> Option<Option<Seq<char>>> {
    let s = segs[i];
    if i == 0 && s == seq!['.'] {
        Some(None)
    } else if s.len() == 0 || s == seq!['.'] {
        None
    } else if s == seq!['.', '.'] {
        Some(None)
    } else {
        Some(Some(s))
    }
}

/// The error for a path with a `.` or `..` component.
pub open spec fn traversal_error() -> (ErrorKind, Seq<char>) {
    (ErrorKind::BadRequest, "path traversal is not allowed"@)
}

/// The cleaned segments of the first `n` path segments of `segs`, stopping at the
/// first `.`/`..` component or invalid segment.
pub open spec fn clean_segments(segs: Seq<Seq<char>>, n: int) -> Result<
    Seq<Seq<char>>,
    (ErrorKind, Seq<char>),
>
    decreases n,
{
    if n <= 0 {
        Ok(Seq::empty())
    } else {
        match clean_segments(segs, n - 1) {
            Err(e) => Err(e),
            Ok(done) => match segment_component(segs, n - 1) {
                None => Ok(done),
                Some(None) => Err(traversal_error()),
                Some(Some(part)) => match spec_clean_path_segment(part) {
                    Err(e) => Err(e),
                    Ok(p) => Ok(done.push(p)),
                },
            },
        }
    }
}

proof fn lemma_clean_segments_error_stays(segs: Seq<Seq<char>>, n: int, m: int)
    requires
        0 <= n <= m,
        clean_segments(segs, n) is Err,
    ensures
        clean_segments(segs, m) == clean_segments(segs, n),
    decreases m - n,
{
    if m > n {
        lemma_clean_segments_error_stays(segs, n, m - 1);
    }
}

/// `parts` joined with `sep` between them, as `[String]::join` gives it.
pub open spec fn join_with(parts: Seq<Seq<char>>, sep: Seq<char>) -> Seq<char>
    decreases parts.len(),
{
    if parts.len() == 0 {
        Seq::empty()
    } else if parts.len() == 1 {
        parts[0]
    } else {
        join_with(parts.drop_last(), sep) + sep + parts.last()
    }
}

/// The error for an empty plan path.
pub open spec fn empty_plan_path() -> (ErrorKind, Seq<char>) {
    (ErrorKind::BadRequest, "test plan path cannot be empty"@)
}

/// A user-given relative path made safe: trimmed, its segments cleaned, no `.` or
/// `..` component, and the segments joined with `/`. A plan path must not be empty.
pub open spec fn spec_clean_relative_path(path: Seq<char>, require_file: bool) -> Result<
    Seq<char>,
    (ErrorKind, Seq<char>),
> {
    let p = stripped_path(path);
    if p.len() == 0 {
        if require_file {
            Err(empty_plan_path())
        } else {
            Ok(Seq::empty())
        }
    } else {
        let segs = split(p, '/');
        match clean_segments(segs, segs.len() as int) {
            Err(e) => Err(e),
            Ok(parts) => if require_file && parts.len() == 0 {
                Err(empty_plan_path())
            } else {
                Ok(join_with(parts, seq!['/']))
            },
        }
    }
}

/// `parts` joined with `sep` between them.
pub fn join_parts(parts: &Vec<Vec<char>>, sep: char) -> (r: Vec<char>)
    ensures
        r@ == join_with(parts@.map_values(|v: Vec<char>| v@), seq![sep]),
{
    let ghost pv = parts@.map_values(|v: Vec<char>| v@);
    let mut r: Vec<char> = Vec::new();
    let mut i: usize = 0;
    while i < parts.len()
        invariant
            i <= parts.len(),
            pv == parts@.map_values(|v: Vec<char>| v@),
            r@ == join_with(pv.take(i as int), seq![sep]),
        decreases parts.len() - i,
    {
        let ghost before = r@;
        if i > 0 {
            r.push(sep);
        }
        append(&mut r, &parts[i]);
        proof {
            assert(pv.take(i + 1).drop_last() =~= pv.take(i as int));
            assert(pv.take(i + 1).last() == parts@[i as int]@);
            if i == 0 {
                assert(r@ =~= parts@[0]@);
            } else {
                assert(r@ =~= before + seq![sep] + parts@[i as int]@);
            }
        }
        i = i + 1;
    }
    assert(pv.take(parts.len() as int) =~= pv);
    r
}

/// `parts` joined with the text `sep` between them.
pub fn join_text(parts: &Vec<Vec<char>>, sep: &Vec<char>) -> (r: Vec<char>)
    ensures
        r@ == join_with(parts@.map_values(|v: Vec<char>| v@), sep@),
{
    let ghost pv = parts@.map_values(|v: Vec<char>| v@);
    let mut r: Vec<char> = Vec::new();
    let mut i: usize = 0;
    while i < parts.len()
        invariant
            i <= parts.len(),
            pv == parts@.map_values(|v: Vec<char>| v@),
            r@ == join_with(pv.take(i as int), sep@),
        decreases parts.len() - i,
    {
        let ghost before = r@;
        if i > 0 {
            append(&mut r, sep);
        }
        append(&mut r, &parts[i]);
        proof {
            assert(pv.take(i + 1).drop_last() =~= pv.take(i as int));
            assert(pv.take(i + 1).last() == parts@[i as int]@);
            if i == 0 {
                assert(r@ =~= parts@[0]@);
            } else {
                assert(r@ =~= before + sep@ + parts@[i as int]@);
            }
        }
        i = i + 1;
    }
    assert(pv.take(parts.len() as int) =~= pv);
    r
}

fn clean_relative_chars(path: &Vec<char>, require_file: bool) -> (r: Result<Vec<char>, AppError>)
    ensures
        match spec_clean_relative_path(path@, require_file) {
            Ok(s) => r matches Ok(v) && v@ == s,
            Err(e) => r matches Err(x) && x@ == e,
        },
{
    let t = trimmed(path);
    let t2 = strip_leading(&t, '/');
    let p = strip_trailing(&t2, '/');
    if p.len() == 0 {
        if require_file {
            return Err(bad_request_msg("test plan path cannot be empty"));
        }
        return Ok(Vec::new());
    }
    let segs = split_chars(&p, '/');
    let ghost sv = split(p@, '/');
    assert(segs@.map_values(|v: Vec<char>| v@) =~= sv);
    let mut parts: Vec<Vec<char>> = Vec::new();
    let mut i: usize = 0;
    assert(parts@.map_values(|v: Vec<char>| v@) =~= Seq::<Seq<char>>::empty());
    while i < segs.len()
        invariant
            i <= segs@.len(),
            p@ == stripped_path(path@),
            p@.len() > 0,
            sv == split(p@, '/'),
            segs@.len() == sv.len(),
            forall|x: int| 0 <= x < segs@.len() ==> #[trigger] segs@[x]@ == sv[x],
            clean_segments(sv, i as int) == Ok::<Seq<Seq<char>>, (ErrorKind, Seq<char>)>(
                parts@.map_values(|v: Vec<char>| v@),
            ),
        decreases segs@.len() - i,
    {
        let seg = &segs[i];
        let is_dot = seg.len() == 1 && seg[0] == '.';
        let is_dots = seg.len() == 2 && seg[0] == '.' && seg[1] == '.';
        proof {
            if seg@ == seq!['.'] {
                assert(seg@[0] == '.');
            }
            if seg@ == seq!['.', '.'] {
                assert(seg@[0] == '.' && seg@[1] == '.');
            }
            if is_dot {
                assert(seg@ =~= seq!['.']);
            }
            if is_dots {
                assert(seg@ =~= seq!['.', '.']);
            }
        }
        if (i == 0 && is_dot) || is_dots {
            proof {
                lemma_clean_segments_error_stays(sv, i + 1, sv.len() as int);
            }
            return Err(bad_request_msg("path traversal is not allowed"));
        }
        if seg.len() > 0 && !is_dot {
            match clean_segment_chars(seg) {
                Err(e) => {
                    proof {
                        lemma_clean_segments_error_stays(sv, i + 1, sv.len() as int);
                    }
                    return Err(e);
                },
                Ok(part) => {
                    let ghost before = parts@.map_values(|v: Vec<char>| v@);
                    parts.push(part);
                    assert(parts@.map_values(|v: Vec<char>| v@) =~= before.push(part@));
                },
            }
        }
        i = i + 1;
    }
    if require_file && parts.len() == 0 {
        return Err(bad_request_msg("test plan path cannot be empty"));
    }
    Ok(join_parts(&parts, '/'))
}

/// Cleans a relative path of the plan directory.
pub fn clean_relative_path(path: &str, require_file: bool) -> (r: AppResult<String>)
    ensures
        match spec_clean_relative_path(path@, require_file) {
            Ok(s) => r matches Ok(v) && v@ == s,
            Err(e) => r matches Err(x) && x@ == e,
        },
{
    match clean_relative_chars(&chars_of(path), require_file) {
        Ok(v) => Ok(string_of(&v)),
        Err(e) => Err(e),
    }
}

/// Cleans the path of a plan folder (the root is the empty path).
pub fn clean_directory_path(path: &str) -> (r: AppResult<String>)
    ensures
        match spec_clean_relative_path(path@, false) {
            Ok(s) => r matches Ok(v) && v@ == s,
            Err(e) => r matches Err(x) && x@ == e,
        },
{
    clean_relative_path(path, false)
}

/// The cleaned path of a plan file, which must end with `.http`.
pub open spec fn spec_clean_plan_path(path: Seq<char>) -> Result<Seq<char>, (ErrorKind, Seq<char>)> {
    match spec_clean_relative_path(path, true) {
        Err(e) => Err(e),
        Ok(p) => if ".http"@.is_suffix_of(p) {
            Ok(p)
        } else {
            Err((ErrorKind::BadRequest, "test plan path must end with .http"@))
        },
    }
}

/// Cleans the path of a plan file.
pub fn clean_plan_path(path: &str) -> (r: AppResult<String>)
    ensures
        match spec_clean_plan_path(path@) {
            Ok(s) => r matches Ok(v) && v@ == s,
            Err(e) => r matches Err(x) && x@ == e,
        },
{
    let cleaned = match clean_relative_chars(&chars_of(path), true) {
        Ok(v) => v,
        Err(e) => return Err(e),
    };
    let ext = chars_of(".http");
    if !ends_with(&cleaned, &ext) {
        return Err(bad_request_msg("test plan path must end with .http"));
    }
    Ok(string_of(&cleaned))
}

/// `child` under `parent`; the root is the empty path.
pub open spec fn spec_join_relative_path(parent: Seq<char>, child: Seq<char>) -> Seq<char> {
    if parent.len() == 0 {
        child
    } else {
        parent + seq!['/'] + child
    }
}

/// The path of `child` under `parent`.
pub fn join_relative_path(parent: &str, child: &str) -> (r: String)
    ensures
        r@ == spec_join_relative_path(parent@, child@),
{
    let p = chars_of(parent);
    let c = chars_of(child);
    if p.len() == 0 {
        return string_of(&c);
    }
    let mut out = p;
    out.push('/');
    append(&mut out, &c);
    string_of(&out)
}

/// The position of the last `c` in `s`, if any.
pub open spec fn last_index_of(s: Seq<char>, c: char) -> Option<int>
    decreases s.len(),
{
    if s.len() == 0 {
        None
    } else if s.last() == c {
        Some(s.len() - 1)
    } else {
        last_index_of(s.drop_last(), c)
    }
}

proof fn lemma_last_index_of(s: Seq<char>, c: char)
    ensures
        last_index_of(s, c) matches Some(k) ==> 0 <= k < s.len() && s[k] == c && forall|j: int|
            k < j < s.len() ==> s[j] != c,
        last_index_of(s, c) is None ==> forall|j: int| 0 <= j < s.len() ==> s[j] != c,
    decreases s.len(),
{
    if s.len() > 0 && s.last() != c {
        lemma_last_index_of(s.drop_last(), c);
        assert forall|j: int| 0 <= j < s.len() - 1 implies s[j] == s.drop_last()[j] by {}
    }
}

/// The position of the last `c` in `s`.
pub fn find_last(s: &Vec<char>, c: char) -> (r: Option<usize>)
    ensures
        r matches Some(k) ==> last_index_of(s@, c) == Some(k as int) && k < s.len(),
        r is None ==> last_index_of(s@, c) is None,
{
    proof {
        lemma_last_index_of(s@, c);
    }
    let mut k: usize = s.len();
    assert(s@.take(s.len() as int) =~= s@);
    while k > 0
        invariant
            k <= s.len(),
            last_index_of(s@, c) == last_index_of(s@.take(k as int), c),
        decreases k,
    {
        if s[k - 1] == c {
            assert(s@.take(k as int).last() == c);
            return Some(k - 1);
        }
        assert(s@.take(k as int).drop_last() =~= s@.take(k - 1));
        k = k - 1;
    }
    None
}

/// The folder holding `path`: `None` for the root, the empty path for a top-level
/// entry.
pub open spec fn spec_parent_directory(path: Seq<char>) -> Option<Seq<char>> {
    if path.len() == 0 {
        None
    } else {
        match last_index_of(path, '/') {
            Some(k) => Some(path.take(k)),
            None => Some(Seq::empty()),
        }
    }
}

/// The folder that holds `path`.
pub fn parent_directory(path: &str) -> (r: Option<String>)
    ensures
        match spec_parent_directory(path@) {
            Some(p) => r matches Some(v) && v@ == p,
            None => r is None,
        },
{
    let p = chars_of(path);
    if p.len() == 0 {
        return None;
    }
    match find_last(&p, '/') {
        Some(k) => Some(string_of(&slice_of(&p, 0, k))),
        None => Some(String::new()),
    }
}

/// The name of a plan: its name trimmed, or `Untitled test plan` when blank.
pub open spec fn spec_clean_plan_name(name: Seq<char>) -> Seq<char> {
    if trim(name).len() == 0 {
        "Untitled test plan"@
    } else {
        trim(name)
    }
}

fn clean_plan_name_chars(name: &Vec<char>) -> (r: Vec<char>)
    ensures
        r@ == spec_clean_plan_name(name@),
{
    let t = trimmed(name);
    if t.len() == 0 {
        chars_of("Untitled test plan")
    } else {
        t
    }
}

/// The name of a plan.
pub fn clean_plan_name(name: &str) -> (r: String)
    ensures
        r@ == spec_clean_plan_name(name@),
{
    string_of(&clean_plan_name_chars(&chars_of(name)))
}

/// `Path::file_stem` of a file name: all of it when it has no `.` but a leading one,
/// else the part before the last `.`.
pub open spec fn name_stem(name: Seq<char>) -> Seq<char> {
    match last_index_of(name, '.') {
        Some(k) => if k == 0 {
            name
        } else {
            name.take(k)
        },
        None => name,
    }
}

/// `Path::file_stem` for a Unix path.
pub open spec fn path_file_stem(path: Seq<char>) -> Option<Seq<char>> {
    match path_file_name(path) {
        Some(n) => Some(name_stem(n)),
        None => None,
    }
}

/// `s` with every `-` and `_` replaced by a space.
pub open spec fn dashes_to_spaces(s: Seq<char>) -> Seq<char> {
    s.map_values(|c: char| if c == '-' || c == '_' { ' ' } else { c })
}

/// The display name of a plan file: its stem (the whole path where it has none),
/// dashes and underscores as spaces, cleaned.
pub open spec fn spec_plan_display_name(path: Seq<char>) -> Seq<char> {
    let stem = match path_file_stem(path) {
        Some(s) => s,
        None => path,
    };
    spec_clean_plan_name(dashes_to_spaces(stem))
}

/// The display name of the plan stored at `path`.
pub fn plan_display_name(path: &str) -> (r: String)
    ensures
        r@ == spec_plan_display_name(path@),
{
    let p = chars_of(path);
    let stem = match crate::certificates::file_name_of(&p) {
        Some(n) => match find_last(&n, '.') {
            Some(k) => if k == 0 {
                n
            } else {
                slice_of(&n, 0, k)
            },
            None => n,
        },
        None => p,
    };
    let mut spaced: Vec<char> = Vec::new();
    let mut i: usize = 0;
    while i < stem.len()
        invariant
            i <= stem.len(),
            spaced@ =~= dashes_to_spaces(stem@.take(i as int)),
        decreases stem.len() - i,
    {
        let c = stem[i];
        spaced.push(
            if c == '-' || c == '_' {
                ' '
            } else {
                c
            },
        );
        i = i + 1;
        assert(spaced@ =~= dashes_to_spaces(stem@.take(i as int)));
    }
    assert(stem@.take(stem.len() as int) =~= stem@);
    string_of(&clean_plan_name_chars(&spaced))
}

/// Whether `c` is an ASCII letter or digit.
pub open spec fn is_ascii_alnum(c: char) -> bool {
    ('a' <= c && c <= 'z') || ('A' <= c && c <= 'Z') || ('0' <= c && c <= '9')
}

/// The slug built from the first `n` characters of `s`: letters and digits
/// lowercased, each run of other characters after the start one `-`; with whether
/// the last character added was a separator.
pub open spec fn slug_prefix(s: Seq<char>, n: int) -> (Seq<char>, bool)
    decreases n,
{
    if n <= 0 {
        (Seq::empty(), false)
    } else {
        let (slug, last_sep) = slug_prefix(s, n - 1);
        let c = s[n - 1];
        if is_ascii_alnum(c) {
            (slug.push(crate::text::ascii_lower_char(c)), false)
        } else if !last_sep && slug.len() > 0 {
            (slug.push('-'), true)
        } else {
            (slug, last_sep)
        }
    }
}

/// The slug of a plan name: from the cleaned name, without trailing dashes, and
/// `untitled-test-plan` when nothing is left.
pub open spec fn spec_slugify_plan_name(name: Seq<char>) -> Seq<char> {
    let n = spec_clean_plan_name(name);
    let slug = trim_end_char(slug_prefix(n, n.len() as int).0, '-');
    if slug.len() == 0 {
        "untitled-test-plan"@
    } else {
        slug
    }
}

fn slugify_chars(name: &Vec<char>) -> (r: Vec<char>)
    ensures
        r@ == spec_slugify_plan_name(name@),
{
    let n = clean_plan_name_chars(name);
    let mut slug: Vec<char> = Vec::new();
    let mut last_sep = false;
    let mut i: usize = 0;
    while i < n.len()
        invariant
            i <= n.len(),
            slug_prefix(n@, i as int) == (slug@, last_sep),
        decreases n.len() - i,
    {
        let c = n[i];
        if ('a' <= c && c <= 'z') || ('A' <= c && c <= 'Z') || ('0' <= c && c <= '9') {
            slug.push(crate::text::lower_char(c));
            last_sep = false;
        } else if !last_sep && slug.len() > 0 {
            slug.push('-');
            last_sep = true;
        }
        i = i + 1;
    }
    let s = strip_trailing(&slug, '-');
    if s.len() == 0 {
        chars_of("untitled-test-plan")
    } else {
        s
    }
}

/// Whether `c` may stand in a slug: a lowercase ASCII letter, a digit, or `-`.
pub open spec fn is_slug_char(c: char) -> bool {
    ('a' <= c && c <= 'z') || ('0' <= c && c <= '9') || c == '-'
}

/// Whether `s` is a slug: not empty, made of lowercase letters, digits and `-`,
/// with no `-` at either end and no two `-` in a row.
pub open spec fn is_slug(s: Seq<char>) -> bool {
    &&& s.len() > 0
    &&& forall|i: int| 0 <= i < s.len() ==> is_slug_char(#[trigger] s[i])
    &&& s[0] != '-'
    &&& s.last() != '-'
    &&& forall|i: int| 0 <= i < s.len() - 1 ==> !(#[trigger] s[i] == '-' && s[i + 1] == '-')
}

/// The ASCII letters and digits of `s` in order, lowercased.
pub open spec fn alnum_lower(s: Seq<char>) -> Seq<char>
    decreases s.len(),
{
    if s.len() == 0 {
        Seq::empty()
    } else {
        alnum_lower(s.drop_last()) + if is_ascii_alnum(s.last()) {
            seq![crate::text::ascii_lower_char(s.last())]
        } else {
            Seq::empty()
        }
    }
}

/// A slug under construction: made of slug characters, not starting with `-`, with
/// no two `-` in a row.
spec fn slug_so_far(t: Seq<char>) -> bool {
    &&& forall|i: int| 0 <= i < t.len() ==> is_slug_char(#[trigger] t[i])
    &&& t.len() > 0 ==> t[0] != '-'
    &&& forall|i: int| 0 <= i < t.len() - 1 ==> !(#[trigger] t[i] == '-' && t[i + 1] == '-')
}

proof fn lemma_lower_alnum(c: char)
    requires
        is_ascii_alnum(c),
    ensures
        is_slug_char(crate::text::ascii_lower_char(c)),
        crate::text::ascii_lower_char(c) != '-',
        is_ascii_alnum(crate::text::ascii_lower_char(c)),
        crate::text::ascii_lower_char(crate::text::ascii_lower_char(c))
            == crate::text::ascii_lower_char(c),
{
    if 'A' <= c && c <= 'Z' {
        let l = crate::text::ascii_lower_char(c);
        assert(l as u32 == (c as u32) + 32);
    }
}

proof fn lemma_slug_prefix_shape(s: Seq<char>, n: int)
    requires
        0 <= n <= s.len(),
    ensures
        slug_so_far(slug_prefix(s, n).0),
        slug_prefix(s, n).1 == (slug_prefix(s, n).0.len() > 0 && slug_prefix(s, n).0.last()
            == '-'),
        alnum_lower(slug_prefix(s, n).0) == alnum_lower(s.take(n)),
    decreases n,
{
    if n == 0 {
        assert(s.take(0) =~= Seq::<char>::empty());
    } else {
        lemma_slug_prefix_shape(s, n - 1);
        let (prev, last_sep) = slug_prefix(s, n - 1);
        let c = s[n - 1];
        assert(s.take(n).drop_last() =~= s.take(n - 1));
        assert(s.take(n).last() == c);
        let t = slug_prefix(s, n).0;
        if is_ascii_alnum(c) {
            lemma_lower_alnum(c);
            assert(t == prev.push(crate::text::ascii_lower_char(c)));
            assert(t.drop_last() =~= prev);
            assert forall|i: int| 0 <= i < t.len() implies is_slug_char(#[trigger] t[i]) by {
                if i < prev.len() {
                    assert(t[i] == prev[i]);
                }
            }
            assert forall|i: int| 0 <= i < t.len() - 1 implies !(#[trigger] t[i] == '-' && t[i
                + 1] == '-') by {
                if i + 1 < prev.len() {
                    assert(t[i] == prev[i] && t[i + 1] == prev[i + 1]);
                }
            }
            if prev.len() > 0 {
                assert(t[0] == prev[0]);
            }
        } else if !last_sep && prev.len() > 0 {
            assert(t == prev.push('-'));
            assert(t.drop_last() =~= prev);
            assert forall|i: int| 0 <= i < t.len() implies is_slug_char(#[trigger] t[i]) by {
                if i < prev.len() {
                    assert(t[i] == prev[i]);
                }
            }
            assert forall|i: int| 0 <= i < t.len() - 1 implies !(#[trigger] t[i] == '-' && t[i
                + 1] == '-') by {
                if i + 1 < prev.len() {
                    assert(t[i] == prev[i] && t[i + 1] == prev[i + 1]);
                } else {
                    assert(t[i] == prev.last());
                }
            }
            assert(t[0] == prev[0]);
            assert(alnum_lower(t) == alnum_lower(prev) + Seq::<char>::empty());
            assert(alnum_lower(t) =~= alnum_lower(prev));
            assert(alnum_lower(s.take(n)) =~= alnum_lower(s.take(n - 1)));
        } else {
            assert(alnum_lower(s.take(n)) =~= alnum_lower(s.take(n - 1)));
        }
    }
}

proof fn lemma_no_alnum(t: Seq<char>)
    requires
        alnum_lower(t).len() == 0,
    ensures
        forall|i: int| 0 <= i < t.len() ==> !is_ascii_alnum(#[trigger] t[i]),
    decreases t.len(),
{
    if t.len() > 0 {
        lemma_no_alnum(t.drop_last());
        assert forall|i: int| 0 <= i < t.len() implies !is_ascii_alnum(#[trigger] t[i]) by {
            if i < t.len() - 1 {
                assert(t[i] == t.drop_last()[i]);
            }
        }
    }
}

proof fn lemma_trim_slug(t: Seq<char>)
    requires
        slug_so_far(t),
    ensures
        slug_so_far(trim_end_char(t, '-')),
        trim_end_char(t, '-').len() > 0 ==> trim_end_char(t, '-').last() != '-',
        alnum_lower(trim_end_char(t, '-')) == alnum_lower(t),
    decreases t.len(),
{
    if t.len() > 0 && t.last() == '-' {
        let u = t.drop_last();
        assert forall|i: int| 0 <= i < u.len() implies is_slug_char(#[trigger] u[i]) by {
            assert(u[i] == t[i]);
        }
        assert forall|i: int| 0 <= i < u.len() - 1 implies !(#[trigger] u[i] == '-' && u[i + 1]
            == '-') by {
            assert(u[i] == t[i] && u[i + 1] == t[i + 1]);
        }
        if u.len() > 0 {
            assert(u[0] == t[0]);
        }
        lemma_trim_slug(u);
        assert(alnum_lower(t) =~= alnum_lower(u));
    }
}

proof fn lemma_untitled_is_slug()
    ensures
        is_slug("untitled-test-plan"@),
{
    reveal_strlit("untitled-test-plan");
    let s = "untitled-test-plan"@;
    assert forall|i: int| 0 <= i < s.len() implies is_slug_char(#[trigger] s[i]) by {}
    assert forall|i: int| 0 <= i < s.len() - 1 implies !(#[trigger] s[i] == '-' && s[i + 1]
        == '-') by {}
}

proof fn lemma_slugify_shape(name: Seq<char>)
    ensures
        is_slug(spec_slugify_plan_name(name)),
        alnum_lower(spec_clean_plan_name(name)).len() == 0 ==> spec_slugify_plan_name(name)
            == "untitled-test-plan"@,
        alnum_lower(spec_clean_plan_name(name)).len() > 0 ==> alnum_lower(
            spec_slugify_plan_name(name),
        ) == alnum_lower(spec_clean_plan_name(name)),
{
    let n = spec_clean_plan_name(name);
    lemma_slug_prefix_shape(n, n.len() as int);
    assert(n.take(n.len() as int) =~= n);
    let raw = slug_prefix(n, n.len() as int).0;
    lemma_trim_slug(raw);
    let t = trim_end_char(raw, '-');
    lemma_untitled_is_slug();
    if alnum_lower(n).len() == 0 {
        lemma_no_alnum(t);
        if t.len() > 0 {
            assert(is_slug_char(t[0]));
            assert(!is_ascii_alnum(t[0]));
        }
    } else {
        assert(t.len() > 0);
    }
}

/// The slug a new plan file is named after.
pub fn slugify_plan_name(name: &str) -> (r: String)
    ensures
        r@ == spec_slugify_plan_name(name@),
        is_slug(r@),
        alnum_lower(spec_clean_plan_name(name@)).len() == 0 ==> r@ == "untitled-test-plan"@,
        alnum_lower(spec_clean_plan_name(name@)).len() > 0 ==> alnum_lower(r@) == alnum_lower(
            spec_clean_plan_name(name@),
        ),
{
    proof {
        lemma_slugify_shape(name@);
    }
    string_of(&slugify_chars(&chars_of(name)))
}

} // verus!
