//! `{{name}}` placeholders: finding them, replacing them, and the variables and
//! dynamic values (`$uuid`, `$timestamp`, `$isoTimestamp`) they resolve to.
use vstd::prelude::*;

use crate::certificates::hex_digit;
use crate::error::{AppError, AppResult, ErrorKind};
use crate::text::{
    append, chars_of, dec_int, find, find_from, find_in, lemma_find_from, occurs_at, push_dec_i64,
    same_chars, slice_of, string_of, trim, trimmed, all_digits, is_digit,
};

verus! {

/// A named variable of a plan.
#[derive(Debug)]
pub struct Variable {
    pub name: String,
    pub value: String,
}

/// The map that a list of assignments leaves: later assignments win.
pub open spec fn assignments_map(s: Seq<(Seq<char>, Seq<char>)>) -> Map<Seq<char>, Seq<char>>
    decreases s.len(),
{
    if s.len() == 0 {
        Map::empty()
    } else {
        assignments_map(s.drop_last()).insert(s.last().0, s.last().1)
    }
}

/// Plan variables by name: assignments in order, the last one for a name wins.
#[derive(Debug)]
pub struct Variables {
    entries: Vec<Variable>,
}

/// The assignments of a list of variables.
pub open spec fn variable_pairs(v: Seq<Variable>) -> Seq<(Seq<char>, Seq<char>)> {
    v.map_values(|x: Variable| (x.name@, x.value@))
}

proof fn lemma_assignments_later(s: Seq<(Seq<char>, Seq<char>)>, j: int, k: Seq<char>)
    requires
        0 <= j <= s.len(),
        forall|i: int| j <= i < s.len() ==> (#[trigger] s[i]).0 != k,
    ensures
        assignments_map(s).contains_key(k) == assignments_map(s.take(j)).contains_key(k),
        assignments_map(s).contains_key(k) ==> assignments_map(s)[k] == assignments_map(
            s.take(j),
        )[k],
    decreases s.len() - j,
{
    if j < s.len() {
        assert(s.drop_last().take(j) =~= s.take(j));
        assert forall|i: int| j <= i < s.drop_last().len() implies (
        #[trigger] s.drop_last()[i]).0 != k by {
            assert(s.drop_last()[i] == s[i]);
        }
        lemma_assignments_later(s.drop_last(), j, k);
    } else {
        assert(s.take(j) =~= s);
    }
}

proof fn lemma_assignments_append(a: Seq<(Seq<char>, Seq<char>)>, b: Seq<(Seq<char>, Seq<char>)>)
    ensures
        assignments_map(a + b) == assignments_map(a).union_prefer_right(assignments_map(b)),
    decreases b.len(),
{
    if b.len() == 0 {
        assert(a + b =~= a);
        assert(assignments_map(a).union_prefer_right(Map::empty()) =~= assignments_map(a));
    } else {
        lemma_assignments_append(a, b.drop_last());
        assert((a + b).drop_last() =~= a + b.drop_last());
        assert((a + b).last() == b.last());
        assert(assignments_map(a + b) =~= assignments_map(a).union_prefer_right(
            assignments_map(b),
        ));
    }
}

impl View for Variables {
    type V = Map<Seq<char>, Seq<char>>;

    closed spec fn view(&self) -> Map<Seq<char>, Seq<char>> {
        assignments_map(variable_pairs(self.entries@))
    }
}

impl Variables {
    /// No variables.
    pub fn new() -> (r: Variables)
        ensures
            r@ == Map::<Seq<char>, Seq<char>>::empty(),
    {
        let r = Variables { entries: Vec::new() };
        assert(variable_pairs(r.entries@) =~= Seq::empty());
        r
    }

    /// Sets `name` to `value`.
    pub fn insert(&mut self, name: String, value: String)
        ensures
            final(self)@ == old(self)@.insert(name@, value@),
    {
        let ghost before = self.entries@;
        let ghost pair = (name@, value@);
        self.entries.push(Variable { name, value });
        assert(variable_pairs(self.entries@) =~= variable_pairs(before).push(pair));
        assert(variable_pairs(self.entries@).drop_last() =~= variable_pairs(before));
    }

    /// The value of `name`.
    pub fn lookup(&self, name: &Vec<char>) -> (r: Option<Vec<char>>)
        ensures
            r matches Some(v) ==> self@.contains_key(name@) && self@[name@] == v@,
            r is None ==> !self@.contains_key(name@),
    {
        let ghost s = variable_pairs(self.entries@);
        let mut j: usize = self.entries.len();
        assert(s.take(j as int) =~= s);
        while j > 0
            invariant
                j <= self.entries.len(),
                s == variable_pairs(self.entries@),
                forall|i: int| j <= i < s.len() ==> (#[trigger] s[i]).0 != name@,
            decreases j,
        {
            let e = &self.entries[j - 1];
            let key = chars_of(e.name.as_str());
            if same_chars(&key, name) {
                proof {
                    lemma_assignments_later(s, j as int, name@);
                    assert(s.take(j as int).drop_last() =~= s.take(j - 1));
                    assert(s.take(j as int).last() == s[j - 1]);
                }
                return Some(chars_of(e.value.as_str()));
            }
            j = j - 1;
        }
        proof {
            lemma_assignments_later(s, 0, name@);
            assert(s.take(0) =~= Seq::<(Seq<char>, Seq<char>)>::empty());
        }
        None
    }

    /// The value of `name`.
    pub fn get(&self, name: &str) -> (r: Option<String>)
        ensures
            r matches Some(v) ==> self@.contains_key(name@) && self@[name@] == v@,
            r is None ==> !self@.contains_key(name@),
    {
        match self.lookup(&chars_of(name)) {
            Some(v) => Some(string_of(&v)),
            None => None,
        }
    }

    /// Sets every variable of `other`, which wins over what `self` holds.
    pub fn extend(&mut self, other: &Variables)
        ensures
            final(self)@ == old(self)@.union_prefer_right(other@),
    {
        let ghost a = variable_pairs(self.entries@);
        let ghost b = variable_pairs(other.entries@);
        let mut i: usize = 0;
        while i < other.entries.len()
            invariant
                i <= other.entries.len(),
                a == variable_pairs(old(self).entries@),
                b == variable_pairs(other.entries@),
                variable_pairs(self.entries@) =~= a + b.take(i as int),
            decreases other.entries.len() - i,
        {
            let e = &other.entries[i];
            let ghost before = self.entries@;
            self.entries.push(Variable { name: e.name.clone(), value: e.value.clone() });
            assert(variable_pairs(self.entries@) =~= variable_pairs(before).push(b[i as int]));
            assert(b.take(i + 1) =~= b.take(i as int).push(b[i as int]));
            i = i + 1;
        }
        assert(b.take(other.entries.len() as int) =~= b);
        proof {
            lemma_assignments_append(a, b);
        }
    }

    /// A copy of these variables.
    pub fn duplicate(&self) -> (r: Variables)
        ensures
            r@ == self@,
    {
        let mut r = Variables::new();
        r.extend(self);
        assert(r@ =~= self@);
        r
    }

    /// The assignments in order, later ones winning.
    pub fn entries(&self) -> (r: Vec<(String, String)>)
        ensures
            assignments_map(r@.map_values(|p: (String, String)| (p.0@, p.1@))) == self@,
    {
        let ghost s = variable_pairs(self.entries@);
        let mut r: Vec<(String, String)> = Vec::new();
        let mut i: usize = 0;
        while i < self.entries.len()
            invariant
                i <= self.entries.len(),
                s == variable_pairs(self.entries@),
                r@.map_values(|p: (String, String)| (p.0@, p.1@)) =~= s.take(i as int),
            decreases self.entries.len() - i,
        {
            let e = &self.entries[i];
            let ghost before = r@;
            r.push((e.name.clone(), e.value.clone()));
            assert(r@.map_values(|p: (String, String)| (p.0@, p.1@)) =~= before.map_values(
                |p: (String, String)| (p.0@, p.1@),
            ).push(s[i as int]));
            assert(s.take(i + 1) =~= s.take(i as int).push(s[i as int]));
            i = i + 1;
        }
        assert(s.take(self.entries.len() as int) =~= s);
        r
    }
}

/// The keys of the `{{..}}` placeholders of `s`, trimmed, in order; text after an
/// unclosed `{{` has none.
pub open spec fn placeholders(s: Seq<char>) -> Seq<Seq<char>>
    decreases s.len(),
{
    match find(s, seq!['{', '{']) {
        None => Seq::empty(),
        Some(start) => if 0 <= start && start + 2 <= s.len() {
            let after = s.skip(start + 2);
            match find(after, seq!['}', '}']) {
                None => Seq::empty(),
                Some(end) => if 0 <= end && end + 2 <= after.len() {
                    seq![trim(after.take(end))] + placeholders(after.skip(end + 2))
                } else {
                    Seq::empty()
                },
            }
        } else {
            Seq::empty()
        },
    }
}

/// `s` with its placeholders replaced in order by `res`: a resolved placeholder by
/// its value, an unresolved one by `{{key}}` with the key trimmed.
pub open spec fn substitute(s: Seq<char>, res: Seq<Option<Seq<char>>>) -> Seq<char>
    decreases s.len(),
{
    match find(s, seq!['{', '{']) {
        None => s,
        Some(start) => if 0 <= start && start + 2 <= s.len() {
            let after = s.skip(start + 2);
            match find(after, seq!['}', '}']) {
                None => s,
                Some(end) => if 0 <= end && end + 2 <= after.len() {
                    let key = trim(after.take(end));
                    let rep = match res[0] {
                        Some(v) => v,
                        None => seq!['{', '{'] + key + seq!['}', '}'],
                    };
                    s.take(start) + rep + substitute(after.skip(end + 2), res.drop_first())
                } else {
                    s
                },
            }
        } else {
            s
        },
    }
}

proof fn lemma_find_bounds(s: Seq<char>, p: Seq<char>)
    ensures
        find(s, p) matches Some(k) ==> 0 <= k && k + p.len() <= s.len(),
{
    lemma_find_from(s, p, 0);
}

/// The keys of the placeholders of `s`, in order.
pub fn placeholder_keys(s: &Vec<char>) -> (r: Vec<Vec<char>>)
    ensures
        r@.map_values(|v: Vec<char>| v@) == placeholders(s@),
{
    let open = vec!['{', '{'];
    let close = vec!['}', '}'];
    let mut keys: Vec<Vec<char>> = Vec::new();
    let mut pos: usize = 0;
    assert(s@.skip(0) =~= s@);
    assert(keys@.map_values(|v: Vec<char>| v@) =~= Seq::<Seq<char>>::empty());
    loop
        invariant
            pos <= s.len(),
            open@ == seq!['{', '{'],
            close@ == seq!['}', '}'],
            placeholders(s@) == keys@.map_values(|v: Vec<char>| v@) + placeholders(
                s@.skip(pos as int),
            ),
        decreases s.len() - pos,
    {
        let ghost rest = s@.skip(pos as int);
        proof {
            lemma_find_bounds(rest, open@);
        }
        let start = match find_in(s, &open, pos) {
            None => {
                proof {
                    lemma_find_from(s@, open@, pos as int);
                    if let Some(k) = find(rest, open@) {
                        lemma_find_from(rest, open@, 0);
                        assert(rest.subrange(k, k + 2) =~= s@.subrange(pos + k, pos + k + 2));
                        assert(occurs_at(s@, open@, pos + k));
                    }
                    assert(find(rest, open@) is None);
                    assert(placeholders(rest) =~= Seq::<Seq<char>>::empty());
                }
                assert(keys@.map_values(|v: Vec<char>| v@) + Seq::<Seq<char>>::empty()
                    =~= keys@.map_values(|v: Vec<char>| v@));
                return keys;
            },
            Some(k) => k,
        };
        proof {
            lemma_shift_find(s@, open@, pos as int, start as int);
        }
        let ghost after = rest.skip(start - pos + 2);
        assert(after =~= s@.skip(start + 2));
        proof {
            lemma_find_bounds(after, close@);
        }
        let end = match find_in(s, &close, start + 2) {
            None => {
                proof {
                    lemma_find_from(s@, close@, start + 2);
                    if let Some(k) = find(after, close@) {
                        lemma_find_from(after, close@, 0);
                        assert(after.subrange(k, k + 2) =~= s@.subrange(
                            start + 2 + k,
                            start + 2 + k + 2,
                        ));
                        assert(occurs_at(s@, close@, start + 2 + k));
                    }
                    assert(find(after, close@) is None);
                    assert(placeholders(rest) =~= Seq::<Seq<char>>::empty());
                }
                assert(keys@.map_values(|v: Vec<char>| v@) + Seq::<Seq<char>>::empty()
                    =~= keys@.map_values(|v: Vec<char>| v@));
                return keys;
            },
            Some(k) => k,
        };
        proof {
            lemma_shift_find(s@, close@, start + 2, end as int);
        }
        let raw_key = slice_of(s, start + 2, end);
        let key = trimmed(&raw_key);
        assert(raw_key@ =~= after.take(end - start - 2));
        assert(after.skip(end - start - 2 + 2) =~= s@.skip(end + 2));
        let ghost before = keys@.map_values(|v: Vec<char>| v@);
        keys.push(key);
        assert(keys@.map_values(|v: Vec<char>| v@) =~= before.push(key@));
        pos = end + 2;
    }
}

/// One placeholder step of `substitute` and `placeholders`.
proof fn lemma_placeholder_step(rest: Seq<char>, res: Seq<Option<Seq<char>>>, a: int, b: int)
    requires
        find(rest, seq!['{', '{']) == Some(a),
        find(rest.skip(a + 2), seq!['}', '}']) == Some(b),
    ensures
        0 <= a,
        a + 2 <= rest.len(),
        0 <= b,
        b + 2 <= rest.skip(a + 2).len(),
        placeholders(rest) == seq![trim(rest.skip(a + 2).take(b))] + placeholders(
            rest.skip(a + 2).skip(b + 2),
        ),
        substitute(rest, res) == rest.take(a) + (match res[0] {
            Some(v) => v,
            None => seq!['{', '{'] + trim(rest.skip(a + 2).take(b)) + seq!['}', '}'],
        }) + substitute(rest.skip(a + 2).skip(b + 2), res.drop_first()),
{
    lemma_find_bounds(rest, seq!['{', '{']);
    lemma_find_bounds(rest.skip(a + 2), seq!['}', '}']);
}

/// Without a `{{`, or without a `}}` after the first one, nothing is replaced.
proof fn lemma_placeholder_none(rest: Seq<char>, res: Seq<Option<Seq<char>>>)
    requires
        find(rest, seq!['{', '{']) is None || (find(rest, seq!['{', '{']) matches Some(a) && find(
            rest.skip(a + 2),
            seq!['}', '}'],
        ) is None),
    ensures
        placeholders(rest) == Seq::<Seq<char>>::empty(),
        substitute(rest, res) == rest,
{
    lemma_find_bounds(rest, seq!['{', '{']);
}

/// A match found from `from` in `s` is the first match of the suffix at `from`.
proof fn lemma_shift_find(s: Seq<char>, p: Seq<char>, from: int, k: int)
    requires
        0 <= from <= s.len(),
        find_from(s, p, from) == Some(k),
    ensures
        find(s.skip(from), p) == Some(k - from),
        from <= k,
        k + p.len() <= s.len(),
{
    crate::text::lemma_find_from(s, p, from);
    let t = s.skip(from);
    crate::text::lemma_find_from(t, p, 0);
    assert(t.subrange(k - from, k - from + p.len()) =~= s.subrange(k, k + p.len()));
    assert(occurs_at(t, p, k - from));
    assert forall|j: int| 0 <= j < k - from implies !occurs_at(t, p, j) by {
        assert(t.subrange(j, j + p.len()) =~= s.subrange(from + j, from + j + p.len()));
        assert(!occurs_at(s, p, from + j));
    }
    lemma_find_unique(t, p, k - from);
}

/// The first occurrence is the one with no earlier occurrence.
proof fn lemma_find_unique(s: Seq<char>, p: Seq<char>, k: int)
    requires
        occurs_at(s, p, k),
        forall|j: int| 0 <= j < k ==> !occurs_at(s, p, j),
    ensures
        find(s, p) == Some(k),
{
    lemma_find_from_unique(s, p, 0, k);
}

proof fn lemma_find_from_unique(s: Seq<char>, p: Seq<char>, i: int, k: int)
    requires
        0 <= i <= k,
        occurs_at(s, p, k),
        forall|j: int| i <= j < k ==> !occurs_at(s, p, j),
    ensures
        crate::text::find_from(s, p, i) == Some(k),
    decreases k - i,
{
    if i < k {
        lemma_find_from_unique(s, p, i + 1, k);
    }
}


/// The view of an optional character list.
pub open spec fn opt_seq(o: Option<Vec<char>>) -> Option<Seq<char>> {
    match o {
        Some(v) => Some(v@),
        None => None,
    }
}

/// `s` with its placeholders replaced in order by `res`.
pub fn substitute_resolved(s: &Vec<char>, res: &Vec<Option<Vec<char>>>) -> (r: Vec<char>)
    requires
        res@.len() == placeholders(s@).len(),
    ensures
        r@ == substitute(s@, res@.map_values(|o: Option<Vec<char>>| opt_seq(o))),
{
    let ghost rv = res@.map_values(|o: Option<Vec<char>>| opt_seq(o));
    let open = vec!['{', '{'];
    let close = vec!['}', '}'];
    let mut out: Vec<char> = Vec::new();
    let mut pos: usize = 0;
    let mut idx: usize = 0;
    assert(s@.skip(0) =~= s@);
    assert(rv.skip(0) =~= rv);
    loop
        invariant
            pos <= s.len(),
            idx <= res@.len(),
            open@ == seq!['{', '{'],
            close@ == seq!['}', '}'],
            rv == res@.map_values(|o: Option<Vec<char>>| opt_seq(o)),
            idx + placeholders(s@.skip(pos as int)).len() == res@.len(),
            substitute(s@, rv) == out@ + substitute(s@.skip(pos as int), rv.skip(idx as int)),
        decreases s.len() - pos,
    {
        let ghost rest = s@.skip(pos as int);
        let ghost rr = rv.skip(idx as int);
        let start = match find_in(s, &open, pos) {
            None => {
                proof {
                    lemma_no_later_match(s@, open@, pos as int);
                    lemma_placeholder_none(rest, rr);
                }
                let tail = slice_of(s, pos, s.len());
                append(&mut out, &tail);
                assert(tail@ =~= rest);
                return out;
            },
            Some(k) => k,
        };
        proof {
            lemma_shift_find(s@, open@, pos as int, start as int);
        }
        let ghost a = start - pos;
        let ghost after = rest.skip(a + 2);
        assert(after =~= s@.skip(start + 2));
        let end = match find_in(s, &close, start + 2) {
            None => {
                proof {
                    lemma_no_later_match(s@, close@, start + 2);
                    lemma_placeholder_none(rest, rr);
                }
                let tail = slice_of(s, pos, s.len());
                append(&mut out, &tail);
                assert(tail@ =~= rest);
                return out;
            },
            Some(k) => k,
        };
        proof {
            lemma_shift_find(s@, close@, start + 2, end as int);
            lemma_placeholder_step(rest, rr, a, end - start - 2);
        }
        let before = slice_of(s, pos, start);
        append(&mut out, &before);
        assert(before@ =~= rest.take(a));
        let raw_key = slice_of(s, start + 2, end);
        let key = trimmed(&raw_key);
        assert(raw_key@ =~= after.take(end - start - 2));
        assert(after.skip(end - start - 2 + 2) =~= s@.skip(end + 2));
        assert(rr[0] == rv[idx as int]);
        assert(idx < res.len());
        match &res[idx] {
            Some(v) => {
                append(&mut out, v);
            },
            None => {
                out.push('{');
                out.push('{');
                append(&mut out, &key);
                out.push('}');
                out.push('}');
            },
        }
        assert(rr.drop_first() =~= rv.skip(idx + 1));
        pos = end + 2;
        idx = idx + 1;
    }
}

/// Where `find_in` found no match from `from`, the suffix at `from` has none.
proof fn lemma_no_later_match(s: Seq<char>, p: Seq<char>, from: int)
    requires
        0 <= from <= s.len(),
        find_from(s, p, from) is None,
    ensures
        find(s.skip(from), p) is None,
{
    lemma_find_from(s, p, from);
    let t = s.skip(from);
    if let Some(k) = find(t, p) {
        lemma_find_from(t, p, 0);
        assert(t.subrange(k, k + p.len()) =~= s.subrange(from + k, from + k + p.len()));
        assert(occurs_at(s, p, from + k));
    }
}

/// The names of the values drawn afresh for each use.
pub open spec fn is_dynamic_key(key: Seq<char>) -> bool {
    key == "$uuid"@ || key == "$random.uuid"@ || key == "$timestamp"@ || key == "$isoTimestamp"@
}

/// Calls `rand::random` for sixteen random bytes; nothing is known of them.
#[verifier::external_body]
fn random_bytes() -> [u8; 16] {
    rand::random::<[u8; 16]>()
}

/// Calls `chrono::Utc::now` for the current UNIX time in seconds; nothing is
/// known of it.
#[verifier::external_body]
fn now_timestamp_secs() -> i64 {
    chrono::Utc::now().timestamp()
}

/// Whether `y` is a year as RFC 3339 text writes it: four digits, or (outside
/// 0..=9999) a sign and at least four digits.
pub open spec fn year_text(y: Seq<char>) -> bool {
    ||| y.len() == 4 && all_digits(y)
    ||| y.len() >= 5 && (y[0] == '+' || y[0] == '-') && all_digits(y.skip(1))
}

/// Whether `t` is `-MM-DDTHH:MM:SS`, each field two digits.
pub open spec fn clock_text(t: Seq<char>) -> bool {
    &&& t.len() == 15
    &&& t[0] == '-' && t[3] == '-' && t[6] == 'T' && t[9] == ':' && t[12] == ':'
    &&& is_digit(t[1]) && is_digit(t[2]) && is_digit(t[4]) && is_digit(t[5])
    &&& is_digit(t[7]) && is_digit(t[8]) && is_digit(t[10]) && is_digit(t[11])
    &&& is_digit(t[13]) && is_digit(t[14])
}

/// Whether `f` is the fraction of a second as RFC 3339 text writes it: nothing, or
/// `.` and three, six or nine digits.
pub open spec fn fraction_text(f: Seq<char>) -> bool {
    f.len() == 0 || (f[0] == '.' && (f.len() == 4 || f.len() == 7 || f.len() == 10)
        && all_digits(f.skip(1)))
}

/// The offset of UTC as RFC 3339 text writes it without `Z`.
pub open spec fn utc_offset_text() -> Seq<char> {
    seq!['+', '0', '0', ':', '0', '0']
}

/// Whether `v` is a UTC time as `chrono`'s `to_rfc3339` writes it: year, the clock,
/// an optional fraction of a second, and `+00:00`.
pub open spec fn is_rfc3339_utc(v: Seq<char>) -> bool {
    exists|y: Seq<char>, t: Seq<char>, f: Seq<char>|
        #![trigger year_text(y), clock_text(t), fraction_text(f)]
        year_text(y) && clock_text(t) && fraction_text(f) && v == y + t + f + utc_offset_text()
}

/// Calls `chrono::Utc::now` and `to_rfc3339` for the current time as RFC 3339 text.
/// Which time is not known; the shape is what `to_rfc3339` writes for UTC
/// (`write_rfc3339` with `SecondsFormat::AutoSi` and no `Z`): the year (four digits,
/// or a sign and at least four), `-MM-DDTHH:MM:SS`, a fraction of three, six or nine
/// digits when the nanoseconds are not zero, and `+00:00`.
#[verifier::external_body]
fn now_rfc3339() -> (r: String)
    ensures
        is_rfc3339_utc(r@),
{
    chrono::Utc::now().to_rfc3339()
}

/// The hexadecimal digits of `v`, without leading zeros beyond `width`.
pub open spec fn hex_pad(v: u8, width: nat) -> Seq<char> {
    if v < 16 && width <= 1 {
        seq![hex_digit(v)]
    } else {
        seq![hex_digit(v / 16), hex_digit(v % 16)]
    }
}

/// The text of a random (version 4) UUID made of `b`.
pub open spec fn uuid_text(b: Seq<u8>) -> Seq<char> {
    hex_pad(b[0], 2) + hex_pad(b[1], 2) + hex_pad(b[2], 2) + hex_pad(b[3], 2) + seq!['-']
        + hex_pad(b[4], 2) + hex_pad(b[5], 2) + seq!['-', '4'] + hex_pad(b[6] & 0x0f, 1) + hex_pad(
        b[7],
        2,
    ) + seq!['-'] + hex_pad((b[8] & 0x3f) | 0x80, 1) + hex_pad(b[9], 2) + seq!['-'] + hex_pad(
        b[10],
        2,
    ) + hex_pad(b[11], 2) + hex_pad(b[12], 2) + hex_pad(b[13], 2) + hex_pad(b[14], 2) + hex_pad(
        b[15],
        2,
    )
}

fn push_hex(out: &mut Vec<char>, v: u8, width: usize)
    requires
        width <= 2,
    ensures
        final(out)@ == old(out)@ + hex_pad(v, width as nat),
{
    if v < 16 && width <= 1 {
        out.push(crate::certificates::hex_digit_char(v));
    } else {
        out.push(crate::certificates::hex_digit_char(v / 16));
        out.push(crate::certificates::hex_digit_char(v % 16));
    }
    assert(final(out)@ =~= old(out)@ + hex_pad(v, width as nat));
}

/// The text of the UUID made of `b`.
pub fn format_uuid(b: [u8; 16]) -> (r: Vec<char>)
    ensures
        r@ == uuid_text(b@),
{
    let mut out: Vec<char> = Vec::new();
    push_hex(&mut out, b[0], 2);
    push_hex(&mut out, b[1], 2);
    push_hex(&mut out, b[2], 2);
    push_hex(&mut out, b[3], 2);
    out.push('-');
    push_hex(&mut out, b[4], 2);
    push_hex(&mut out, b[5], 2);
    out.push('-');
    out.push('4');
    push_hex(&mut out, b[6] & 0x0f, 1);
    push_hex(&mut out, b[7], 2);
    out.push('-');
    push_hex(&mut out, (b[8] & 0x3f) | 0x80, 1);
    push_hex(&mut out, b[9], 2);
    out.push('-');
    push_hex(&mut out, b[10], 2);
    push_hex(&mut out, b[11], 2);
    push_hex(&mut out, b[12], 2);
    push_hex(&mut out, b[13], 2);
    push_hex(&mut out, b[14], 2);
    push_hex(&mut out, b[15], 2);
    assert(out@ =~= uuid_text(b@));
    out
}

/// Whether `v` has the shape of a value drawn for the dynamic name `key`: a UUID's
/// text for `$uuid` and `$random.uuid`, the decimal text of an `i64` for
/// `$timestamp`, a UTC time as RFC 3339 text for `$isoTimestamp`.
pub open spec fn drawn_fits(key: Seq<char>, v: Seq<char>) -> bool {
    &&& (key == "$uuid"@ || key == "$random.uuid"@) ==> exists|b: Seq<u8>|
        b.len() == 16 && v == #[trigger] uuid_text(b)
    &&& key == "$timestamp"@ ==> exists|t: i64| v == #[trigger] dec_int(t as int)
    &&& key == "$isoTimestamp"@ ==> is_rfc3339_utc(v)
}

/// A value of the shape drawn for `key`, standing for a draw of another shape
/// (which never happens).
pub open spec fn shaped_draw(key: Seq<char>) -> Seq<char> {
    if key == "$uuid"@ || key == "$random.uuid"@ {
        uuid_text(Seq::new(16, |i: int| 0u8))
    } else if key == "$timestamp"@ {
        dec_int(0)
    } else {
        seq!['2', '0', '0', '0'] + seq!['-', '0', '1', '-', '0', '1', 'T', '0', '0', ':', '0', '0', ':', '0', '0']
            + Seq::<char>::empty() + utc_offset_text()
    }
}

/// Every dynamic name has a value of its shape.
pub proof fn lemma_shaped_draw_fits(key: Seq<char>)
    ensures
        drawn_fits(key, shaped_draw(key)),
{
    reveal_strlit("$uuid");
    reveal_strlit("$random.uuid");
    reveal_strlit("$timestamp");
    reveal_strlit("$isoTimestamp");
    if key == "$uuid"@ || key == "$random.uuid"@ {
        let b = Seq::new(16, |i: int| 0u8);
        assert(shaped_draw(key) == uuid_text(b));
        assert(key != "$timestamp"@) by {
            assert(key.len() != "$timestamp"@.len());
        }
        assert(key != "$isoTimestamp"@) by {
            assert(key.len() != "$isoTimestamp"@.len());
        }
    } else if key == "$timestamp"@ {
        assert(shaped_draw(key) == dec_int(0i64 as int));
        assert(key != "$isoTimestamp"@) by {
            assert(key.len() != "$isoTimestamp"@.len());
        }
    } else {
        let y = seq!['2', '0', '0', '0'];
        let t = seq!['-', '0', '1', '-', '0', '1', 'T', '0', '0', ':', '0', '0', ':', '0', '0'];
        let f = Seq::<char>::empty();
        assert(year_text(y));
        assert(clock_text(t));
        assert(fraction_text(f));
        assert(shaped_draw(key) == y + t + f + utc_offset_text());
    }
}

/// The value a dynamic name `key` is replaced by: the drawn value, which always has
/// the shape of `key`'s values (`shaped_draw` stands in for a draw of another shape,
/// which never happens).
pub open spec fn drawn_value(key: Seq<char>, drawn: Seq<char>) -> Option<Seq<char>> {
    if drawn_fits(key, drawn) {
        Some(drawn)
    } else {
        Some(shaped_draw(key))
    }
}

/// A freshly drawn value for a dynamic variable name, or `None` for other names: a
/// random UUID, the UNIX time in seconds, or the time as RFC 3339 text.
pub fn dynamic_variable(key: &Vec<char>) -> (r: Option<Vec<char>>)
    ensures
        r is Some <==> is_dynamic_key(key@),
        r matches Some(v) ==> drawn_fits(key@, v@),
{
    proof {
        reveal_strlit("$uuid");
        reveal_strlit("$random.uuid");
        reveal_strlit("$timestamp");
        reveal_strlit("$isoTimestamp");
        assert("$uuid"@ != "$timestamp"@) by {
            assert("$uuid"@.len() != "$timestamp"@.len());
        }
        assert("$random.uuid"@ != "$timestamp"@) by {
            assert("$random.uuid"@.len() != "$timestamp"@.len());
        }
        assert("$uuid"@ != "$isoTimestamp"@) by {
            assert("$uuid"@.len() != "$isoTimestamp"@.len());
        }
        assert("$random.uuid"@ != "$isoTimestamp"@) by {
            assert("$random.uuid"@.len() != "$isoTimestamp"@.len());
        }
        assert("$timestamp"@ != "$isoTimestamp"@) by {
            assert("$timestamp"@.len() != "$isoTimestamp"@.len());
        }
    }
    if same_chars(key, &chars_of("$uuid")) || same_chars(key, &chars_of("$random.uuid")) {
        let b = random_bytes();
        let u = format_uuid(b);
        assert(b@.len() == 16);
        assert(u@ == uuid_text(b@));
        return Some(u);
    }
    if same_chars(key, &chars_of("$timestamp")) {
        let t = now_timestamp_secs();
        let mut out: Vec<char> = Vec::new();
        push_dec_i64(&mut out, t);
        assert(out@ =~= dec_int(t as int));
        assert(out@ == dec_int(t as int));
        return Some(out);
    }
    if same_chars(key, &chars_of("$isoTimestamp")) {
        let iso = now_rfc3339();
        let v = chars_of(iso.as_str());
        assert(!("$isoTimestamp"@ == "$uuid"@)) by {
            assert("$isoTimestamp"@.len() != "$uuid"@.len());
        }
        assert(!("$isoTimestamp"@ == "$random.uuid"@)) by {
            assert("$isoTimestamp"@.len() != "$random.uuid"@.len());
        }
        assert(!("$isoTimestamp"@ == "$timestamp"@)) by {
            assert("$isoTimestamp"@.len() != "$timestamp"@.len());
        }
        return Some(v);
    }
    None
}

/// How a placeholder is resolved when a plan is read: by a plan variable, else by a
/// drawn dynamic value (`drawn`, of the shape such a value has), else not at all.
pub open spec fn display_resolution(key: Seq<char>, vars: Map<Seq<char>, Seq<char>>, drawn: Seq<char>) -> Option<Seq<char>> {
    if vars.contains_key(key) {
        Some(vars[key])
    } else if is_dynamic_key(key) {
        drawn_value(key, drawn)
    } else {
        None
    }
}

/// `s` with its placeholders resolved when a plan is read; `drawn[k]` is the value
/// drawn for the `k`-th placeholder if it is a dynamic one.
pub open spec fn display_subst(s: Seq<char>, vars: Map<Seq<char>, Seq<char>>, drawn: Seq<Seq<char>>) -> Seq<char> {
    let keys = placeholders(s);
    substitute(s, Seq::new(keys.len(), |k: int| display_resolution(keys[k], vars, drawn[k])))
}

/// `s` with its placeholders resolved by `vars` or by fresh dynamic values, others
/// kept for later; with the values drawn.
pub fn substitute_allow_unresolved(s: &Vec<char>, vars: &Variables) -> (r: (
    Vec<char>,
    Ghost<Seq<Seq<char>>>,
))
    ensures
        r.0@ == display_subst(s@, vars@, r.1@),
        r.1@.len() == placeholders(s@).len(),
        forall|k: int|
            #![trigger r.1@[k]]
            0 <= k < r.1@.len() ==> drawn_fits(placeholders(s@)[k], r.1@[k]),
{
    let keys = placeholder_keys(s);
    let ghost kv = placeholders(s@);
    let mut res: Vec<Option<Vec<char>>> = Vec::new();
    let ghost mut drawn: Seq<Seq<char>> = Seq::empty();
    let mut i: usize = 0;
    while i < keys.len()
        invariant
            i <= keys.len(),
            kv == keys@.map_values(|v: Vec<char>| v@),
            res@.len() == i,
            drawn.len() == i,
            forall|k: int| #![trigger drawn[k]] 0 <= k < i ==> drawn_fits(kv[k], drawn[k]),
            forall|k: int| 0 <= k < i ==> #[trigger] opt_seq(res@[k]) == display_resolution(
                kv[k],
                vars@,
                drawn[k],
            ),
        decreases keys.len() - i,
    {
        let key = &keys[i];
        assert(key@ == kv[i as int]);
        let value = match vars.lookup(key) {
            Some(v) => {
                proof {
                    lemma_shaped_draw_fits(key@);
                    drawn = drawn.push(shaped_draw(key@));
                }
                Some(v)
            },
            None => {
                let d = dynamic_variable(key);
                proof {
                    lemma_shaped_draw_fits(key@);
                    drawn = drawn.push(
                        match opt_seq(d) {
                            Some(v) => v,
                            None => shaped_draw(key@),
                        },
                    );
                }
                d
            },
        };
        res.push(value);
        i = i + 1;
    }
    let out = substitute_resolved(s, &res);
    let ghost rv = res@.map_values(|o: Option<Vec<char>>| opt_seq(o));
    assert(rv =~= Seq::new(kv.len(), |k: int| display_resolution(kv[k], vars@, drawn[k])));
    (out, Ghost(drawn))
}

/// The key of the first placeholder left in `s`, if any.
pub open spec fn first_unresolved(s: Seq<char>) -> Option<Seq<char>> {
    match find(s, seq!['{', '{']) {
        None => None,
        Some(start) => {
            let tail = s.skip(start + 2);
            match find(tail, seq!['}', '}']) {
                None => None,
                Some(end) => Some(trim(tail.take(end))),
            }
        },
    }
}

/// The key of the first placeholder left in `s`.
pub fn first_unresolved_variable(s: &Vec<char>) -> (r: Option<Vec<char>>)
    ensures
        opt_seq(r) == first_unresolved(s@),
{
    let open = vec!['{', '{'];
    let close = vec!['}', '}'];
    proof {
        lemma_find_bounds(s@, open@);
    }
    let start = match find_in(s, &open, 0) {
        None => return None,
        Some(k) => k,
    };
    proof {
        assert(find_from(s@, open@, 0) == Some(start as int));
        lemma_shift_find(s@, open@, 0, start as int);
        assert(s@.skip(0) =~= s@);
    }
    assert(start + 2 <= s.len());
    let ghost tail = s@.skip(start + 2);
    proof {
        lemma_find_bounds(tail, close@);
    }
    let end = match find_in(s, &close, start + 2) {
        None => {
            proof {
                lemma_find_from(s@, close@, start + 2);
                if let Some(k) = find(tail, close@) {
                    lemma_find_from(tail, close@, 0);
                    assert(tail.subrange(k, k + 2) =~= s@.subrange(
                        start + 2 + k,
                        start + 2 + k + 2,
                    ));
                    assert(occurs_at(s@, close@, start + 2 + k));
                }
            }
            return None;
        },
        Some(k) => k,
    };
    proof {
        lemma_shift_find(s@, close@, start + 2, end as int);
    }
    let raw = slice_of(s, start + 2, end);
    assert(raw@ =~= tail.take(end - start - 2));
    Some(trimmed(&raw))
}

/// How a placeholder is resolved when a request runs: by a request variable, a
/// global, a plan variable, a drawn dynamic value (of the shape such a value has), or
/// `$env.NAME` by the environment variable `NAME` (in `env`).
pub open spec fn runtime_resolution(
    key: Seq<char>,
    file_vars: Map<Seq<char>, Seq<char>>,
    globals: Map<Seq<char>, Seq<char>>,
    request_vars: Map<Seq<char>, Seq<char>>,
    env: Map<Seq<char>, Seq<char>>,
    drawn: Seq<char>,
) -> Option<Seq<char>> {
    if request_vars.contains_key(key) {
        Some(request_vars[key])
    } else if globals.contains_key(key) {
        Some(globals[key])
    } else if file_vars.contains_key(key) {
        Some(file_vars[key])
    } else if is_dynamic_key(key) {
        drawn_value(key, drawn)
    } else if "$env."@.is_prefix_of(key) && env.contains_key(key.skip(5)) {
        Some(env[key.skip(5)])
    } else {
        None
    }
}

/// `s` with its placeholders resolved when a request runs; `drawn[k]` is the value
/// drawn for the `k`-th placeholder if it is a dynamic one.
pub open spec fn runtime_subst(
    s: Seq<char>,
    file_vars: Map<Seq<char>, Seq<char>>,
    globals: Map<Seq<char>, Seq<char>>,
    request_vars: Map<Seq<char>, Seq<char>>,
    env: Map<Seq<char>, Seq<char>>,
    drawn: Seq<Seq<char>>,
) -> Seq<char> {
    let keys = placeholders(s);
    substitute(
        s,
        Seq::new(
            keys.len(),
            |k: int| runtime_resolution(keys[k], file_vars, globals, request_vars, env, drawn[k]),
        ),
    )
}

/// The error for a placeholder left unresolved when a request runs.
pub open spec fn unresolved_error(key: Seq<char>) -> (ErrorKind, Seq<char>) {
    (ErrorKind::BadRequest, "unresolved variable {{"@ + key + "}}"@)
}

/// What resolving `s` when a request runs gives: the text, or the error for the
/// first placeholder left in it.
pub open spec fn runtime_result(
    s: Seq<char>,
    file_vars: Map<Seq<char>, Seq<char>>,
    globals: Map<Seq<char>, Seq<char>>,
    request_vars: Map<Seq<char>, Seq<char>>,
    env: Map<Seq<char>, Seq<char>>,
    drawn: Seq<Seq<char>>,
) -> Result<Seq<char>, (ErrorKind, Seq<char>)> {
    let out = runtime_subst(s, file_vars, globals, request_vars, env, drawn);
    match first_unresolved(out) {
        Some(k) => Err(unresolved_error(k)),
        None => Ok(out),
    }
}

/// The value of the environment variable named by a `$env.NAME` key.
fn env_value(key: &Vec<char>, env: &Variables) -> (r: Option<Vec<char>>)
    ensures
        r matches Some(v) ==> "$env."@.is_prefix_of(key@) && env@.contains_key(key@.skip(5))
            && env@[key@.skip(5)] == v@,
        r is None ==> !("$env."@.is_prefix_of(key@) && env@.contains_key(key@.skip(5))),
{
    let prefix = chars_of("$env.");
    proof {
        reveal_strlit("$env.");
    }
    if !crate::text::starts_with(key, &prefix) {
        return None;
    }
    let name = slice_of(key, 5, key.len());
    assert(name@ =~= key@.skip(5));
    env.lookup(&name)
}

/// `value` with its placeholders resolved when a request runs, or the error for the
/// first placeholder left in the result; with the values drawn.
pub fn substitute_runtime(
    value: &str,
    file_vars: &Variables,
    globals: &Variables,
    request_vars: &Variables,
    env: &Variables,
) -> (r: (AppResult<String>, Ghost<Seq<Seq<char>>>))
    ensures
        match runtime_result(value@, file_vars@, globals@, request_vars@, env@, r.1@) {
            Ok(t) => r.0 matches Ok(x) && x@ == t,
            Err(e) => r.0 matches Err(x) && x@ == e,
        },
        r.1@.len() == placeholders(value@).len(),
        forall|k: int|
            #![trigger r.1@[k]]
            0 <= k < r.1@.len() ==> drawn_fits(placeholders(value@)[k], r.1@[k]),
{
    let s = chars_of(value);
    let keys = placeholder_keys(&s);
    let ghost kv = placeholders(s@);
    let mut res: Vec<Option<Vec<char>>> = Vec::new();
    let ghost mut drawn: Seq<Seq<char>> = Seq::empty();
    let mut i: usize = 0;
    while i < keys.len()
        invariant
            i <= keys.len(),
            kv == keys@.map_values(|v: Vec<char>| v@),
            res@.len() == i,
            drawn.len() == i,
            forall|k: int| #![trigger drawn[k]] 0 <= k < i ==> drawn_fits(kv[k], drawn[k]),
            forall|k: int|
                0 <= k < i ==> #[trigger] opt_seq(res@[k]) == runtime_resolution(
                    kv[k],
                    file_vars@,
                    globals@,
                    request_vars@,
                    env@,
                    drawn[k],
                ),
        decreases keys.len() - i,
    {
        let key = &keys[i];
        assert(key@ == kv[i as int]);
        let ghost mut d: Seq<char> = shaped_draw(key@);
        proof {
            lemma_shaped_draw_fits(key@);
        }
        let value = match request_vars.lookup(key) {
            Some(v) => Some(v),
            None => match globals.lookup(key) {
                Some(v) => Some(v),
                None => match file_vars.lookup(key) {
                    Some(v) => Some(v),
                    None => match dynamic_variable(key) {
                        Some(v) => {
                            proof {
                                d = v@;
                            }
                            Some(v)
                        },
                        None => env_value(key, env),
                    },
                },
            },
        };
        proof {
            drawn = drawn.push(d);
        }
        res.push(value);
        i = i + 1;
    }
    let out = substitute_resolved(&s, &res);
    let ghost rv = res@.map_values(|o: Option<Vec<char>>| opt_seq(o));
    assert(rv =~= Seq::new(
        kv.len(),
        |k: int| runtime_resolution(kv[k], file_vars@, globals@, request_vars@, env@, drawn[k]),
    ));
    match first_unresolved_variable(&out) {
        Some(k) => {
            let mut m = chars_of("unresolved variable {{");
            append(&mut m, &k);
            append(&mut m, &chars_of("}}"));
            proof {
                reveal_strlit("unresolved variable {{");
                reveal_strlit("}}");
            }
            (Err(AppError::BadRequest(string_of(&m))), Ghost(drawn))
        },
        None => (Ok(string_of(&out)), Ghost(drawn)),
    }
}

} // verus!
