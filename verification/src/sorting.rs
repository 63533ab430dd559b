//! Stable ordering of records by a timestamp, newest first.
use vstd::prelude::*;

verus! {

/// A record ordered by a timestamp.
pub trait Timestamped {
    /// The timestamp the record is ordered by.
    spec fn stamp(&self) -> int;

    /// The timestamp the record is ordered by.
    fn timestamp(&self) -> (t: i64)
        ensures
            t == self.stamp(),
    ;
}

/// The number of leading records of `s` stamped at or after `t`.
pub open spec fn stamped_since<T: Timestamped>(s: Seq<T>, t: int) -> nat
    decreases s.len(),
{
    if s.len() > 0 && s[0].stamp() >= t {
        1 + stamped_since(s.drop_first(), t)
    } else {
        0
    }
}

/// `sorted` with `x` placed after every record stamped at or after it.
pub open spec fn place<T: Timestamped>(sorted: Seq<T>, x: T) -> Seq<T> {
    sorted.insert(stamped_since(sorted, x.stamp()) as int, x)
}

/// `s` ordered newest first, records with equal stamps kept in their order.
pub open spec fn newest_first<T: Timestamped>(s: Seq<T>) -> Seq<T>
    decreases s.len(),
{
    if s.len() == 0 {
        Seq::empty()
    } else {
        place(newest_first(s.drop_last()), s.last())
    }
}

/// Whether `s` is ordered newest first.
pub open spec fn is_newest_first<T: Timestamped>(s: Seq<T>) -> bool {
    forall|i: int, j: int| 0 <= i < j < s.len() ==> s[i].stamp() >= s[j].stamp()
}

proof fn lemma_stamped_since<T: Timestamped>(s: Seq<T>, t: int)
    ensures
        stamped_since(s, t) <= s.len(),
        forall|i: int| 0 <= i < stamped_since(s, t) ==> (#[trigger] s[i]).stamp() >= t,
        stamped_since(s, t) < s.len() ==> s[stamped_since(s, t) as int].stamp() < t,
    decreases s.len(),
{
    if s.len() > 0 && s[0].stamp() >= t {
        lemma_stamped_since(s.drop_first(), t);
        assert forall|i: int| 0 <= i < stamped_since(s, t) implies (#[trigger] s[i]).stamp() >= t by {
            if i > 0 {
                assert(s[i] == s.drop_first()[i - 1]);
            }
        }
        if stamped_since(s, t) < s.len() {
            assert(s[stamped_since(s, t) as int] == s.drop_first()[stamped_since(s, t) - 1]);
        }
    }
}

proof fn lemma_place_sorted<T: Timestamped>(sorted: Seq<T>, x: T)
    requires
        is_newest_first(sorted),
    ensures
        is_newest_first(place(sorted, x)),
        place(sorted, x).to_multiset() == sorted.to_multiset().insert(x),
        place(sorted, x).len() == sorted.len() + 1,
{
    let p = stamped_since(sorted, x.stamp()) as int;
    lemma_stamped_since(sorted, x.stamp());
    let r = place(sorted, x);
    assert forall|i: int, j: int| 0 <= i < j < r.len() implies r[i].stamp() >= r[j].stamp() by {
        if j < p {
        } else if j == p {
            assert(r[j] == x);
            assert(r[i] == sorted[i]);
        } else if i < p {
            assert(r[i] == sorted[i]);
            assert(r[j] == sorted[j - 1]);
        } else if i == p {
            assert(r[i] == x);
            assert(r[j] == sorted[j - 1]);
            if p < sorted.len() {
                assert(sorted[p].stamp() < x.stamp());
                assert(sorted[p].stamp() >= sorted[j - 1].stamp() || j - 1 == p);
            }
        } else {
            assert(r[i] == sorted[i - 1]);
            assert(r[j] == sorted[j - 1]);
        }
    }
    vstd::seq_lib::to_multiset_insert(sorted, p, x);
}

/// `newest_first(s)` is ordered newest first and holds the records of `s`.
pub proof fn lemma_newest_first<T: Timestamped>(s: Seq<T>)
    ensures
        is_newest_first(newest_first(s)),
        newest_first(s).to_multiset() == s.to_multiset(),
        newest_first(s).len() == s.len(),
    decreases s.len(),
{
    if s.len() == 0 {
        assert(newest_first(s) =~= s);
    } else {
        lemma_newest_first(s.drop_last());
        lemma_place_sorted(newest_first(s.drop_last()), s.last());
        assert(s =~= s.drop_last().push(s.last()));
        vstd::seq_lib::to_multiset_build(s.drop_last(), s.last());
    }
}

/// Orders records newest first, keeping the order of records with equal stamps.
pub fn sort_newest_first<T: Timestamped>(v: Vec<T>) -> (r: Vec<T>)
    ensures
        r@ == newest_first(v@),
        is_newest_first(r@),
        r@.to_multiset() == v@.to_multiset(),
{
    let ghost orig = v@;
    assert(orig.len() == v.len());
    let mut input = v;
    let mut out: Vec<T> = Vec::new();
    let mut k: usize = 0;
    assert(orig.take(0) =~= Seq::<T>::empty());
    assert(orig.skip(0) =~= orig);
    while input.len() > 0
        invariant
            k + input.len() == orig.len(),
            orig.len() <= usize::MAX,
            input@ == orig.skip(k as int),
            out@ == newest_first(orig.take(k as int)),
        decreases input.len(),
    {
        let x = input.remove(0);
        assert(x == orig[k as int]);
        let t = x.timestamp();
        let mut p: usize = 0;
        proof {
            lemma_newest_first(orig.take(k as int));
        }
        while p < out.len() && out[p].timestamp() >= t
            invariant
                p <= out.len(),
                t == x.stamp(),
                forall|i: int| 0 <= i < p ==> (#[trigger] out@[i]).stamp() >= t,
            decreases out.len() - p,
        {
            p = p + 1;
        }
        proof {
            lemma_stamped_since(out@, t as int);
            lemma_stamped_exact(out@, t as int, p as int);
        }
        out.insert(p, x);
        assert(orig.take(k + 1).drop_last() =~= orig.take(k as int));
        assert(orig.take(k + 1).last() == x);
        assert(input@ =~= orig.skip(k + 1));
        k = k + 1;
    }
    assert(orig.take(k as int) =~= orig);
    proof {
        lemma_newest_first(orig);
    }
    out
}

proof fn lemma_stamped_exact<T: Timestamped>(s: Seq<T>, t: int, p: int)
    requires
        0 <= p <= s.len(),
        forall|i: int| 0 <= i < p ==> (#[trigger] s[i]).stamp() >= t,
        p == s.len() || s[p].stamp() < t,
    ensures
        stamped_since(s, t) == p,
    decreases p,
{
    if p > 0 {
        assert forall|i: int| 0 <= i < p - 1 implies (#[trigger] s.drop_first()[i]).stamp() >= t by {
            assert(s.drop_first()[i] == s[i + 1]);
        }
        if p < s.len() {
            assert(s.drop_first()[p - 1] == s[p]);
        }
        lemma_stamped_exact(s.drop_first(), t, p - 1);
    }
}

} // verus!
