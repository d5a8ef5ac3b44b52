//! Merge sort of lane words.

use vstd::prelude::*;
use vstd::multiset::Multiset;

verus! {

/// Whether `s` is in ascending order.
pub open spec fn ascending(s: Seq<u64>) -> bool {
    forall|i: int, j: int| 0 <= i < j < s.len() ==> s[i] <= s[j]
}

proof fn lemma_multiset_split(s: Seq<u64>, k: int)
    requires
        0 <= k <= s.len(),
    ensures
        s.to_multiset() == s.take(k).to_multiset().add(s.skip(k).to_multiset()),
{
    vstd::seq_lib::lemma_multiset_commutative(s.take(k), s.skip(k));
    assert(s.take(k) + s.skip(k) =~= s);
}

/// Merge two ascending lists.
fn merge(a: &Vec<u64>, b: &Vec<u64>) -> (out: Vec<u64>)
    requires
        ascending(a@),
        ascending(b@),
    ensures
        ascending(out@),
        out@.to_multiset() == a@.to_multiset().add(b@.to_multiset()),
{
    let mut out: Vec<u64> = Vec::new();
    let mut i: usize = 0;
    let mut j: usize = 0;
    proof {
        assert(out@.to_multiset() =~= Multiset::empty()) by {
            out@.to_multiset_ensures();
        }
        assert(a@.take(0) =~= Seq::empty());
        assert(b@.take(0) =~= Seq::empty());
        assert(out@.to_multiset() =~= a@.take(0).to_multiset().add(b@.take(0).to_multiset()));
    }
    while i < a.len() || j < b.len()
        invariant
            i <= a.len(),
            j <= b.len(),
            ascending(a@),
            ascending(b@),
            ascending(out@),
            out@.to_multiset() == a@.take(i as int).to_multiset().add(
                b@.take(j as int).to_multiset(),
            ),
            forall|k: int| 0 <= k < out.len() && i < a.len() ==> out@[k] <= a@[i as int],
            forall|k: int| 0 <= k < out.len() && j < b.len() ==> out@[k] <= b@[j as int],
        decreases (a.len() - i) + (b.len() - j),
    {
        let from_a: bool = if i >= a.len() {
            false
        } else if j >= b.len() {
            true
        } else {
            a[i] <= b[j]
        };
        let ghost before = out@;
        if from_a {
            let v: u64 = a[i];
            out.push(v);
            proof {
                before.to_multiset_ensures();
                assert(a@.take(i + 1) =~= a@.take(i as int).push(v));
                a@.take(i as int).to_multiset_ensures();
                assert(out@.to_multiset() =~= a@.take(i + 1).to_multiset().add(
                    b@.take(j as int).to_multiset(),
                ));
            }
            i = i + 1;
        } else {
            let v: u64 = b[j];
            out.push(v);
            proof {
                before.to_multiset_ensures();
                assert(b@.take(j + 1) =~= b@.take(j as int).push(v));
                b@.take(j as int).to_multiset_ensures();
                assert(out@.to_multiset() =~= a@.take(i as int).to_multiset().add(
                    b@.take(j + 1).to_multiset(),
                ));
            }
            j = j + 1;
        }
    }
    proof {
        assert(a@.take(a.len() as int) =~= a@);
        assert(b@.take(b.len() as int) =~= b@);
    }
    out
}

/// The words of `v` in ascending order.
pub fn sorted_words(v: &[u64]) -> (out: Vec<u64>)
    ensures
        ascending(out@),
        out@.to_multiset() == v@.to_multiset(),
    decreases v.len(),
{
    if v.len() <= 1 {
        let mut out: Vec<u64> = Vec::new();
        out.extend_from_slice(v);
        assert(out@ =~= v@);
        return out;
    }
    let half: usize = v.len() / 2;
    let left = sorted_words(vstd::slice::slice_subrange(v, 0, half));
    let right = sorted_words(vstd::slice::slice_subrange(v, half, v.len()));
    proof {
        assert(v@.subrange(0, half as int) =~= v@.take(half as int));
        assert(v@.subrange(half as int, v.len() as int) =~= v@.skip(half as int));
        lemma_multiset_split(v@, half as int);
    }
    merge(&left, &right)
}

/// A list sorted from one without repeats holds the same words, strictly
/// ascending.
pub proof fn lemma_sorted_distinct(s: Seq<u64>, t: Seq<u64>)
    requires
        ascending(t),
        t.to_multiset() == s.to_multiset(),
        s.no_duplicates(),
    ensures
        t.len() == s.len(),
        t.no_duplicates(),
        forall|v: u64| #[trigger] t.contains(v) <==> s.contains(v),
        forall|i: int, j: int| 0 <= i < j < t.len() ==> t[i] < t[j],
{
    s.to_multiset_ensures();
    t.to_multiset_ensures();
    assert(t.len() == s.len());
    assert forall|v: u64| #[trigger] t.contains(v) <==> s.contains(v) by {
        assert(t.contains(v) <==> t.to_multiset().count(v) > 0);
        assert(s.contains(v) <==> s.to_multiset().count(v) > 0);
    }
    s.lemma_multiset_has_no_duplicates();
    t.lemma_multiset_has_no_duplicates_conv();
    assert forall|i: int, j: int| 0 <= i < j < t.len() implies t[i] < t[j] by {
        assert(t[i] != t[j]);
    }
}

/// Appending a number moves an extreme at most to that number.
pub proof fn lemma_push_extremes(ds: Seq<int>, d: int)
    ensures
        ds.len() == 0 ==> ds.push(d).min() == d && ds.push(d).max() == d,
        ds.len() > 0 ==> ds.push(d).min() == (if d < ds.min() {
            d
        } else {
            ds.min()
        }) && ds.push(d).max() == (if d > ds.max() {
            d
        } else {
            ds.max()
        }),
    decreases ds.len(),
{
    let next = ds.push(d);
    next.min_ensures();
    next.max_ensures();
    assert(next[ds.len() as int] == d);
    if ds.len() > 0 {
        ds.min_ensures();
        ds.max_ensures();
        let a = ds.min();
        let b = ds.max();
        let i = choose|i: int| 0 <= i < ds.len() && ds[i] == a;
        let j = choose|j: int| 0 <= j < ds.len() && ds[j] == b;
        assert(next[i] == a && next[j] == b);
        let x = next.min();
        let y = next.max();
        let p = choose|p: int| 0 <= p < next.len() && next[p] == x;
        let q = choose|q: int| 0 <= q < next.len() && next[q] == y;
        assert(p < ds.len() ==> ds[p] == x);
        assert(q < ds.len() ==> ds[q] == y);
    }
}

/// The least of a list is at most its greatest.
pub proof fn lemma_min_le_max(ds: Seq<int>)
    requires
        ds.len() > 0,
    ensures
        ds.min() <= ds.max(),
{
    ds.min_ensures();
    ds.max_ensures();
    assert(ds.min() <= ds[0]);
    assert(ds[0] <= ds.max());
}

} // verus!
