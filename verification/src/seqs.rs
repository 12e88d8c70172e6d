//! Facts about sequences and multisets that the rest of the crate leans on.

use vstd::multiset::Multiset;
use vstd::prelude::*;
use vstd::relations::{sorted_by, total_ordering};
use vstd::set_lib::{lemma_int_range, lemma_len_subset, set_int_range};
use vstd::seq_lib::{
    lemma_sorted_unique, to_multiset_build, to_multiset_contains, to_multiset_insert,
    to_multiset_len, to_multiset_remove, to_multiset_update,
};

verus! {

/// The usual order of the integers, as a relation.
pub open spec fn int_le() -> spec_fn(int, int) -> bool {
    |x: int, y: int| x <= y
}

/// No element of the sequence is followed by a smaller one.
pub open spec fn ascending(s: Seq<int>) -> bool {
    forall|i: int, j: int| 0 <= i < j < s.len() ==> s[i] <= s[j]
}

/// The elements of `s` in ascending order.
pub open spec fn sorted(s: Seq<int>) -> Seq<int> {
    s.sort_by(int_le())
}

/// A sequence without elements has none in its multiset.
pub proof fn lemma_empty_multiset<A>(s: Seq<A>)
    requires
        s.len() == 0,
    ensures
        s.to_multiset() == Multiset::<A>::empty(),
{
    to_multiset_len(s);
    vstd::multiset::lemma_multiset_empty_len(s.to_multiset());
    assert(s.to_multiset() =~= Multiset::<A>::empty());
}

/// A sequence that has grown by one element holds that element and what it
/// held before, and nothing else.
pub proof fn lemma_push_contains<A>(s: Seq<A>, added: A, x: A)
    ensures
        s.push(added).contains(x) <==> s.contains(x) || x == added,
{
    if s.contains(x) {
        let i = choose|i: int| 0 <= i < s.len() && s[i] == x;
        assert(s.push(added)[i] == x);
    }
    if x == added {
        assert(s.push(added)[s.len() as int] == x);
    }
}

/// Exchanging two elements of a sequence leaves its multiset as it was.
pub proof fn lemma_swap_keeps_multiset<A>(s: Seq<A>, i: int, j: int)
    requires
        0 <= i < s.len(),
        0 <= j < s.len(),
    ensures
        s.update(i, s[j]).update(j, s[i]).to_multiset() == s.to_multiset(),
{
    broadcast use vstd::multiset::group_multiset_axioms;

    let m = s.to_multiset();
    assert(m.count(s[i]) > 0) by {
        assert(s.contains(s[i]));
        to_multiset_contains(s, s[i]);
    }
    to_multiset_update(s, i, s[j]);
    to_multiset_update(s.update(i, s[j]), j, s[i]);
    assert(s.update(i, s[j])[j] == s[j]);
    assert(s.update(i, s[j]).update(j, s[i]).to_multiset() == m.insert(s[j]).remove(s[i]).insert(
        s[i],
    ).remove(s[j]));
    assert(s.update(i, s[j]).update(j, s[i]).to_multiset() =~= s.to_multiset());
}

/// Two sequences with the same elements still have the same elements after
/// one function has been applied to each element of both.
pub proof fn lemma_map_keeps_multiset<A, B>(s1: Seq<A>, s2: Seq<A>, f: spec_fn(A) -> B)
    requires
        s1.to_multiset() == s2.to_multiset(),
    ensures
        s1.map_values(f).to_multiset() == s2.map_values(f).to_multiset(),
    decreases s1.len(),
{
    broadcast use vstd::multiset::group_multiset_axioms;

    to_multiset_len(s1);
    to_multiset_len(s2);
    if s1.len() == 0 {
        assert(s1.map_values(f) =~= s2.map_values(f));
    } else {
        let x = s1.last();
        let front = s1.drop_last();
        assert(s1 =~= front.push(x));
        to_multiset_build(front, x);
        assert(s2.to_multiset().count(x) > 0);
        to_multiset_contains(s2, x);
        let i = choose|i: int| 0 <= i < s2.len() && s2[i] == x;
        let rest = s2.remove(i);
        to_multiset_remove(s2, i);
        assert(front.to_multiset() =~= rest.to_multiset());
        lemma_map_keeps_multiset(front, rest, f);
        assert(s1.map_values(f) =~= front.map_values(f).push(f(x)));
        assert(s2.map_values(f) =~= rest.map_values(f).insert(i, f(x)));
        to_multiset_build(front.map_values(f), f(x));
        to_multiset_insert(rest.map_values(f), i, f(x));
    }
}

/// The order of the integers is a total order.
pub proof fn lemma_int_le_total()
    ensures
        total_ordering(int_le()),
{
    let le = int_le();
    assert forall|x: int, y: int| #[trigger] le(x, y) && #[trigger] le(y, x) implies x == y by {}
    assert forall|x: int, y: int, z: int| #[trigger] le(x, y) && #[trigger] le(y, z) implies le(
        x,
        z,
    ) by {}
}

/// What `sorted` returns is ascending and holds the elements of its
/// argument, each as often as the argument does.
pub proof fn lemma_sorted(s: Seq<int>)
    ensures
        ascending(sorted(s)),
        sorted(s).to_multiset() == s.to_multiset(),
        sorted(s).len() == s.len(),
{
    lemma_int_le_total();
    s.lemma_sort_by_ensures(int_le());
    to_multiset_len(s);
    to_multiset_len(sorted(s));
    let r = sorted(s);
    assert forall|i: int, j: int| 0 <= i < j < r.len() implies r[i] <= r[j] by {
        assert(int_le()(r[i], r[j]));
    }
}

/// There is only one way to put given integers into ascending order.
pub proof fn lemma_ascending_unique(a: Seq<int>, b: Seq<int>)
    requires
        ascending(a),
        ascending(b),
        a.to_multiset() == b.to_multiset(),
    ensures
        a == b,
{
    lemma_int_le_total();
    assert(sorted_by(a, int_le()));
    assert(sorted_by(b, int_le()));
    lemma_sorted_unique(a, b, int_le());
}

/// An ascending sequence is its own sorting.
pub proof fn lemma_sorted_of_ascending(s: Seq<int>)
    requires
        ascending(s),
    ensures
        sorted(s) == s,
{
    lemma_sorted(s);
    lemma_ascending_unique(sorted(s), s);
}

/// Sequences with the same elements have the same sorting, and no others do.
pub proof fn lemma_sorted_same(a: Seq<int>, b: Seq<int>)
    ensures
        sorted(a) == sorted(b) <==> a.to_multiset() == b.to_multiset(),
{
    lemma_sorted(a);
    lemma_sorted(b);
    if a.to_multiset() == b.to_multiset() {
        lemma_ascending_unique(sorted(a), sorted(b));
    }
}

/// The sequences of `len` integers, each at least 0 and below `bound`.
pub open spec fn bounded_seqs(len: nat, bound: int) -> Set<Seq<int>> {
    Set::new(
        |s: Seq<int>|
            s.len() == len && forall|i: int|
                0 <= i < s.len() ==> 0 <= #[trigger] s[i] && s[i] < bound,
    )
}

/// There are only finitely many sequences of a given length over a given
/// range of integers.
pub proof fn lemma_bounded_seqs_finite(len: nat, bound: int)
    requires
        0 <= bound,
    ensures
        bounded_seqs(len, bound).finite(),
    decreases len,
{
    if len == 0 {
        let only = Set::<Seq<int>>::empty().insert(Seq::<int>::empty());
        assert forall|s: Seq<int>| bounded_seqs(0, bound).contains(s) implies only.contains(s) by {
            assert(s =~= Seq::<int>::empty());
        }
        assert(bounded_seqs(0, bound) =~= only);
    } else {
        let shorter = bounded_seqs((len - 1) as nat, bound);
        lemma_bounded_seqs_finite((len - 1) as nat, bound);
        let digits = set_int_range(0, bound);
        lemma_int_range(0, bound);
        let grow = |s: Seq<int>| digits.map_by(|x: int| s.push(x), |t: Seq<int>| t.last());
        let shrink = |t: Seq<int>| t.drop_last();
        assert forall|s: Seq<int>| shorter.contains(s) implies (#[trigger] grow(s)).finite() by {
            digits.lemma_map_by_finite(|x: int| s.push(x), |t: Seq<int>| t.last());
        }
        shorter.lemma_map_flatten_by_finite(grow, shrink);
        let grown = shorter.map_flatten_by(grow, shrink);
        assert forall|t: Seq<int>| bounded_seqs(len, bound).contains(t) implies grown.contains(
            t,
        ) by {
            let s = t.drop_last();
            assert(shorter.contains(s)) by {
                assert forall|i: int| 0 <= i < s.len() implies 0 <= #[trigger] s[i] && s[i]
                    < bound by {
                    assert(s[i] == t[i]);
                }
            }
            assert(digits.contains(t.last()));
            assert(t =~= s.push(t.last()));
            assert(grow(s).contains(t));
        }
        assert(bounded_seqs(len, bound).subset_of(grown));
        lemma_len_subset(bounded_seqs(len, bound), grown);
    }
}

} // verus!
