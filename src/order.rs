//! Sorting of integer triples, done in parallel.

use vstd::prelude::*;
use rayon::slice::ParallelSliceMut;

verus! {

/// `a` comes before or with `b` in lexicographic order.
pub open spec fn triple_le(a: (u64, u64, u64), b: (u64, u64, u64)) -> bool {
    a.0 < b.0 || (a.0 == b.0 && (a.1 < b.1 || (a.1 == b.1 && a.2 <= b.2)))
}

/// `a` comes strictly before `b` in lexicographic order.
pub open spec fn triple_lt(a: (u64, u64, u64), b: (u64, u64, u64)) -> bool {
    triple_le(a, b) && a != b
}

/// The triples are in lexicographic order.
pub open spec fn triples_sorted(s: Seq<(u64, u64, u64)>) -> bool {
    forall|i: int, j: int| 0 <= i < j < s.len() ==> triple_le(#[trigger] s[i], #[trigger] s[j])
}

/// Relies on rayon's `ParallelSliceMut::par_sort`: it reorders the slice into the
/// order of `Ord`, which std defines on tuples as lexicographic.
#[verifier::external_body]
pub(crate) fn sort_triples(v: &mut Vec<(u64, u64, u64)>)
    ensures
        final(v)@.to_multiset() == old(v)@.to_multiset(),
        triples_sorted(final(v)@),
{
    v.par_sort();
}

/// A sorted sequence without repeats is strictly increasing.
pub proof fn lemma_sorted_distinct_strict(s: Seq<(u64, u64, u64)>)
    requires
        triples_sorted(s),
        s.no_duplicates(),
    ensures
        forall|i: int, j: int| 0 <= i < j < s.len() ==> triple_lt(#[trigger] s[i], #[trigger] s[j]),
{
    assert forall|i: int, j: int| 0 <= i < j < s.len() implies triple_lt(
        #[trigger] s[i],
        #[trigger] s[j],
    ) by {
        assert(triple_le(s[i], s[j]));
        assert(s[i] != s[j]);
    }
}

/// Sorting keeps the elements: a sequence with the same multiset holds the same
/// elements, and has no repeats when the other has none.
pub proof fn lemma_same_multiset(a: Seq<(u64, u64, u64)>, b: Seq<(u64, u64, u64)>)
    requires
        a.to_multiset() == b.to_multiset(),
    ensures
        forall|x: (u64, u64, u64)| a.contains(x) <==> b.contains(x),
        b.no_duplicates() ==> a.no_duplicates(),
        a.len() == b.len(),
{
    a.to_multiset_ensures();
    b.to_multiset_ensures();
    broadcast use vstd::seq_lib::group_to_multiset_ensures;

    assert forall|x: (u64, u64, u64)| a.contains(x) <==> b.contains(x) by {
        a.to_multiset_ensures();
        b.to_multiset_ensures();
        assert(a.to_multiset().count(x) == b.to_multiset().count(x));
        assert(a.contains(x) == (a.to_multiset().count(x) > 0));
        assert(b.contains(x) == (b.to_multiset().count(x) > 0));
    }
    if b.no_duplicates() {
        b.lemma_multiset_has_no_duplicates();
        a.lemma_multiset_has_no_duplicates_conv();
    }
}

} // verus!
