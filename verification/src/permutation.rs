//! Reorderings: what a shuffle keeps.

use vstd::prelude::*;

verus! {

/// Reordering a sequence reorders what a function makes of its elements.
pub proof fn lemma_permutation_maps<A, B>(a: Seq<A>, b: Seq<A>, f: spec_fn(A) -> B)
    requires
        a.to_multiset() == b.to_multiset(),
    ensures
        a.map_values(f).to_multiset() == b.map_values(f).to_multiset(),
    decreases a.len(),
{
    vstd::seq_lib::to_multiset_len(a);
    vstd::seq_lib::to_multiset_len(b);
    if a.len() == 0 {
        assert(a.map_values(f) =~= b.map_values(f));
    } else {
        let last = a.last();
        let shorter = a.drop_last();
        assert(a[a.len() - 1] == last);
        assert(a.contains(last));
        vstd::seq_lib::to_multiset_contains(a, last);
        vstd::seq_lib::to_multiset_contains(b, last);
        let i = b.index_of(last);
        let rest = b.remove(i);
        assert(shorter =~= a.remove(a.len() - 1));
        vstd::seq_lib::to_multiset_remove(a, a.len() - 1);
        vstd::seq_lib::to_multiset_remove(b, i);
        lemma_permutation_maps(shorter, rest, f);
        assert(a.map_values(f) =~= shorter.map_values(f).push(f(last)));
        assert(b.map_values(f) =~= rest.map_values(f).insert(i, f(last)));
        vstd::seq_lib::to_multiset_build(shorter.map_values(f), f(last));
        vstd::seq_lib::to_multiset_insert(rest.map_values(f), i, f(last));
    }
}

/// A reordering of a list without repetitions has none either, and holds
/// the same items.
pub proof fn lemma_permutation_keeps_distinct<A>(a: Seq<A>, b: Seq<A>)
    requires
        a.to_multiset() == b.to_multiset(),
        a.no_duplicates(),
    ensures
        b.no_duplicates(),
        b.len() == a.len(),
        forall|item: A| a.contains(item) <==> b.contains(item),
{
    vstd::seq_lib::to_multiset_len(a);
    vstd::seq_lib::to_multiset_len(b);
    a.lemma_multiset_has_no_duplicates();
    b.lemma_multiset_has_no_duplicates_conv();
    assert forall|item: A| a.contains(item) <==> b.contains(item) by {
        vstd::seq_lib::to_multiset_contains(a, item);
        vstd::seq_lib::to_multiset_contains(b, item);
    }
}

} // verus!
