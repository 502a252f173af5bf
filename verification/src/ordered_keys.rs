//! Facts that make the ordered `std` collections usable with `usize` keys.

use vstd::prelude::*;
use vstd::laws_cmp::group_laws_cmp;
use vstd::laws_cmp::obeys_cmp;
use vstd::std_specs::btree::axiom_increasing_seq_meaning;
use vstd::std_specs::btree::increasing_seq;
use vstd::std_specs::cmp::OrdSpec;
use crate::seq_facts::strictly_increasing;

verus! {

/// `usize` keys, and references to them, are totally ordered the way the
/// ordered collections expect.
pub proof fn lemma_usize_keys_ordered()
    ensures
        obeys_cmp::<usize>(),
        obeys_cmp::<&usize>(),
{
    broadcast use group_laws_cmp;

}

/// `a` comes before `b` in the order of `K`.
spec fn ordered_before<K: Ord>(a: K, b: K) -> bool {
    a.cmp_spec(&b) is Less
}

/// A sequence of key references in increasing order gives strictly
/// increasing keys.
pub proof fn lemma_increasing_keys(s: Seq<&usize>)
    requires
        increasing_seq(s),
    ensures
        strictly_increasing(s.unref()),
{
    lemma_usize_keys_ordered();
    axiom_increasing_seq_meaning(s);
    assert forall|i: int, j: int| 0 <= i < j < s.unref().len() implies s.unref()[i] < s.unref()[j] by {
        assert(ordered_before(s[i], s[j]));
    }
}

/// A sequence of keys in increasing order is strictly increasing.
pub proof fn lemma_increasing_usizes(s: Seq<usize>)
    requires
        increasing_seq(s),
    ensures
        strictly_increasing(s),
{
    lemma_usize_keys_ordered();
    axiom_increasing_seq_meaning(s);
    assert forall|i: int, j: int| 0 <= i < j < s.len() implies s[i] < s[j] by {
        assert(ordered_before(s[i], s[j]));
    }
}

} // verus!
