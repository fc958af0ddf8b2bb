//! The order in which the entries of a configuration are visited.

use vstd::prelude::*;
use vstd::std_specs::btree::{group_btree_axioms, increasing_seq};
use vstd::std_specs::cmp::OrdSpec;

verus! {

/// Relation ids that are visited in increasing order are visited in
/// ascending numeric order.
pub proof fn lemma_increasing_rel_ids(keys: Seq<usize>)
    requires
        increasing_seq(keys),
    ensures
        forall|i: int, j: int|
            0 <= i < j < keys.len() ==> (#[trigger] keys[i]) < (#[trigger] keys[j]),
{
    broadcast use group_btree_axioms;

    assert forall|i: int, j: int| 0 <= i < j < keys.len() implies (#[trigger] keys[i]) < (
    #[trigger] keys[j]) by {
        assert(keys[i].cmp_spec(&keys[j]) is Less);
    }
}

/// Node identifiers that are visited in increasing order are visited in
/// ascending numeric order.
pub proof fn lemma_increasing_nodes(keys: Seq<u128>)
    requires
        increasing_seq(keys),
    ensures
        forall|i: int, j: int|
            0 <= i < j < keys.len() ==> (#[trigger] keys[i]) < (#[trigger] keys[j]),
{
    broadcast use group_btree_axioms;

    assert forall|i: int, j: int| 0 <= i < j < keys.len() implies (#[trigger] keys[i]) < (
    #[trigger] keys[j]) by {
        assert(keys[i].cmp_spec(&keys[j]) is Less);
    }
}

} // verus!
