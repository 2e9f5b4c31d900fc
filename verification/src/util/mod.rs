//! Comparison of interchanges by their payload.

use crate::engine::LoopInstance;
use crate::v004010::{group_eq, lemma_group_eq, Transmission};
use vstd::prelude::*;
use vstd::std_specs::cmp::PartialEqSpec;

verus! {

/// Whether every functional group of `src` equals the first functional group
/// of `target`.
pub open spec fn equal_payload<T: PartialEq>(src: Transmission<T>, target: Transmission<T>) -> bool {
    forall|i: int|
        0 <= i < src.functional_group.len() ==> group_eq(
            #[trigger] src.functional_group[i],
            target.functional_group[0],
        )
}

/// Compares the payload of two interchanges: each functional group of `src`
/// is held against the first functional group of `target`. The envelopes
/// themselves are not compared. An interchange without functional groups
/// equals any other.
pub fn is_equal_payload<T: PartialEq>(src: &Transmission<T>, target: &Transmission<T>) -> (r: bool)
    requires
        src.functional_group.len() > 0 ==> target.functional_group.len() > 0,
    ensures
        T::obeys_eq_spec() ==> r == equal_payload(*src, *target),
{
    let mut i: usize = 0;
    while i < src.functional_group.len()
        invariant
            i <= src.functional_group.len(),
            src.functional_group.len() > 0 ==> target.functional_group.len() > 0,
            T::obeys_eq_spec() ==> forall|j: int|
                0 <= j < i ==> group_eq(
                    #[trigger] src.functional_group[j],
                    target.functional_group[0],
                ),
        decreases src.functional_group.len() - i,
    {
        if !(src.functional_group[i] == target.functional_group[0]) {
            return false;
        }
        i += 1;
    }
    true
}

/// For interchanges of loop instances, the payloads are equal exactly when
/// the model of every functional group of `src` is the model of the first
/// functional group of `target`.
pub proof fn law_equal_payload(src: Transmission<LoopInstance>, target: Transmission<LoopInstance>)
    requires
        src.functional_group.len() > 0 ==> target.functional_group.len() > 0,
    ensures
        equal_payload(src, target) == forall|i: int|
            0 <= i < src@.groups.len() ==> (#[trigger] src@.groups[i]) == target@.groups[0],
{
    assert forall|i: int| 0 <= i < src.functional_group.len() implies group_eq(
        src.functional_group[i],
        target.functional_group[0],
    ) == (src@.groups[i] == target@.groups[0]) by {
        lemma_group_eq(src.functional_group[i], target.functional_group[0]);
    }
    if equal_payload(src, target) {
        assert forall|i: int| 0 <= i < src@.groups.len() implies (#[trigger] src@.groups[i])
            == target@.groups[0] by {
            assert(group_eq(src.functional_group[i], target.functional_group[0]));
        }
    } else {
        let i = choose|i: int|
            0 <= i < src.functional_group.len() && !group_eq(
                #[trigger] src.functional_group[i],
                target.functional_group[0],
            );
        assert(src@.groups[i] != target@.groups[0]);
    }
}

} // verus!
