//! Renumbering of stored positions.

use vstd::prelude::*;

verus! {

/// A position after `norm_offset` has been taken off it. Positions at or below the offset become
/// zero, which stands for "too old".
pub open spec fn normalized(position: i32, norm_offset: i32) -> i32 {
    if position <= norm_offset {
        0
    } else {
        (position - norm_offset) as i32
    }
}

/// `after` holds every position of `before`, normalized.
pub open spec fn all_normalized(before: Seq<i32>, norm_offset: i32, after: Seq<i32>) -> bool {
    &&& after.len() == before.len()
    &&& forall|i: int| 0 <= i < before.len() ==> after[i] == normalized(before[i], norm_offset)
}

/// Takes `norm_offset` off every position.
pub fn normalize(positions: &mut [i32], norm_offset: i32)
    requires
        norm_offset >= 0,
    ensures
        all_normalized(old(positions)@, norm_offset, final(positions)@),
{
    let mut i: usize = 0;
    let ghost before = positions@;
    while i < positions.len()
        invariant
            norm_offset >= 0,
            i <= positions@.len(),
            positions@.len() == before.len(),
            forall|j: int| 0 <= j < i ==> positions@[j] == normalized(before[j], norm_offset),
            forall|j: int| i <= j < before.len() ==> positions@[j] == before[j],
        decreases positions@.len() - i,
    {
        if positions[i] <= norm_offset {
            positions[i] = 0;
        } else {
            positions[i] = positions[i] - norm_offset;
        }
        i += 1;
    }
}

/// Renumbering keeps how far apart positions are, as long as they are not too old.
pub proof fn lemma_normalize_keeps_distances(
    positions: &mut [i32],
    norm_offset: i32,
    i: int,
    j: int,
)
    requires
        norm_offset >= 0,
        call_ensures(normalize, (positions, norm_offset), ()),
        0 <= i < old(positions)@.len(),
        0 <= j < old(positions)@.len(),
    ensures
        final(positions)@.len() == old(positions)@.len(),
        old(positions)@[i] >= norm_offset && old(positions)@[j] >= norm_offset ==> {
            final(positions)@[i] - final(positions)@[j] == old(positions)@[i] - old(positions)@[j]
        },
        old(positions)@[i] >= norm_offset ==> old(positions)@[i] - final(positions)@[i]
            == norm_offset,
        old(positions)@[i] < norm_offset ==> final(positions)@[i] == 0,
{
}

} // verus!
