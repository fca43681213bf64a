//! The lanes of a plane share out a tile of the plane's scratch memory.
//!
//! Lane `lane` of the 32 takes the elements `lane`, `lane + 32`, `lane + 64`
//! and so on, and the tile of one plane is apart from those of the others, so
//! the order in which lanes and planes run does not matter.

use vstd::prelude::*;
use crate::geometry::TILE_ELEMS;

verus! {

/// Whether position `j` of the scratch memory is lane `lane`'s in the tile at
/// `base`.
pub open spec fn lane_owns(base: int, lane: int, j: int) -> bool {
    &&& 0 <= j - base < TILE_ELEMS
    &&& (j - base) % 32 == lane
}

/// Lane `lane` has filled its elements below `bound` with what `want` names.
pub open spec fn lane_filled<T>(
    scratch: Seq<T>,
    base: int,
    lane: int,
    bound: int,
    want: spec_fn(int) -> T,
) -> bool {
    forall|j: int|
        lane_owns(base, lane, j) && j - base < bound ==> #[trigger] scratch[j] == want(j - base)
}

/// The lanes before `lane` have filled their elements with what `want` names.
pub open spec fn lanes_filled<T>(
    scratch: Seq<T>,
    base: int,
    lane: int,
    want: spec_fn(int) -> T,
) -> bool {
    forall|j: int|
        0 <= j - base < TILE_ELEMS && (j - base) % 32 < lane ==> #[trigger] scratch[j] == want(
            j - base,
        )
}

/// No element but those of lane `lane` in the tile at `base` has changed.
pub open spec fn lane_kept<T>(before: Seq<T>, scratch: Seq<T>, base: int, lane: int) -> bool {
    &&& scratch.len() == before.len()
    &&& forall|j: int|
        0 <= j < scratch.len() && !lane_owns(base, lane, j) ==> #[trigger] scratch[j] == before[j]
}

/// No element but those of plane `plane`'s tile has changed.
pub open spec fn plane_kept<T>(before: Seq<T>, scratch: Seq<T>, plane: int) -> bool {
    &&& scratch.len() == before.len()
    &&& forall|j: int|
        0 <= j < scratch.len() && !(0 <= j - plane * TILE_ELEMS < TILE_ELEMS) ==> #[trigger] scratch[j]
            == before[j]
}

/// A lane that fills its next element has filled all its elements below the
/// one after.
pub proof fn lemma_lane_next<T>(
    before: Seq<T>,
    base: int,
    lane: int,
    i: int,
    want: spec_fn(int) -> T,
)
    requires
        0 <= base <= before.len() - TILE_ELEMS,
        0 <= i < TILE_ELEMS,
        i % 32 == lane,
        lane_filled(before, base, lane, i, want),
    ensures
        lane_filled(before.update(base + i, want(i)), base, lane, i + 32, want),
{
}

/// Once a further lane is done, the lanes up to it are.
pub proof fn lemma_lanes_next<T>(
    before: Seq<T>,
    scratch: Seq<T>,
    base: int,
    lane: int,
    want: spec_fn(int) -> T,
)
    requires
        0 <= base <= before.len() - TILE_ELEMS,
        lanes_filled(before, base, lane, want),
        lane_kept(before, scratch, base, lane),
        lane_filled(scratch, base, lane, TILE_ELEMS as int, want),
    ensures
        lanes_filled(scratch, base, lane + 1, want),
{
}

} // verus!
