//! Where tiles, blocks, threads and lanes find and leave their elements.

use vstd::prelude::*;
use vstd::arithmetic::div_mod::lemma_fundamental_div_mod_converse;
use crate::dkdv::{DkdvShared, DkdvTile};
use crate::dq::{DqShared, DqTile};
use crate::lanes::{lane_filled, lane_kept, lanes_filled, plane_kept};
use crate::math::Model;
use crate::stage::{copied, filled, filled_before, kept, narrowed, staged};
use crate::tile::{accumulated, block_matrix, others_kept, row_tiles, stored_block};

verus! {

/// A staged block holds 64 rows of 64 rounded elements, from row `row0` of the
/// head at `base`.
pub proof fn a_staged_block_holds_its_rows<T>(
    smem: Seq<u16>,
    narrow: spec_fn(T) -> u16,
    x: Seq<T>,
    base: int,
    row0: int,
    r: int,
    c: int,
)
    requires
        smem.len() == 4096,
        staged(smem, narrowed(narrow, x, base, row0)),
        0 <= r < 64,
        0 <= c < 64,
    ensures
        smem[r * 64 + c] == narrow(x[base + (row0 + r) * 64 + c]),
        block_matrix(smem)(r, c) == narrow(x[base + (row0 + r) * 64 + c]),
{
    let i = r * 64 + c;
    lemma_fundamental_div_mod_converse(i, 64, r, c);
    assert(smem[i] == narrowed(narrow, x, base, row0)(i));
}

/// Staged row statistics are those from `start`.
pub proof fn staged_statistics_are_copied(smem: Seq<u32>, x: Seq<u32>, start: int, i: int)
    requires
        staged(smem, copied(x, start)),
        0 <= i < smem.len(),
    ensures
        smem[i] == x[start + i],
{
    assert(smem[i] == copied(x, start)(i));
}

/// A thread that has staged has filled every 128th slot from its own on, and no
/// other.
pub proof fn a_thread_fills_every_slot_of_its_own<T>(
    before: Seq<T>,
    smem: Seq<T>,
    tid: int,
    want: spec_fn(int) -> T,
    i: int,
)
    requires
        kept(before, smem, tid),
        filled(smem, tid, smem.len() as int, want),
        0 <= i < before.len(),
    ensures
        smem.len() == before.len(),
        i % 128 == tid ==> smem[i] == want(i),
        i % 128 != tid ==> smem[i] == before[i],
{
}

/// Once all 128 threads have staged, every slot is filled.
pub proof fn all_threads_fill_all_slots<T>(smem: Seq<T>, want: spec_fn(int) -> T)
    ensures
        filled_before(smem, 128, want) <==> (forall|i: int|
            0 <= i < smem.len() ==> #[trigger] smem[i] == want(i)),
{
}

/// A lane that has worked has filled every 32nd element of its plane's tile
/// from its own on, and no other.
pub proof fn a_lane_fills_every_element_of_its_own<T>(
    before: Seq<T>,
    scratch: Seq<T>,
    plane: int,
    lane: int,
    want: spec_fn(int) -> T,
    j: int,
)
    requires
        lane_kept(before, scratch, plane * 256, lane),
        lane_filled(scratch, plane * 256, lane, 256, want),
        0 <= j < before.len(),
    ensures
        scratch.len() == before.len(),
        0 <= j - plane * 256 < 256 && (j - plane * 256) % 32 == lane ==> scratch[j] == want(
            j - plane * 256,
        ),
        !(0 <= j - plane * 256 < 256 && (j - plane * 256) % 32 == lane) ==> scratch[j] == before[j],
{
}

/// Once all 32 lanes have worked, the plane's tile is filled; a plane leaves
/// the tiles of the others alone.
pub proof fn all_lanes_fill_the_tile<T>(
    before: Seq<T>,
    scratch: Seq<T>,
    plane: int,
    want: spec_fn(int) -> T,
    j: int,
)
    requires
        lanes_filled(scratch, plane * 256, 32, want),
        plane_kept(before, scratch, plane),
        0 <= j < before.len(),
    ensures
        scratch.len() == before.len(),
        0 <= j - plane * 256 < 256 ==> scratch[j] == want(j - plane * 256),
        !(0 <= j - plane * 256 < 256) ==> scratch[j] == before[j],
{
}

/// A plane's step changes its own four accumulators, each by the product with
/// the tile of its 16 columns.
pub proof fn a_plane_changes_its_own_accumulators<Q, D>(
    m: Model<Q, D>,
    before: Seq<[u32; 256]>,
    acc: Seq<[u32; 256]>,
    plane: int,
    left: Seq<u16>,
    smem: Seq<u16>,
    row: int,
    t: int,
    right: Seq<u16>,
)
    requires
        accumulated(m, before, acc, plane, left, row_tiles(block_matrix(smem), row)),
        others_kept(before, acc, plane),
        0 <= t < 16,
        right.len() == 256,
        forall|i: int|
            0 <= i < 256 ==> #[trigger] right[i] == smem[(row + i / 16) * 64 + (t % 4) * 16 + i
                % 16],
    ensures
        acc.len() == before.len(),
        t / 4 == plane ==> acc[t]@ == (m.mma)(left, right, before[t]@),
        t / 4 != plane ==> acc[t] == before[t],
{
    let tiles = row_tiles(block_matrix(smem), row);
    assert(tiles(t % 4) =~= right);
}

/// A stored block holds 64 rows of 64 elements, 16 rows from each plane and 16
/// columns from each of its accumulators.
pub proof fn a_stored_block_holds_its_accumulators(
    out: Seq<u32>,
    lo: int,
    acc: Seq<[u32; 256]>,
    r: int,
    c: int,
)
    requires
        stored_block(out, lo, acc),
        0 <= r < 64,
        0 <= c < 64,
    ensures
        out[lo + r * 64 + c] == acc[(r / 16) * 4 + c / 16]@[(r % 16) * 16 + c % 16],
{
    let i = r * 64 + c;
    let (r1, r0) = (r / 16, r % 16);
    let (c1, c0) = (c / 16, c % 16);
    lemma_fundamental_div_mod_converse(i, 64, r, c);
    lemma_fundamental_div_mod_converse(i, 1024, r1, r0 * 64 + c);
    lemma_fundamental_div_mod_converse(i, 16, r * 4 + c1, c0);
    assert(out[lo + i] == out[lo + r * 64 + c]);
}

/// An element of a plane's score-gradient tile, from the blocks in shared
/// memory of the query-gradient kernel.
pub proof fn dq_tiles_round_the_product<Q, D>(
    m: Model<Q, D>,
    sh: DqShared,
    at: DqTile,
    s: Seq<u32>,
    dp: Seq<u32>,
    i: int,
)
    requires
        0 <= i < 256,
        s == m.cross(block_matrix(sh.q@), at.plane * 16, block_matrix(sh.k@), at.kv_tile * 16),
        dp == m.cross(block_matrix(sh.do_@), at.plane * 16, block_matrix(sh.v@), at.kv_tile * 16),
    ensures
        ({
            let row = at.plane * 16 + i / 16;
            let p = if !at.causal || at.kv0 + at.kv_tile * 16 + i % 16 <= at.q0 + row {
                (m.exp)((m.minus)((m.times)(s[i], at.scale), sh.lse@[row]))
            } else {
                0u32
            };
            sh.ds_tile(m, at)[i] == (m.narrow)(
                (m.times)((m.times)(p, (m.minus)(dp[i], sh.d@[row])), at.scale),
            )
        }),
        sh.ds_tile(m, at).len() == 256,
{
}

/// An element of a plane's transposed weight and score-gradient tiles, from the
/// blocks in shared memory of the key- and value-gradient kernel.
pub proof fn dkdv_tiles_round_the_product<Q, D>(
    m: Model<Q, D>,
    sh: DkdvShared,
    at: DkdvTile,
    s: Seq<u32>,
    dp: Seq<u32>,
    i: int,
)
    requires
        0 <= i < 256,
        s == m.cross(block_matrix(sh.k@), at.plane * 16, block_matrix(sh.q@), at.q_tile * 16),
        dp == m.cross(block_matrix(sh.v@), at.plane * 16, block_matrix(sh.do_@), at.q_tile * 16),
    ensures
        ({
            let row = at.q_tile * 16 + i % 16;
            let p = if !at.causal || at.kv0 + at.plane * 16 + i / 16 <= at.q0 + row {
                (m.exp)((m.minus)((m.times)(s[i], at.scale), sh.lse@[row]))
            } else {
                0u32
            };
            &&& sh.pt_tile(m, at)[i] == (m.narrow)(p)
            &&& sh.dst_tile(m, at)[i] == (m.narrow)(
                (m.times)((m.times)(p, (m.minus)(dp[i], sh.d@[row])), at.scale),
            )
        }),
        sh.pt_tile(m, at).len() == 256,
        sh.dst_tile(m, at).len() == 256,
{
}

} // verus!
