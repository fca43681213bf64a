//! How far a block's accumulators have come in a sweep.
//!
//! A block sweeps the other side of the attention matrix block by block. In
//! each block its planes take their turns, and each plane takes the four tiles
//! of the block in order.

use vstd::prelude::*;
use crate::attention::{tile, zero_tile, Matrix, Tiles};
use crate::geometry::{BLOCK, BLOCK_TILES, HD_TILES, HEAD_DIM, NUM_PLANES, TILE};
use crate::math::Model;
use crate::tile::{accumulated, lemma_block_row, others_kept, stored_block};

verus! {

/// An accumulator by plane, head-dimension tile and number of tiles swept.
pub type Sweep = spec_fn(int, int, nat) -> Seq<u32>;

/// The number of tiles that plane `own` has swept after `blocks` whole blocks,
/// and in the block after them, every plane before `plane` and `n` tiles of
/// `plane` itself.
pub open spec fn tiles_swept(blocks: int, plane: int, n: int, own: int) -> nat {
    (blocks * BLOCK_TILES + if own < plane {
        BLOCK_TILES as int
    } else if own == plane {
        n
    } else {
        0
    }) as nat
}

/// Each accumulator has swept as many tiles as its plane.
pub open spec fn swept(acc: Seq<[u32; 256]>, f: Sweep, blocks: int, plane: int, n: int) -> bool {
    forall|t: int|
        0 <= t < NUM_PLANES * HD_TILES ==> (#[trigger] acc[t])@ == f(
            t / 4,
            t % 4,
            tiles_swept(blocks, plane, n, t / 4),
        )
}

/// The sweep from block `start` that accumulates the products of a plane's
/// tiles, which `a` gives for each plane, with the rows of `b`.
pub open spec fn product_sweep<Q, D>(
    m: Model<Q, D>,
    a: spec_fn(int) -> Tiles,
    b: Matrix,
    start: int,
) -> Sweep {
    |plane: int, h: int, n: nat| m.accumulate(a(plane), b, h, start * BLOCK_TILES, n)
}

/// A sweep starts with zeros.
pub proof fn lemma_sweep_start<Q, D>(
    m: Model<Q, D>,
    acc: Seq<[u32; 256]>,
    a: spec_fn(int) -> Tiles,
    b: Matrix,
    start: int,
)
    requires
        forall|t: int| 0 <= t < NUM_PLANES * HD_TILES ==> (#[trigger] acc[t])@ == zero_tile(),
    ensures
        swept(acc, product_sweep(m, a, b, start), 0, 0, 0),
{
}

/// A plane that adds the product of its next tile has swept one tile more.
pub proof fn lemma_sweep_tile<Q, D>(
    m: Model<Q, D>,
    before: Seq<[u32; 256]>,
    acc: Seq<[u32; 256]>,
    a: spec_fn(int) -> Tiles,
    b: Matrix,
    start: int,
    blocks: int,
    plane: int,
    n: int,
    left: Seq<u16>,
    right: spec_fn(int) -> Seq<u16>,
)
    requires
        0 <= blocks,
        0 <= n,
        swept(before, product_sweep(m, a, b, start), blocks, plane, n),
        accumulated(m, before, acc, plane, left, right),
        others_kept(before, acc, plane),
        left == a(plane)((start + blocks) * BLOCK + n * TILE),
        forall|h: int|
            0 <= h < HD_TILES ==> #[trigger] right(h) == tile(
                b,
                (start + blocks) * BLOCK + n * TILE,
                h * TILE,
            ),
    ensures
        swept(acc, product_sweep(m, a, b, start), blocks, plane, n + 1),
{
    let f = product_sweep(m, a, b, start);
    let done = (blocks * BLOCK_TILES + n) as nat;
    assert((start * BLOCK_TILES + done) * TILE == (start + blocks) * BLOCK + n * TILE)
        by (nonlinear_arith)
        requires
            done == blocks * BLOCK_TILES + n,
            TILE == 16,
            BLOCK_TILES == 4,
            BLOCK == 64,
    ;
    assert forall|t: int| 0 <= t < NUM_PLANES * HD_TILES implies (#[trigger] acc[t])@ == f(
        t / 4,
        t % 4,
        tiles_swept(blocks, plane, n + 1, t / 4),
    ) by {
        assert(before[t]@ == f(t / 4, t % 4, tiles_swept(blocks, plane, n, t / 4)));
        if t / 4 == plane {
            assert(right(t % 4) == tile(
                b,
                (start + blocks) * BLOCK + n * TILE,
                (t % 4) * TILE,
            ));
            assert(f(plane, t % 4, done + 1) == (m.mma)(left, right(t % 4), before[t]@));
        }
    }
}

/// A plane that has swept the four tiles of a block hands on to the next.
pub proof fn lemma_sweep_plane(acc: Seq<[u32; 256]>, f: Sweep, blocks: int, plane: int)
    requires
        swept(acc, f, blocks, plane, BLOCK_TILES as int),
    ensures
        swept(acc, f, blocks, plane + 1, 0),
{
    assert forall|t: int| 0 <= t < NUM_PLANES * HD_TILES implies (#[trigger] acc[t])@ == f(
        t / 4,
        t % 4,
        tiles_swept(blocks, plane + 1, 0, t / 4),
    ) by {
        assert(tiles_swept(blocks, plane + 1, 0, t / 4) == tiles_swept(
            blocks,
            plane,
            BLOCK_TILES as int,
            t / 4,
        ));
    }
}

/// A block that all planes have swept is done.
pub proof fn lemma_sweep_block(acc: Seq<[u32; 256]>, f: Sweep, blocks: int)
    requires
        swept(acc, f, blocks, NUM_PLANES as int, 0),
    ensures
        swept(acc, f, blocks + 1, 0, 0),
{
    assert forall|t: int| 0 <= t < NUM_PLANES * HD_TILES implies (#[trigger] acc[t])@ == f(
        t / 4,
        t % 4,
        tiles_swept(blocks + 1, 0, 0, t / 4),
    ) by {
        assert(0 <= t / 4 < 4);
        assert(tiles_swept(blocks + 1, 0, 0, t / 4) == tiles_swept(
            blocks,
            NUM_PLANES as int,
            0,
            t / 4,
        ));
    }
}

/// A stored block holds what its accumulators have swept: at row `row` and
/// column `col` of its head, an element of the accumulator of the plane that
/// owns the row's tile.
pub proof fn lemma_swept_row(
    out: Seq<u32>,
    lo: int,
    acc: Seq<[u32; 256]>,
    f: Sweep,
    blocks: int,
    block: int,
    row: int,
    col: int,
) -> (plane: int)
    requires
        block * BLOCK <= row < (block + 1) * BLOCK,
        0 <= col < HEAD_DIM,
        stored_block(out, lo, acc),
        swept(acc, f, blocks, 0, 0),
    ensures
        row / 64 == block,
        block * BLOCK + plane * TILE == (row / 16) * 16,
        out[lo + (row - block * BLOCK) * HEAD_DIM + col] == f(
            plane,
            col / 16,
            (blocks * BLOCK_TILES) as nat,
        )[(row % 16) * 16 + col % 16],
{
    let t = lemma_block_row(out, lo, acc, block, row, col);
    assert(tiles_swept(blocks, 0, 0, t / 4) == (blocks * BLOCK_TILES) as nat);
    assert(acc[t]@ == f(t / 4, t % 4, tiles_swept(blocks, 0, 0, t / 4)));
    t / 4
}

} // verus!
