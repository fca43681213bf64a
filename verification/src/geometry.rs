//! Tile sizes, tensor indices and the causal sweep.

use vstd::prelude::*;

verus! {

/// Rows in a cmma tile.
pub const TILE: usize = 16;

/// Rows a block owns (4 plane tiles).
pub const BLOCK: usize = 64;

/// Head dimension the kernels are specialized for.
pub const HEAD_DIM: usize = 64;

/// Threads in a plane.
pub const PLANE_DIM: u32 = 32;

/// Planes in a block.
pub const NUM_PLANES: u32 = 4;

/// Tiles across the head dimension.
pub const HD_TILES: usize = HEAD_DIM / TILE;

/// Tiles down a block.
pub const BLOCK_TILES: usize = BLOCK / TILE;

/// Elements of a tile.
pub const TILE_ELEMS: usize = TILE * TILE;

/// Elements of a block.
pub const BLOCK_ELEMS: usize = BLOCK * HEAD_DIM;

/// Threads in a block.
pub const THREADS: usize = (PLANE_DIM * NUM_PLANES) as usize;

/// Elements of the scratch memory of a block: a tile for each of 4 planes.
pub const SCRATCH_ELEMS: usize = 4 * TILE_ELEMS;

/// The position of column `col` of row `row` of batch·head `bh` in a
/// contiguous `[batch·head, seq, HEAD_DIM]` tensor.
pub open spec fn element(bh: int, seq: int, row: int, col: int) -> int {
    bh * seq * HEAD_DIM + row * HEAD_DIM + col
}

/// Whether query `q` sees key `k`.
pub open spec fn sees(causal: bool, q: int, k: int) -> bool {
    causal ==> q >= k
}

/// Whether query `q` sees key `k`: all pairs without the causal mask, and
/// those with `q >= k` under it.
pub fn visible(causal: bool, q: usize, k: usize) -> (r: bool)
    ensures
        r == sees(causal, q as int, k as int),
        r == (!causal || k <= q),
{
    if causal {
        q >= k
    } else {
        true
    }
}

/// The number of key blocks that query block `q_block` sweeps.
pub open spec fn kv_end(causal: bool, q_block: int, seq: int) -> int {
    if causal {
        q_block + 1
    } else {
        seq / BLOCK as int
    }
}

/// The first query block that key block `kv_block` sweeps.
pub open spec fn q_start(causal: bool, kv_block: int) -> int {
    if causal {
        kv_block
    } else {
        0
    }
}

/// The end of the sweep of query block `q_block` over the key blocks
/// `0..kv_sweep_end(..)`.
pub fn kv_sweep_end(causal: bool, q_block: usize, seq: usize) -> (r: usize)
    requires
        q_block < usize::MAX,
    ensures
        r == kv_end(causal, q_block as int, seq as int),
        causal ==> r == q_block + 1,
        !causal ==> r == seq / 64,
{
    if causal {
        q_block + 1
    } else {
        seq / BLOCK
    }
}

/// The start of the sweep of key block `kv_block` over the query blocks
/// `q_sweep_start(..)..seq / BLOCK`.
pub fn q_sweep_start(causal: bool, kv_block: usize) -> (r: usize)
    ensures
        r == q_start(causal, kv_block as int),
        causal ==> r == kv_block,
        !causal ==> r == 0,
{
    if causal {
        kv_block
    } else {
        0
    }
}

} // verus!
