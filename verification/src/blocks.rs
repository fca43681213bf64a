//! From blocks in shared memory to the rows of a head.

use vstd::prelude::*;
use crate::attention::{tile, tile_t, Matrix};
use crate::geometry::{element, BLOCK, BLOCK_ELEMS, HD_TILES, HEAD_DIM, TILE};
use crate::math::Model;
use crate::stage::{narrowed, staged};
use crate::tile::block_matrix;

verus! {

/// Block `x` holds the rows of `y` from `row0`.
pub open spec fn rows_from(x: Matrix, y: Matrix, row0: int) -> bool {
    forall|r: int, c: int|
        0 <= r < BLOCK && 0 <= c < HEAD_DIM ==> #[trigger] x(r, c) == y(row0 + r, c)
}

/// A tile inside a block is a tile of the rows that the block holds.
pub proof fn lemma_tile_rows(x: Matrix, y: Matrix, row0: int, r0: int, c0: int)
    requires
        rows_from(x, y, row0),
        0 <= r0 <= BLOCK - TILE,
        0 <= c0 <= HEAD_DIM - TILE,
    ensures
        tile(x, r0, c0) == tile(y, row0 + r0, c0),
        tile_t(x, r0, c0) == tile_t(y, row0 + r0, c0),
{
    assert(tile(x, r0, c0) =~= tile(y, row0 + r0, c0));
    assert(tile_t(x, r0, c0) =~= tile_t(y, row0 + r0, c0));
}

/// The product of two blocks is the product of the rows that they hold.
pub proof fn lemma_cross_rows<Q, D>(
    m: Model<Q, D>,
    x: Matrix,
    x_all: Matrix,
    x0: int,
    xr: int,
    y: Matrix,
    y_all: Matrix,
    y0: int,
    yr: int,
    h: nat,
)
    requires
        rows_from(x, x_all, x0),
        rows_from(y, y_all, y0),
        0 <= xr <= BLOCK - TILE,
        0 <= yr <= BLOCK - TILE,
        h <= HD_TILES,
    ensures
        m.cross_partial(x, xr, y, yr, h) == m.cross_partial(x_all, x0 + xr, y_all, y0 + yr, h),
    decreases h,
{
    if h > 0 {
        lemma_cross_rows(m, x, x_all, x0, xr, y, y_all, y0, yr, (h - 1) as nat);
        lemma_tile_rows(x, x_all, x0, xr, (h - 1) * TILE);
        lemma_tile_rows(y, y_all, y0, yr, (h - 1) * TILE);
    }
}

/// A staged block holds the rows of its head.
pub proof fn lemma_staged_rows<T>(
    smem: Seq<u16>,
    narrow: spec_fn(T) -> u16,
    x: Seq<T>,
    y: Matrix,
    bh: int,
    seq: int,
    row0: int,
)
    requires
        smem.len() == BLOCK_ELEMS,
        staged(smem, narrowed(narrow, x, bh * seq * HEAD_DIM, row0)),
        forall|r: int, c: int| #[trigger] y(r, c) == narrow(x[element(bh, seq, r, c)]),
    ensures
        rows_from(block_matrix(smem), y, row0),
{
    assert forall|r: int, c: int| 0 <= r < BLOCK && 0 <= c < HEAD_DIM implies #[trigger] block_matrix(
        smem,
    )(r, c) == y(row0 + r, c) by {
        let i = r * HEAD_DIM + c;
        assert(i / 64 == r && i % 64 == c);
        assert(smem[i] == narrowed(narrow, x, bh * seq * HEAD_DIM, row0)(i));
    }
}

/// A head ends where the next one begins.
pub proof fn lemma_head_end(bh: int, seq: int)
    ensures
        element(bh + 1, seq, 0, 0) == element(bh, seq, seq, 0),
        (bh + 1) * seq == bh * seq + seq,
{
    assert((bh + 1) * seq == bh * seq + seq) by (nonlinear_arith);
}

/// The rows of a block of a head are those between its first and its last,
/// whichever head they are compared with.
pub proof fn lemma_element_block(b: int, bh: int, seq: int, row: int, col: int, lo: int, hi: int)
    requires
        0 <= row < seq,
        0 <= col < HEAD_DIM,
        0 <= lo <= hi <= seq,
    ensures
        element(bh, seq, lo, 0) <= element(b, seq, row, col) < element(bh, seq, hi, 0) <==> b == bh
            && lo <= row < hi,
{
    if b < bh {
        assert((b + 1) * seq <= bh * seq) by (nonlinear_arith)
            requires
                b + 1 <= bh,
                seq >= 0,
        ;
        lemma_head_end(b, seq);
    }
    if b > bh {
        assert((bh + 1) * seq <= b * seq) by (nonlinear_arith)
            requires
                bh + 1 <= b,
                seq >= 0,
        ;
        lemma_head_end(bh, seq);
    }
}

/// Heads lie one after the other.
pub proof fn lemma_heads_ordered(bh: int, heads: int, seq: int)
    requires
        bh <= heads,
        0 <= seq,
    ensures
        bh * seq <= heads * seq,
        element(bh, seq, 0, 0) <= element(heads, seq, 0, 0),
{
    assert(bh * seq <= heads * seq) by (nonlinear_arith)
        requires
            bh <= heads,
            0 <= seq,
    ;
}

/// A block ends no later than the last head.
pub proof fn lemma_block_before(bh: int, heads: int, seq: int, hi: int)
    requires
        bh < heads,
        0 <= hi <= seq,
    ensures
        element(bh, seq, hi, 0) <= element(heads, seq, 0, 0),
{
    lemma_head_end(bh, seq);
    lemma_heads_ordered(bh + 1, heads, seq);
}

/// An element of a head lies before the end of the last head.
pub proof fn lemma_element_in(b: int, heads: int, seq: int, row: int, col: int)
    requires
        0 <= b < heads,
        0 <= row < seq,
        0 <= col < HEAD_DIM,
    ensures
        0 <= element(b, seq, row, col) < element(heads, seq, 0, 0),
{
    lemma_head_end(b, seq);
    lemma_heads_ordered(b + 1, heads, seq);
    lemma_heads_ordered(0, b, seq);
}

} // verus!
