//! Tiles in shared and global memory: loads, stores and the products of
//! shared-memory rows.

use vstd::prelude::*;
use vstd::arithmetic::div_mod::{lemma_fundamental_div_mod, lemma_fundamental_div_mod_converse};
use crate::attention::{tile, tile_t, zero_tile, Matrix};
use crate::geometry::{BLOCK, BLOCK_ELEMS, HD_TILES, HEAD_DIM, NUM_PLANES, TILE, TILE_ELEMS};
use crate::math::{Arithmetic, Model, ZERO};

verus! {

/// How the elements of a tile lie in memory.
#[derive(Debug, PartialEq, Eq, Structural, Clone, Copy)]
pub enum MatrixLayout {
    /// Rows are `stride` elements apart.
    RowMajor,
    /// Columns are `stride` elements apart.
    ColMajor,
}

/// Where element `i` of a tile, counted in row-major order, lies in memory.
pub open spec fn tile_index(offset: int, stride: int, layout: MatrixLayout, i: int) -> int {
    match layout {
        MatrixLayout::RowMajor => offset + (i / 16) * stride + i % 16,
        MatrixLayout::ColMajor => offset + (i % 16) * stride + i / 16,
    }
}

/// Whether position `j` belongs to a row-major tile.
pub open spec fn in_tile(offset: int, stride: int, j: int) -> bool {
    &&& offset <= j
    &&& (j - offset) / stride < TILE
    &&& (j - offset) % stride < TILE
}

/// The element, in row-major order, that position `j` of a row-major tile
/// holds.
pub open spec fn tile_slot(offset: int, stride: int, j: int) -> int {
    ((j - offset) / stride) * TILE + (j - offset) % stride
}

/// A block of shared memory as a matrix with [`HEAD_DIM`] columns.
pub open spec fn block_matrix(smem: Seq<u16>) -> Matrix {
    |r: int, c: int| smem[r * HEAD_DIM + c]
}

/// Loads the 16×16 tile at `offset`, handing its elements out in row-major
/// order. Loading row-major memory as [`MatrixLayout::ColMajor`] yields the
/// transpose.
pub fn load_tile(buf: &Vec<u16>, offset: usize, stride: usize, layout: MatrixLayout) -> (r: [u16; 256])
    requires
        offset + 15 * stride + 15 < buf.len(),
    ensures
        r@ == Seq::new(
            TILE_ELEMS as nat,
            |i: int| buf@[tile_index(offset as int, stride as int, layout, i)],
        ),
        forall|i: int|
            0 <= i < 256 ==> #[trigger] r@[i] == match layout {
                MatrixLayout::RowMajor => buf@[offset + (i / 16) * stride + i % 16],
                MatrixLayout::ColMajor => buf@[offset + (i % 16) * stride + i / 16],
            },
{
    let mut r: [u16; 256] = [0u16;256];
    for i in 0..TILE_ELEMS
        invariant
            offset + 15 * stride + 15 < buf.len(),
            forall|j: int|
                0 <= j < i ==> r@[j] == buf@[tile_index(offset as int, stride as int, layout, j)],
    {
        let (major, minor): (usize, usize) = match layout {
            MatrixLayout::RowMajor => (i / TILE, i % TILE),
            MatrixLayout::ColMajor => (i % TILE, i / TILE),
        };
        assert(0 <= major * stride <= 15 * stride) by (nonlinear_arith)
            requires
                0 <= major <= 15,
                stride >= 0,
        ;
        r[i] = buf[offset + major * stride + minor];
    }
    r
}

/// Stores a tile at `offset` in row-major order, with rows `stride` elements
/// apart.
pub fn store_tile(buf: &mut Vec<u32>, offset: usize, stride: usize, t: &[u32; 256])
    requires
        TILE <= stride,
        offset + 15 * stride + 15 < old(buf).len(),
    ensures
        final(buf)@ == Seq::new(
            old(buf)@.len(),
            |j: int|
                if in_tile(offset as int, stride as int, j) {
                    t@[tile_slot(offset as int, stride as int, j)]
                } else {
                    old(buf)@[j]
                },
        ),
        final(buf).len() == old(buf).len(),
        forall|i: int|
            0 <= i < 256 ==> final(buf)@[offset + (i / 16) * stride + i % 16] == #[trigger] t@[i],
        forall|j: int|
            0 <= j < old(buf).len() && !(offset <= j && (j - offset) / stride as int <= 15 && (j
                - offset) % stride as int <= 15) ==> #[trigger] final(buf)@[j] == old(buf)@[j],
{
    let ghost before = buf@;
    let ghost o = offset as int;
    let ghost s = stride as int;
    for i in 0..TILE_ELEMS
        invariant
            TILE <= stride,
            offset + 15 * stride + 15 < buf.len(),
            buf.len() == before.len(),
            o == offset,
            s == stride,
            forall|j: int|
                0 <= j < before.len() ==> #[trigger] buf@[j] == if in_tile(o, s, j) && tile_slot(
                    o,
                    s,
                    j,
                ) < i {
                    t@[tile_slot(o, s, j)]
                } else {
                    before[j]
                },
    {
        let row: usize = i / TILE;
        let col: usize = i % TILE;
        assert(0 <= row * stride <= 15 * stride) by (nonlinear_arith)
            requires
                0 <= row <= 15,
                stride >= 0,
        ;
        let at: usize = offset + row * stride + col;
        proof {
            lemma_fundamental_div_mod_converse(at - o, s, row as int, col as int);
            assert forall|j: int| 0 <= j < before.len() && in_tile(o, s, j) && tile_slot(o, s, j) == i
                implies j == at by {
                lemma_fundamental_div_mod(j - o, s);
                assert((j - o) % s >= 0 && (j - o) / s >= 0) by {
                    vstd::arithmetic::div_mod::lemma_div_pos_is_pos(j - o, s);
                }
                assert((j - o) / s == row && (j - o) % s == col);
                assert(s * row == row * s) by (nonlinear_arith);
            }
        }
        buf[at] = t[i];
        assert forall|j: int| 0 <= j < before.len() implies #[trigger] buf@[j] == if in_tile(
            o,
            s,
            j,
        ) && tile_slot(o, s, j) < i + 1 {
            t@[tile_slot(o, s, j)]
        } else {
            before[j]
        } by {
            if j == at {
                assert(in_tile(o, s, j) && tile_slot(o, s, j) == i);
            }
        }
    }
    proof {
        assert forall|j: int| 0 <= j < before.len() && in_tile(o, s, j) implies tile_slot(o, s, j)
            < TILE_ELEMS by {
            vstd::arithmetic::div_mod::lemma_div_pos_is_pos(j - o, s);
        }
        assert forall|i: int| 0 <= i < 256 implies buf@[o + (i / 16) * s + i % 16]
            == #[trigger] t@[i] by {
            let (row, col) = (i / 16, i % 16);
            assert(0 <= row * s <= 15 * s) by (nonlinear_arith)
                requires
                    0 <= row <= 15,
                    s >= 0,
            ;
            lemma_fundamental_div_mod_converse(row * s + col, s, row, col);
            let at = o + row * s + col;
            assert(in_tile(o, s, at) && tile_slot(o, s, at) == i);
        }
    }
}

/// A tile of zeros.
pub fn zeros() -> (r: [u32; 256])
    ensures
        r@ == zero_tile(),
        forall|i: int| 0 <= i < 256 ==> #[trigger] r@[i] == 0u32,
{
    let r: [u32; 256] = [ZERO;256];
    assert(r@ =~= zero_tile());
    r
}

/// The accumulators of a block: a tile of zeros for each of four planes and
/// four head-dimension tiles.
pub fn zero_accumulators() -> (acc: Vec<[u32; 256]>)
    ensures
        acc.len() == NUM_PLANES * HD_TILES,
        forall|t: int| 0 <= t < NUM_PLANES * HD_TILES ==> (#[trigger] acc@[t])@ == zero_tile(),
{
    let mut acc: Vec<[u32; 256]> = Vec::new();
    for t in 0..NUM_PLANES as usize * HD_TILES
        invariant
            acc.len() == t,
            forall|u: int| 0 <= u < t ==> (#[trigger] acc@[u])@ == zero_tile(),
    {
        acc.push(zeros());
    }
    acc
}

/// Plane `plane` has added a tile product to each of its four accumulators,
/// `a` times the tile that `b` names for the accumulator's head-dimension
/// tile.
pub open spec fn accumulated<Q, D>(
    m: Model<Q, D>,
    before: Seq<[u32; 256]>,
    acc: Seq<[u32; 256]>,
    plane: int,
    a: Seq<u16>,
    b: spec_fn(int) -> Seq<u16>,
) -> bool {
    forall|t: int|
        0 <= t < NUM_PLANES * HD_TILES && t / 4 == plane ==> (#[trigger] acc[t])@ == (m.mma)(
            a,
            b(t % 4),
            before[t]@,
        )
}

/// No accumulator but those of plane `plane` has changed.
pub open spec fn others_kept(before: Seq<[u32; 256]>, acc: Seq<[u32; 256]>, plane: int) -> bool {
    &&& acc.len() == before.len()
    &&& forall|t: int|
        0 <= t < NUM_PLANES * HD_TILES && t / 4 != plane ==> #[trigger] acc[t] == before[t]
}

/// The tiles of a block's rows from `row`, by head-dimension tile.
pub open spec fn row_tiles(x: Matrix, row: int) -> spec_fn(int) -> Seq<u16> {
    |h: int| tile(x, row, h * TILE)
}

/// The 16×16 tile of `x · yᵀ` for the rows of `x` from `x_row` and those of
/// `y` from `y_row`, accumulated over the tiles of the head dimension.
pub fn cross_tile<Q, D, A: Arithmetic<Q, D>>(
    math: &A,
    x: &Vec<u16>,
    x_row: usize,
    y: &Vec<u16>,
    y_row: usize,
) -> (r: [u32; 256])
    requires
        math.ready(),
        x.len() == BLOCK_ELEMS,
        y.len() == BLOCK_ELEMS,
        x_row + TILE <= BLOCK,
        y_row + TILE <= BLOCK,
    ensures
        forall|m: Model<Q, D>| #[trigger]
            math.computes(m) ==> r@ == m.cross(
                block_matrix(x@),
                x_row as int,
                block_matrix(y@),
                y_row as int,
            ),
{
    let mut acc: [u32; 256] = zeros();
    for h in 0..HD_TILES
        invariant
            math.ready(),
            x.len() == BLOCK_ELEMS,
            y.len() == BLOCK_ELEMS,
            x_row + TILE <= BLOCK,
            y_row + TILE <= BLOCK,
            forall|m: Model<Q, D>| #[trigger]
                math.computes(m) ==> acc@ == m.cross_partial(
                    block_matrix(x@),
                    x_row as int,
                    block_matrix(y@),
                    y_row as int,
                    h as nat,
                ),
    {
        let a = load_tile(x, x_row * HEAD_DIM + h * TILE, HEAD_DIM, MatrixLayout::RowMajor);
        let b = load_tile(y, y_row * HEAD_DIM + h * TILE, HEAD_DIM, MatrixLayout::ColMajor);
        assert(a@ =~= tile(block_matrix(x@), x_row as int, h * TILE));
        assert(b@ =~= tile_t(block_matrix(y@), y_row as int, h * TILE));
        acc = math.mma(&a, &b, &acc);
    }
    acc
}

/// The accumulator that element `i` of a block comes from: four planes with
/// four head-dimension tiles each.
pub open spec fn block_tile(i: int) -> int {
    (i / 1024) * HD_TILES + (i % 64) / 16
}

/// The element of [`block_tile`] that element `i` of a block comes from.
pub open spec fn block_slot(i: int) -> int {
    ((i / 64) % 16) * TILE + i % 16
}

/// The block from position `lo` of `out` holds the accumulators `acc`.
pub open spec fn stored_block(out: Seq<u32>, lo: int, acc: Seq<[u32; 256]>) -> bool {
    forall|j: int|
        lo <= j < lo + BLOCK_ELEMS ==> #[trigger] out[j] == acc[block_tile(j - lo)]@[block_slot(
            j - lo,
        )]
}

/// Where a stored block holds row `row` and column `col` of its head: the
/// accumulator.
pub proof fn lemma_block_row(
    out: Seq<u32>,
    lo: int,
    acc: Seq<[u32; 256]>,
    block: int,
    row: int,
    col: int,
) -> (t: int)
    requires
        block * BLOCK <= row < (block + 1) * BLOCK,
        0 <= col < HEAD_DIM,
        stored_block(out, lo, acc),
    ensures
        0 <= t < NUM_PLANES * HD_TILES,
        row / 64 == block,
        block * BLOCK + (t / 4) * TILE == (row / 16) * 16,
        t % 4 == col / 16,
        out[lo + (row - block * BLOCK) * HEAD_DIM + col] == acc[t]@[(row % 16) * 16 + col % 16],
{
    let r = row - block * 64;
    let (r1, r0) = (r / 16, r % 16);
    let (c1, c0) = (col / 16, col % 16);
    let i = r * 64 + col;
    let t = r1 * 4 + c1;
    assert(r == r1 * 16 + r0 && 0 <= r1 < 4 && 0 <= r0 < 16);
    assert(col == c1 * 16 + c0 && 0 <= c1 < 4 && 0 <= c0 < 16);
    lemma_fundamental_div_mod_converse(row, 64, block, r);
    lemma_fundamental_div_mod_converse(row, 16, block * 4 + r1, r0);
    lemma_fundamental_div_mod_converse(i, 64, r, col);
    lemma_fundamental_div_mod_converse(i, 1024, r1, r0 * 64 + col);
    lemma_fundamental_div_mod_converse(i, 16, r * 4 + c1, c0);
    lemma_fundamental_div_mod_converse(t, 4, r1, c1);
    assert(out[lo + i] == acc[block_tile(i)]@[block_slot(i)]);
    t
}

/// The positions of one accumulator in its block.
proof fn lemma_block_tile(start: int, plane: int, h: int, j: int)
    requires
        0 <= plane < NUM_PLANES,
        0 <= h < HD_TILES,
    ensures
        in_tile(start + plane * 1024 + h * TILE, HEAD_DIM as int, j) <==> start <= j < start
            + BLOCK_ELEMS && block_tile(j - start) == plane * HD_TILES + h,
        in_tile(start + plane * 1024 + h * TILE, HEAD_DIM as int, j) ==> tile_slot(
            start + plane * 1024 + h * TILE,
            HEAD_DIM as int,
            j,
        ) == block_slot(j - start),
{
    let i = j - start;
    let a = i - plane * 1024 - h * 16;
    if in_tile(start + plane * 1024 + h * TILE, HEAD_DIM as int, j) {
        let (r, c) = (a / 64, a % 64);
        assert(a == r * 64 + c && 0 <= r < 16 && 0 <= c < 16);
        lemma_fundamental_div_mod_converse(i, 64, plane * 16 + r, h * 16 + c);
        lemma_fundamental_div_mod_converse(i, 1024, plane, r * 64 + h * 16 + c);
        lemma_fundamental_div_mod_converse(plane * 16 + r, 16, plane, r);
        lemma_fundamental_div_mod_converse(h * 16 + c, 16, h, c);
        lemma_fundamental_div_mod_converse(i, 16, plane * 64 + r * 4 + h, c);
    }
    if 0 <= i < 4096 && block_tile(i) == plane * HD_TILES + h {
        let (row, col) = (i / 64, i % 64);
        let (r1, r0) = (row / 16, row % 16);
        let (c1, c0) = (col / 16, col % 16);
        assert(i == row * 64 + col && row == r1 * 16 + r0 && col == c1 * 16 + c0);
        assert(0 <= c1 < 4 && 0 <= r0 < 16 && 0 <= c0 < 16);
        lemma_fundamental_div_mod_converse(i, 1024, r1, r0 * 64 + col);
        assert(r1 == plane && c1 == h);
        lemma_fundamental_div_mod_converse(a, 64, r0, c0);
    }
}

/// Stores the accumulators of a block, four planes with four head-dimension
/// tiles each, to the block's rows from `start`.
pub fn store_block(out: &mut Vec<u32>, start: usize, acc: &Vec<[u32; 256]>)
    requires
        acc.len() == NUM_PLANES * HD_TILES,
        start + BLOCK_ELEMS <= old(out).len(),
    ensures
        final(out)@ == Seq::new(
            old(out)@.len(),
            |j: int|
                if start <= j < start + BLOCK_ELEMS {
                    acc@[block_tile(j - start)]@[block_slot(j - start)]
                } else {
                    old(out)@[j]
                },
        ),
{
    let ghost before = out@;
    for plane in 0..NUM_PLANES as usize
        invariant
            acc.len() == NUM_PLANES * HD_TILES,
            start + BLOCK_ELEMS <= out.len(),
            out.len() == before.len(),
            forall|j: int|
                0 <= j < before.len() ==> #[trigger] out@[j] == if start <= j < start + BLOCK_ELEMS
                    && block_tile(j - start) < plane * HD_TILES {
                    acc@[block_tile(j - start)]@[block_slot(j - start)]
                } else {
                    before[j]
                },
    {
        let row: usize = start + plane * TILE * HEAD_DIM;
        for h in 0..HD_TILES
            invariant
                acc.len() == NUM_PLANES * HD_TILES,
                start + BLOCK_ELEMS <= out.len(),
                out.len() == before.len(),
                plane < NUM_PLANES,
                row == start + plane * 1024,
                forall|j: int|
                    0 <= j < before.len() ==> #[trigger] out@[j] == if start <= j < start
                        + BLOCK_ELEMS && block_tile(j - start) < plane * HD_TILES + h {
                        acc@[block_tile(j - start)]@[block_slot(j - start)]
                    } else {
                        before[j]
                    },
        {
            let ghost last = out@;
            store_tile(out, row + h * TILE, HEAD_DIM, &acc[plane * HD_TILES + h]);
            assert forall|j: int| 0 <= j < before.len() implies #[trigger] out@[j] == if start <= j
                < start + BLOCK_ELEMS && block_tile(j - start) < plane * HD_TILES + h + 1 {
                acc@[block_tile(j - start)]@[block_slot(j - start)]
            } else {
                before[j]
            } by {
                lemma_block_tile(start as int, plane as int, h as int, j);
                assert(last[j] == if start <= j < start + BLOCK_ELEMS && block_tile(j - start)
                    < plane * HD_TILES + h {
                    acc@[block_tile(j - start)]@[block_slot(j - start)]
                } else {
                    before[j]
                });
            }
        }
    }
}

} // verus!
