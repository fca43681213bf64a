//! What holds of the backward pass as a whole.

use vstd::prelude::*;
use crate::attention::{tile, tile_t, zero_tile, Matrix, Problem};
use crate::blocks::lemma_element_block;
use crate::geometry::{
    element, kv_end, q_start, sees, BLOCK, BLOCK_ELEMS, HD_TILES, HEAD_DIM, NUM_PLANES, PLANE_DIM,
    SCRATCH_ELEMS, THREADS, TILE, TILE_ELEMS,
};
use crate::lanes::{lane_filled, lane_kept, lane_owns};
use crate::launch::{batch_heads, seq_len, LaunchPlan, PREPASS_THREADS};
use crate::math::Model;
use crate::stage::{filled, kept, thread_owns};
use crate::tile::{accumulated, others_kept};

verus! {

/// Every slot of a staged block is written by exactly one thread, so staging
/// leaves no gap and has no race.
pub proof fn threads_share_out_a_block(i: int)
    requires
        0 <= i < BLOCK_ELEMS,
    ensures
        0 <= i % 128 < THREADS,
        forall|tid: int| 0 <= tid < THREADS ==> (#[trigger] thread_owns(tid, i) <==> tid == i % 128),
{
}

/// Every position of the scratch memory is written by exactly one lane of
/// exactly one plane, so the planes of a block need not wait for each other
/// between the tiles of a sweep.
pub proof fn lanes_share_out_the_scratch(j: int)
    requires
        0 <= j < SCRATCH_ELEMS,
    ensures
        0 <= j / 256 < NUM_PLANES,
        0 <= (j % 256) % 32 < PLANE_DIM,
        forall|plane: int, lane: int|
            0 <= plane < NUM_PLANES && 0 <= lane < PLANE_DIM ==> (#[trigger] lane_owns(
                plane * TILE_ELEMS,
                lane,
                j,
            ) <==> plane == j / 256 && lane == (j % 256) % 32),
{
}

/// What thread `tid` does to the shared memory while it stages.
pub open spec fn thread_stages<T>(
    before: Seq<T>,
    after: Seq<T>,
    tid: int,
    want: spec_fn(int) -> T,
) -> bool {
    &&& kept(before, after, tid)
    &&& filled(after, tid, after.len() as int, want)
}

/// Threads can stage in any order: two of them leave the same shared memory
/// whichever comes first.
pub proof fn threads_commute<T>(
    start: Seq<T>,
    a: Seq<T>,
    a_then_b: Seq<T>,
    b: Seq<T>,
    b_then_a: Seq<T>,
    tid_a: int,
    tid_b: int,
    want: spec_fn(int) -> T,
)
    requires
        thread_stages(start, a, tid_a, want),
        thread_stages(a, a_then_b, tid_b, want),
        thread_stages(start, b, tid_b, want),
        thread_stages(b, b_then_a, tid_a, want),
    ensures
        a_then_b == b_then_a,
{
    assert forall|i: int| 0 <= i < start.len() implies a_then_b[i] == b_then_a[i] by {
    }
    assert(a_then_b =~= b_then_a);
}

/// What lane `lane` of plane `plane` does to the scratch memory.
pub open spec fn lane_works<T>(
    before: Seq<T>,
    after: Seq<T>,
    plane: int,
    lane: int,
    want: spec_fn(int) -> T,
) -> bool {
    &&& lane_kept(before, after, plane * TILE_ELEMS, lane)
    &&& lane_filled(after, plane * TILE_ELEMS, lane, TILE_ELEMS as int, want)
}

/// Lanes can work in any order, within a plane and across planes: two of them
/// leave the same scratch memory whichever comes first.
pub proof fn lanes_commute<T>(
    start: Seq<T>,
    a: Seq<T>,
    a_then_b: Seq<T>,
    b: Seq<T>,
    b_then_a: Seq<T>,
    at_a: (int, int),
    at_b: (int, int),
    want_a: spec_fn(int) -> T,
    want_b: spec_fn(int) -> T,
)
    requires
        start.len() == SCRATCH_ELEMS,
        at_a != at_b,
        0 <= at_a.0 < NUM_PLANES,
        0 <= at_b.0 < NUM_PLANES,
        lane_works(start, a, at_a.0, at_a.1, want_a),
        lane_works(a, a_then_b, at_b.0, at_b.1, want_b),
        lane_works(start, b, at_b.0, at_b.1, want_b),
        lane_works(b, b_then_a, at_a.0, at_a.1, want_a),
    ensures
        a_then_b == b_then_a,
{
    assert forall|j: int| 0 <= j < start.len() implies a_then_b[j] == b_then_a[j] by {
        let owns_a = lane_owns(at_a.0 * TILE_ELEMS, at_a.1, j);
        let owns_b = lane_owns(at_b.0 * TILE_ELEMS, at_b.1, j);
        assert(!(owns_a && owns_b)) by {
            if owns_a && owns_b {
                assert(0 <= j - at_a.0 * 256 < 256);
                assert(0 <= j - at_b.0 * 256 < 256);
                assert(at_a.0 == at_b.0);
            }
        }
    }
    assert(a_then_b =~= b_then_a);
}

/// What plane `plane` does to the accumulators of its block at one tile of its
/// sweep.
pub open spec fn plane_accumulates<Q, D>(
    m: Model<Q, D>,
    before: Seq<[u32; 256]>,
    after: Seq<[u32; 256]>,
    plane: int,
    a: Seq<u16>,
    b: spec_fn(int) -> Seq<u16>,
) -> bool {
    &&& others_kept(before, after, plane)
    &&& accumulated(m, before, after, plane, a, b)
}

/// Planes can sweep in any order: two of them leave the same numbers in the
/// accumulators whichever comes first.
pub proof fn planes_commute<Q, D>(
    m: Model<Q, D>,
    start: Seq<[u32; 256]>,
    a: Seq<[u32; 256]>,
    a_then_b: Seq<[u32; 256]>,
    b: Seq<[u32; 256]>,
    b_then_a: Seq<[u32; 256]>,
    planes: (int, int),
    left: (Seq<u16>, Seq<u16>),
    right: (spec_fn(int) -> Seq<u16>, spec_fn(int) -> Seq<u16>),
    t: int,
)
    requires
        planes.0 != planes.1,
        0 <= t < NUM_PLANES * HD_TILES,
        plane_accumulates(m, start, a, planes.0, left.0, right.0),
        plane_accumulates(m, a, a_then_b, planes.1, left.1, right.1),
        plane_accumulates(m, start, b, planes.1, left.1, right.1),
        plane_accumulates(m, b, b_then_a, planes.0, left.0, right.0),
    ensures
        a_then_b[t]@ == b_then_a[t]@,
{
}

/// The rows that cube `(bh, block)` of a gradient kernel writes.
pub open spec fn cube_writes(seq: int, bh: int, block: int, j: int) -> bool {
    element(bh, seq, block * BLOCK, 0) <= j < element(bh, seq, (block + 1) * BLOCK, 0)
}

/// Every element of a gradient is one column of one row of one head.
pub proof fn every_element_has_a_place(heads: int, seq: int, j: int) -> (at: (int, int, int))
    requires
        0 <= heads,
        0 < seq,
        0 <= j < element(heads, seq, 0, 0),
    ensures
        0 <= at.0 < heads,
        0 <= at.1 < seq,
        0 <= at.2 < HEAD_DIM,
        j == element(at.0, seq, at.1, at.2),
{
    let line = j / 64;
    let col = j % 64;
    let bh = line / seq;
    let row = line % seq;
    vstd::arithmetic::div_mod::lemma_fundamental_div_mod(line, seq);
    vstd::arithmetic::div_mod::lemma_mod_bound(line, seq);
    assert(seq * bh == bh * seq) by (nonlinear_arith);
    assert(line < heads * seq);
    assert(0 <= bh < heads) by (nonlinear_arith)
        requires
            bh * seq + row == line,
            0 <= line < heads * seq,
            0 <= row < seq,
    ;
    (bh, row, col)
}

/// Every element of a gradient is written by exactly one cube, so the cubes of
/// a gradient kernel leave no gap, have no race and can run in any order.
pub proof fn cubes_share_out_a_gradient(heads: int, seq: int, j: int) -> (cube: (int, int))
    requires
        0 <= heads,
        0 < seq,
        seq % 64 == 0,
        0 <= j < element(heads, seq, 0, 0),
    ensures
        0 <= cube.0 < heads,
        0 <= cube.1 < seq / 64,
        forall|bh: int, block: int|
            0 <= bh < heads && 0 <= block < seq / 64 ==> (#[trigger] cube_writes(seq, bh, block, j)
                <==> bh == cube.0 && block == cube.1),
{
    let (b, row, col) = every_element_has_a_place(heads, seq, j);
    let cube = (b, row / 64);
    assert forall|bh: int, block: int|
        0 <= bh < heads && 0 <= block < seq / 64 implies (#[trigger] cube_writes(seq, bh, block, j)
        <==> bh == cube.0 && block == cube.1) by {
        lemma_element_block(b, bh, seq, row, col, block * BLOCK, (block + 1) * BLOCK);
    }
    cube
}

/// The gradients do not depend on what the outputs held before: any two
/// outputs of the same backward pass are the same, element by element.
pub proof fn gradients_are_determined<Q, D>(
    p: Problem<Q, D>,
    m: Model<Q, D>,
    heads: int,
    a: Seq<u32>,
    b: Seq<u32>,
    j: int,
)
    requires
        0 <= heads,
        0 < p.seq,
        0 <= j < element(heads, p.seq, 0, 0),
    ensures
        p.dq_written(m, heads, a) && p.dq_written(m, heads, b) ==> a[j] == b[j],
        p.dk_written(m, heads, a) && p.dk_written(m, heads, b) ==> a[j] == b[j],
        p.dv_written(m, heads, a) && p.dv_written(m, heads, b) ==> a[j] == b[j],
{
    let (bh, row, col) = every_element_has_a_place(heads, p.seq, j);
}

/// The sweeps skip only blocks of masked pairs.
pub proof fn skipped_pairs_are_masked(causal: bool, seq: int, q: int, k: int)
    requires
        seq % 64 == 0,
        0 <= q < seq,
        0 <= k < seq,
        sees(causal, q, k),
    ensures
        k / 64 < kv_end(causal, q / 64, seq),
        q_start(causal, k / 64) <= q / 64,
{
}

/// The two gradient kernels visit the same pairs of query and key blocks.
pub proof fn sweeps_agree(causal: bool, seq: int, q_block: int, kv_block: int)
    requires
        0 <= q_block < seq / 64,
        0 <= kv_block < seq / 64,
    ensures
        kv_block < kv_end(causal, q_block, seq) <==> q_start(causal, kv_block) <= q_block,
{
}

/// The grids cover the problem: every row has a thread of the row-sum kernel
/// and fewer threads than a cube holds are idle, and every row of every head
/// belongs to a cube of the gradient kernels, unless there are more rows than
/// 32 bits can count.
pub proof fn grids_cover_the_problem(plan: LaunchPlan, shape: Seq<usize>)
    requires
        plan.of(shape),
        0 < seq_len(shape),
        seq_len(shape) % 64 == 0,
        0 <= batch_heads(shape),
        batch_heads(shape) * seq_len(shape) < 0x1_0000_0000,
    ensures
        plan.total_rows == batch_heads(shape) * seq_len(shape),
        plan.total_rows <= plan.prepass_count.0 * plan.prepass_dim.0 < plan.total_rows
            + PREPASS_THREADS,
        plan.gradient_count.0 == batch_heads(shape),
        0 < plan.total_rows ==> plan.seq == seq_len(shape) && plan.gradient_count.1 * BLOCK
            == seq_len(shape),
        plan.gradient_dim.0 * plan.gradient_dim.1 * plan.gradient_dim.2 == THREADS,
{
    let heads = batch_heads(shape);
    let seq = seq_len(shape);
    assert(heads * seq >= 0) by (nonlinear_arith)
        requires
            heads >= 0,
            seq >= 0,
    ;
    assert(heads <= heads * seq) by (nonlinear_arith)
        requires
            heads >= 0,
            seq >= 1,
    ;
    if 0 < plan.total_rows {
        assert(heads != 0) by {
            if heads == 0 {
                assert(heads * seq == 0) by (nonlinear_arith)
                    requires
                        heads == 0,
                ;
            }
        }
        assert(seq <= heads * seq) by (nonlinear_arith)
            requires
                heads >= 1,
                seq >= 0,
        ;
    }
}

/// The transpose of a 16×16 tile.
pub open spec fn transposed<T>(t: Seq<T>) -> Seq<T> {
    Seq::new(TILE_ELEMS as nat, |i: int| t[(i % 16) * 16 + i / 16])
}

/// Tile products do not depend on which operand is called the first: the
/// product of the transposes, in the other order, is the transpose.
pub open spec fn transposes<Q, D>(m: Model<Q, D>) -> bool {
    forall|a: Seq<u16>, b: Seq<u16>, c: Seq<u32>|
        a.len() == TILE_ELEMS && b.len() == TILE_ELEMS && c.len() == TILE_ELEMS ==> {
            &&& (#[trigger] (m.mma)(a, b, c)).len() == TILE_ELEMS
            &&& (m.mma)(transposed(b), transposed(a), transposed(c)) == transposed(
                (m.mma)(a, b, c),
            )
        }
}

/// A tile of `y · xᵀ` is the transpose of one of `x · yᵀ`.
proof fn lemma_cross_transposes<Q, D>(
    m: Model<Q, D>,
    x: Matrix,
    xr: int,
    y: Matrix,
    yr: int,
    h: nat,
)
    requires
        transposes(m),
    ensures
        m.cross_partial(x, xr, y, yr, h).len() == TILE_ELEMS,
        m.cross_partial(y, yr, x, xr, h) == transposed(m.cross_partial(x, xr, y, yr, h)),
    decreases h,
{
    if h == 0 {
        assert(transposed(zero_tile()) =~= zero_tile());
    } else {
        lemma_cross_transposes(m, x, xr, y, yr, (h - 1) as nat);
        let c0 = (h - 1) * TILE;
        assert forall|i: int| 0 <= i < 256 implies #[trigger] ((i % 16) * 16 + i / 16) / 16 == i % 16
            && ((i % 16) * 16 + i / 16) % 16 == i / 16 by {}
        assert(transposed(tile_t(y, yr, c0)) =~= tile(y, yr, c0));
        assert(transposed(tile(x, xr, c0)) =~= tile_t(x, xr, c0));
    }
}

/// Both gradient kernels recompute the same scores, weight gradients and score
/// gradients, the one as tiles of queries by keys and the other transposed.
pub proof fn kernels_recompute_the_same_tiles<Q, D>(
    m: Model<Q, D>,
    p: Problem<Q, D>,
    bh: int,
    qr: int,
    kr: int,
)
    requires
        transposes(m),
    ensures
        p.st_tile(m, bh, kr, qr) == transposed(p.s_tile(m, bh, qr, kr)),
        p.dpt_tile(m, bh, kr, qr) == transposed(p.dp_tile(m, bh, qr, kr)),
        p.dst_tile(m, bh, kr, qr) == transposed(p.ds_tile(m, bh, qr, kr)),
{
    lemma_cross_transposes(m, p.q_half(m, bh), qr, p.k_half(m, bh), kr, HD_TILES as nat);
    lemma_cross_transposes(m, p.do_half(m, bh), qr, p.v_half(m, bh), kr, HD_TILES as nat);
    assert forall|i: int| 0 <= i < 256 implies #[trigger] ((i % 16) * 16 + i / 16) / 16 == i % 16
        && ((i % 16) * 16 + i / 16) % 16 == i / 16 by {}
    assert(p.dst_tile(m, bh, kr, qr) =~= transposed(p.ds_tile(m, bh, qr, kr)));
}

} // verus!
