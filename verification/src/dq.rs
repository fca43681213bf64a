//! The query-gradient kernel.

use vstd::prelude::*;
use crate::attention::{problem, tile, Problem, Tiles};
use crate::blocks::{lemma_cross_rows, lemma_head_end, lemma_staged_rows, lemma_tile_rows, rows_from};
use crate::geometry::{
    element, kv_end, kv_sweep_end, sees, visible, BLOCK, BLOCK_ELEMS, BLOCK_TILES, HD_TILES,
    HEAD_DIM, NUM_PLANES, PLANE_DIM, SCRATCH_ELEMS, TILE, TILE_ELEMS,
};
use crate::lanes::{
    lane_filled, lane_kept, lanes_filled, lemma_lane_next, lemma_lanes_next, plane_kept,
};
use crate::math::{grad, prob, Arithmetic, Model, ZERO};
use crate::stage::{copied, stage_kv, stage_q_do, stage_rows, staged};
use crate::sweep::{
    lemma_swept_row, lemma_sweep_block, lemma_sweep_plane, lemma_sweep_start, lemma_sweep_tile,
    product_sweep, swept, Sweep,
};
use crate::tile::{
    accumulated, block_matrix, cross_tile, in_tile, load_tile, others_kept, row_tiles,
    store_block, store_tile, stored_block, tile_slot, zero_accumulators, MatrixLayout,
};

verus! {

/// The shared memory of a block of the query-gradient kernel.
pub struct DqShared {
    /// The block's own queries.
    pub q: Vec<u16>,
    /// The output gradient of the block's own queries.
    pub do_: Vec<u16>,
    /// The keys of the block that is swept.
    pub k: Vec<u16>,
    /// The values of the block that is swept.
    pub v: Vec<u16>,
    /// The log-sum-exp of the block's own queries.
    pub lse: Vec<u32>,
    /// The row sums of the block's own queries.
    pub d: Vec<u32>,
    /// A score tile of each plane.
    pub s: Vec<u32>,
    /// A weight-gradient tile of each plane.
    pub dp: Vec<u32>,
    /// A score-gradient tile of each plane.
    pub ds: Vec<u16>,
}

impl DqShared {
    /// Every buffer has its size.
    pub open spec fn wf(self) -> bool {
        &&& self.q.len() == BLOCK_ELEMS
        &&& self.do_.len() == BLOCK_ELEMS
        &&& self.k.len() == BLOCK_ELEMS
        &&& self.v.len() == BLOCK_ELEMS
        &&& self.lse.len() == BLOCK
        &&& self.d.len() == BLOCK
        &&& self.s.len() == SCRATCH_ELEMS
        &&& self.dp.len() == SCRATCH_ELEMS
        &&& self.ds.len() == SCRATCH_ELEMS
    }

    /// The inputs in shared memory are those of `before`.
    pub open spec fn same_inputs(self, before: DqShared) -> bool {
        &&& self.q == before.q
        &&& self.do_ == before.do_
        &&& self.k == before.k
        &&& self.v == before.v
        &&& self.lse == before.lse
        &&& self.d == before.d
    }

    /// Element `i` of a plane's score-gradient tile, from its score `s` and
    /// weight gradient `dp`.
    pub open spec fn ds_value<Q, D>(
        self,
        m: Model<Q, D>,
        at: DqTile,
        s: Seq<u32>,
        dp: Seq<u32>,
        i: int,
    ) -> u16 {
        let row = at.plane * TILE + i / 16;
        let seen = sees(at.causal, at.q0 + row, at.kv0 + at.kv_tile * TILE + i % 16);
        let p = m.weight(seen, s[i], at.scale, self.lse@[row]);
        (m.narrow)(m.grad(p, dp[i], self.d@[row], at.scale))
    }

    /// The score-gradient tile of a plane, from its scratch tiles.
    pub open spec fn scratch_ds<Q, D>(self, m: Model<Q, D>, at: DqTile) -> spec_fn(int) -> u16 {
        |i: int|
            self.ds_value(m, at, self.s@.skip(at.plane * 256), self.dp@.skip(at.plane * 256), i)
    }

    /// The score-gradient tile of a plane, from the blocks in shared memory.
    pub open spec fn ds_tile<Q, D>(self, m: Model<Q, D>, at: DqTile) -> Seq<u16> {
        let qr = at.plane * TILE;
        let kr = at.kv_tile * TILE;
        let s = m.cross(block_matrix(self.q@), qr, block_matrix(self.k@), kr);
        let dp = m.cross(block_matrix(self.do_@), qr, block_matrix(self.v@), kr);
        Seq::new(TILE_ELEMS as nat, |i: int| self.ds_value(m, at, s, dp, i))
    }

    /// Fresh shared memory, cleared.
    pub fn new() -> (r: Self)
        ensures
            r.wf(),
            r.q@ == Seq::new(BLOCK_ELEMS as nat, |i: int| 0u16),
            r.do_@ == Seq::new(BLOCK_ELEMS as nat, |i: int| 0u16),
            r.k@ == Seq::new(BLOCK_ELEMS as nat, |i: int| 0u16),
            r.v@ == Seq::new(BLOCK_ELEMS as nat, |i: int| 0u16),
            r.lse@ == Seq::new(BLOCK as nat, |i: int| 0u32),
            r.d@ == Seq::new(BLOCK as nat, |i: int| 0u32),
            r.s@ == Seq::new(SCRATCH_ELEMS as nat, |i: int| 0u32),
            r.dp@ == Seq::new(SCRATCH_ELEMS as nat, |i: int| 0u32),
            r.ds@ == Seq::new(SCRATCH_ELEMS as nat, |i: int| 0u16),
    {
        DqShared {
            q: vec![0u16; BLOCK_ELEMS],
            do_: vec![0u16; BLOCK_ELEMS],
            k: vec![0u16; BLOCK_ELEMS],
            v: vec![0u16; BLOCK_ELEMS],
            lse: vec![0u32; BLOCK],
            d: vec![0u32; BLOCK],
            s: vec![0u32; SCRATCH_ELEMS],
            dp: vec![0u32; SCRATCH_ELEMS],
            ds: vec![0u16; SCRATCH_ELEMS],
        }
    }
}

/// Where in the sweep a plane of the query-gradient kernel is.
#[derive(Debug, PartialEq, Eq, Structural, Clone, Copy)]
pub struct DqTile {
    /// The plane, which owns 16 of the block's queries.
    pub plane: usize,
    /// The tile of the swept key block.
    pub kv_tile: usize,
    /// The first query of the block.
    pub q0: usize,
    /// The first key of the swept block.
    pub kv0: usize,
    /// The fp32 bits of the softmax scale.
    pub scale: u32,
    /// Whether the causal mask applies.
    pub causal: bool,
}

impl DqTile {
    /// The tile lies in the block.
    pub open spec fn wf(self) -> bool {
        &&& self.plane < NUM_PLANES
        &&& self.kv_tile < BLOCK_TILES
        &&& self.q0 + BLOCK <= usize::MAX
        &&& self.kv0 + BLOCK <= usize::MAX
    }
}

/// Element `i` of a plane's score-gradient tile, from the plane's scratch
/// tiles.
pub fn dq_element<Q, D, A: Arithmetic<Q, D>>(math: &A, sh: &DqShared, at: DqTile, i: usize) -> (r:
    u16)
    requires
        math.ready(),
        sh.wf(),
        at.wf(),
        i < TILE_ELEMS,
    ensures
        forall|m: Model<Q, D>| #[trigger]
            math.computes(m) ==> r == sh.scratch_ds(m, at)(i as int),
        forall|m: Model<Q, D>| #[trigger]
            math.computes(m) ==> {
                let row = at.plane * 16 + i as int / 16;
                let p = if !at.causal || at.kv0 + at.kv_tile * 16 + i as int % 16 <= at.q0 + row {
                    (m.exp)(
                        (m.minus)((m.times)(sh.s@[at.plane * 256 + i], at.scale), sh.lse@[row]),
                    )
                } else {
                    0u32
                };
                r == (m.narrow)(
                    (m.times)(
                        (m.times)(p, (m.minus)(sh.dp@[at.plane * 256 + i], sh.d@[row])),
                        at.scale,
                    ),
                )
            },
{
    let scratch_base: usize = at.plane * TILE_ELEMS;
    let q_row: usize = i / TILE;
    let kv_col: usize = i % TILE;
    let global_q: usize = at.q0 + at.plane * TILE + q_row;
    let global_k: usize = at.kv0 + at.kv_tile * TILE + kv_col;
    let mut p: u32 = ZERO;
    if visible(at.causal, global_q, global_k) {
        p = prob(math, sh.s[scratch_base + i], at.scale, sh.lse[at.plane * TILE + q_row]);
    }
    let ds: u32 = grad(
        math,
        p,
        sh.dp[scratch_base + i],
        sh.d[at.plane * TILE + q_row],
        at.scale,
    );
    math.narrow(ds)
}

/// Lane `lane`'s share of a plane's score-gradient tile: the elements `lane`,
/// `lane + 32`, `lane + 64` and so on.
pub fn dq_lane<Q, D, A: Arithmetic<Q, D>>(math: &A, sh: &mut DqShared, at: DqTile, lane: usize)
    requires
        math.ready(),
        old(sh).wf(),
        at.wf(),
        lane < PLANE_DIM,
    ensures
        final(sh).wf(),
        final(sh).same_inputs(*old(sh)),
        final(sh).s == old(sh).s,
        final(sh).dp == old(sh).dp,
        lane_kept(old(sh).ds@, final(sh).ds@, at.plane * 256, lane as int),
        forall|m: Model<Q, D>| #[trigger]
            math.computes(m) ==> lane_filled(
                final(sh).ds@,
                at.plane * 256,
                lane as int,
                TILE_ELEMS as int,
                old(sh).scratch_ds(m, at),
            ),
{
    let ghost before = *sh;
    let scratch_base: usize = at.plane * TILE_ELEMS;
    let mut i: usize = lane;
    while i < TILE_ELEMS
        invariant
            math.ready(),
            sh.wf(),
            at.wf(),
            lane < PLANE_DIM,
            scratch_base == at.plane * 256,
            i % 32 == lane,
            i < TILE_ELEMS + PLANE_DIM,
            sh.same_inputs(before),
            sh.s == before.s,
            sh.dp == before.dp,
            lane_kept(before.ds@, sh.ds@, scratch_base as int, lane as int),
            forall|m: Model<Q, D>| #[trigger]
                math.computes(m) ==> lane_filled(
                    sh.ds@,
                    scratch_base as int,
                    lane as int,
                    i as int,
                    before.scratch_ds(m, at),
                ),
        decreases TILE_ELEMS + PLANE_DIM - i,
    {
        let ghost last = sh.ds@;
        let ds: u16 = dq_element(math, sh, at, i);
        sh.ds[scratch_base + i] = ds;
        assert forall|m: Model<Q, D>| #[trigger] math.computes(m) implies lane_filled(
            sh.ds@,
            scratch_base as int,
            lane as int,
            i + PLANE_DIM,
            before.scratch_ds(m, at),
        ) by {
            assert(ds == before.scratch_ds(m, at)(i as int));
            lemma_lane_next(
                last,
                scratch_base as int,
                lane as int,
                i as int,
                before.scratch_ds(m, at),
            );
        }
        i += PLANE_DIM as usize;
    }
}

/// One tile of a plane's sweep: recomputes the score-gradient tile of the
/// plane's queries and key tile `at.kv_tile` and adds its product with the
/// keys to the plane's accumulators.
pub fn dq_plane_step<Q, D, A: Arithmetic<Q, D>>(
    math: &A,
    sh: &mut DqShared,
    acc: &mut Vec<[u32; 256]>,
    at: DqTile,
)
    requires
        math.ready(),
        old(sh).wf(),
        at.wf(),
        old(acc).len() == NUM_PLANES * HD_TILES,
    ensures
        final(sh).wf(),
        final(sh).same_inputs(*old(sh)),
        plane_kept(old(sh).s@, final(sh).s@, at.plane as int),
        plane_kept(old(sh).dp@, final(sh).dp@, at.plane as int),
        plane_kept(old(sh).ds@, final(sh).ds@, at.plane as int),
        others_kept(old(acc)@, final(acc)@, at.plane as int),
        forall|m: Model<Q, D>| #[trigger]
            math.computes(m) ==> accumulated(
                m,
                old(acc)@,
                final(acc)@,
                at.plane as int,
                old(sh).ds_tile(m, at),
                row_tiles(block_matrix(old(sh).k@), at.kv_tile * TILE),
            ),
{
    let ghost before = *sh;
    let ghost acc_before = acc@;
    let scratch_base: usize = at.plane * TILE_ELEMS;

    // dP = dO · Vᵀ
    let dp = cross_tile(math, &sh.do_, at.plane * TILE, &sh.v, at.kv_tile * TILE);
    store_tile(&mut sh.dp, scratch_base, TILE, &dp);

    // S = Q · Kᵀ
    let s = cross_tile(math, &sh.q, at.plane * TILE, &sh.k, at.kv_tile * TILE);
    store_tile(&mut sh.s, scratch_base, TILE, &s);

    let ghost sb = at.plane * 256;
    proof {
        assert forall|i: int| 0 <= i < 256 implies #[trigger] sh.s@.skip(sb)[i] == s@[i] by {
            assert(in_tile(sb, 16, sb + i) && tile_slot(sb, 16, sb + i) == i);
        }
        assert forall|i: int| 0 <= i < 256 implies #[trigger] sh.dp@.skip(sb)[i] == dp@[i] by {
            assert(in_tile(sb, 16, sb + i) && tile_slot(sb, 16, sb + i) == i);
        }
    }

    let ghost ready = *sh;

    // The plane synchronizes before and after its lanes work.
    // dS = P ⊙ (dP - D) · scale with P = exp(s · scale - lse)
    for lane in 0..PLANE_DIM as usize
        invariant
            math.ready(),
            sh.wf(),
            at.wf(),
            sb == at.plane * 256,
            sh.same_inputs(before),
            sh.s == ready.s,
            sh.dp == ready.dp,
            sh.same_inputs(ready),
            plane_kept(before.ds@, sh.ds@, at.plane as int),
            forall|m: Model<Q, D>| #[trigger]
                math.computes(m) ==> lanes_filled(sh.ds@, sb, lane as int, ready.scratch_ds(m, at)),
    {
        let ghost last = *sh;
        dq_lane(math, sh, at, lane);
        assert forall|m: Model<Q, D>| #[trigger] math.computes(m) implies lanes_filled(
            sh.ds@,
            sb,
            lane + 1,
            ready.scratch_ds(m, at),
        ) by {
            assert(last.scratch_ds(m, at) =~= ready.scratch_ds(m, at));
            lemma_lanes_next(last.ds@, sh.ds@, sb, lane as int, ready.scratch_ds(m, at));
        }
    }
    assert forall|m: Model<Q, D>, j: int|
        #![trigger math.computes(m), sh.ds@[j]]
        math.computes(m) && 0 <= j - sb < 256 implies sh.ds@[j] == before.ds_value(
        m,
        at,
        s@,
        dp@,
        j - sb,
    ) by {
        assert(sh.ds@[j] == ready.scratch_ds(m, at)(j - sb));
    }

    // dQ += dS · K
    for h in 0..HD_TILES
        invariant
            math.ready(),
            sh.wf(),
            at.wf(),
            plane_kept(before.s@, sh.s@, at.plane as int),
            plane_kept(before.dp@, sh.dp@, at.plane as int),
            plane_kept(before.ds@, sh.ds@, at.plane as int),
            sb == at.plane * 256,
            scratch_base == sb,
            sh.same_inputs(before),
            acc.len() == NUM_PLANES * HD_TILES,
            acc_before.len() == NUM_PLANES * HD_TILES,
            forall|m: Model<Q, D>| #[trigger]
                math.computes(m) ==> {
                    &&& s@ == m.cross(
                        block_matrix(before.q@),
                        at.plane * TILE,
                        block_matrix(before.k@),
                        at.kv_tile * TILE,
                    )
                    &&& dp@ == m.cross(
                        block_matrix(before.do_@),
                        at.plane * TILE,
                        block_matrix(before.v@),
                        at.kv_tile * TILE,
                    )
                },
            forall|m: Model<Q, D>, j: int|
                #![trigger math.computes(m), sh.ds@[j]]
                math.computes(m) && 0 <= j - sb < 256 ==> sh.ds@[j] == before.ds_value(
                    m,
                    at,
                    s@,
                    dp@,
                    j - sb,
                ),
            forall|t: int|
                0 <= t < NUM_PLANES * HD_TILES && !(t / 4 == at.plane && t % 4 < h) ==> #[trigger] acc@[t]
                    == acc_before[t],
            forall|m: Model<Q, D>, t: int|
                #![trigger math.computes(m), acc@[t]]
                math.computes(m) && 0 <= t < NUM_PLANES * HD_TILES && t / 4 == at.plane && t % 4 < h
                    ==> acc@[t]@ == (m.mma)(
                    before.ds_tile(m, at),
                    tile(block_matrix(before.k@), at.kv_tile * TILE, (t % 4) * TILE),
                    acc_before[t]@,
                ),
    {
        let a = load_tile(&sh.ds, scratch_base, TILE, MatrixLayout::RowMajor);
        let b = load_tile(
            &sh.k,
            at.kv_tile * TILE * HEAD_DIM + h * TILE,
            HEAD_DIM,
            MatrixLayout::RowMajor,
        );
        assert(b@ =~= tile(block_matrix(before.k@), at.kv_tile * TILE, h * TILE));
        assert forall|m: Model<Q, D>| #[trigger] math.computes(m) implies a@ == before.ds_tile(m, at) by {
            assert(a@ =~= before.ds_tile(m, at));
        }
        let t: usize = at.plane * HD_TILES + h;
        let c = math.mma(&a, &b, &acc[t]);
        acc[t] = c;
    }
}

/// The block's own rows of head `bh` are in shared memory.
spec fn own_rows<Q, D>(sh: DqShared, m: Model<Q, D>, p: Problem<Q, D>, bh: int, q0: int) -> bool {
    &&& rows_from(block_matrix(sh.q@), p.q_half(m, bh), q0)
    &&& rows_from(block_matrix(sh.do_@), p.do_half(m, bh), q0)
    &&& staged(sh.lse@, copied(p.lse, bh * p.seq + q0))
    &&& staged(sh.d@, copied(p.d, bh * p.seq + q0))
}

/// The swept rows of head `bh` are in shared memory.
spec fn swept_rows<Q, D>(sh: DqShared, m: Model<Q, D>, p: Problem<Q, D>, bh: int, kv0: int) -> bool {
    &&& rows_from(block_matrix(sh.k@), p.k_half(m, bh), kv0)
    &&& rows_from(block_matrix(sh.v@), p.v_half(m, bh), kv0)
}

/// What a plane adds to its accumulators is the product of the head's
/// score-gradient tile with the head's keys.
proof fn lemma_plane_step<Q, D>(
    sh: DqShared,
    m: Model<Q, D>,
    p: Problem<Q, D>,
    bh: int,
    at: DqTile,
    h: int,
)
    requires
        sh.wf(),
        at.wf(),
        at.scale == p.scale,
        at.causal == p.causal,
        own_rows(sh, m, p, bh, at.q0 as int),
        swept_rows(sh, m, p, bh, at.kv0 as int),
        0 <= h < HD_TILES,
    ensures
        sh.ds_tile(m, at) == p.ds_tile(m, bh, at.q0 + at.plane * TILE, at.kv0 + at.kv_tile * TILE),
        tile(block_matrix(sh.k@), at.kv_tile * TILE, h * TILE) == tile(
            p.k_half(m, bh),
            at.kv0 + at.kv_tile * TILE,
            h * TILE,
        ),
{
    let qr = at.plane * TILE;
    let kr = at.kv_tile * TILE;
    lemma_cross_rows(
        m,
        block_matrix(sh.q@),
        p.q_half(m, bh),
        at.q0 as int,
        qr,
        block_matrix(sh.k@),
        p.k_half(m, bh),
        at.kv0 as int,
        kr,
        HD_TILES as nat,
    );
    lemma_cross_rows(
        m,
        block_matrix(sh.do_@),
        p.do_half(m, bh),
        at.q0 as int,
        qr,
        block_matrix(sh.v@),
        p.v_half(m, bh),
        at.kv0 as int,
        kr,
        HD_TILES as nat,
    );
    lemma_tile_rows(block_matrix(sh.k@), p.k_half(m, bh), at.kv0 as int, kr, h * TILE);
    assert(sh.ds_tile(m, at) =~= p.ds_tile(m, bh, at.q0 + qr, at.kv0 + kr)) by {
        assert forall|i: int| 0 <= i < 256 implies #[trigger] sh.ds_tile(m, at)[i] == p.ds_tile(
            m,
            bh,
            at.q0 + qr,
            at.kv0 + kr,
        )[i] by {
            let row = qr + i / 16;
            assert(sh.lse@[row] == copied(p.lse, bh * p.seq + at.q0)(row));
            assert(sh.d@[row] == copied(p.d, bh * p.seq + at.q0)(row));
        }
    }
}

/// The query gradient of the block from `q0`, as its accumulators sweep it.
spec fn dq_sweep<Q, D>(m: Model<Q, D>, p: Problem<Q, D>, bh: int, q0: int) -> Sweep {
    product_sweep(m, dq_tiles(m, p, bh, q0), p.k_half(m, bh), 0)
}

/// The score-gradient tiles of each plane of the block from `q0`.
spec fn dq_tiles<Q, D>(m: Model<Q, D>, p: Problem<Q, D>, bh: int, q0: int) -> spec_fn(int) -> Tiles {
    |plane: int| p.ds_tiles(m, bh, q0 + plane * TILE)
}

/// A plane's step takes its accumulators one key tile further.
proof fn lemma_dq_sweep_tile<Q, D>(
    sh: DqShared,
    m: Model<Q, D>,
    p: Problem<Q, D>,
    bh: int,
    at: DqTile,
    before: Seq<[u32; 256]>,
    acc: Seq<[u32; 256]>,
    blocks: int,
)
    requires
        sh.wf(),
        at.wf(),
        at.scale == p.scale,
        at.causal == p.causal,
        at.kv0 == blocks * BLOCK,
        own_rows(sh, m, p, bh, at.q0 as int),
        swept_rows(sh, m, p, bh, at.kv0 as int),
        swept(before, dq_sweep(m, p, bh, at.q0 as int), blocks, at.plane as int, at.kv_tile as int),
        others_kept(before, acc, at.plane as int),
        accumulated(
            m,
            before,
            acc,
            at.plane as int,
            sh.ds_tile(m, at),
            row_tiles(block_matrix(sh.k@), at.kv_tile * TILE),
        ),
    ensures
        swept(acc, dq_sweep(m, p, bh, at.q0 as int), blocks, at.plane as int, at.kv_tile + 1),
{
    let right = row_tiles(block_matrix(sh.k@), at.kv_tile * TILE);
    assert forall|h: int| 0 <= h < HD_TILES implies #[trigger] right(h) == tile(
        p.k_half(m, bh),
        blocks * BLOCK + at.kv_tile * TILE,
        h * TILE,
    ) by {
        lemma_plane_step(sh, m, p, bh, at, h);
    }
    lemma_plane_step(sh, m, p, bh, at, 0);
    lemma_sweep_tile(
        m,
        before,
        acc,
        dq_tiles(m, p, bh, at.q0 as int),
        p.k_half(m, bh),
        0,
        blocks,
        at.plane as int,
        at.kv_tile as int,
        sh.ds_tile(m, at),
        right,
    );
}

/// A stored block of finished accumulators holds the query gradient.
proof fn lemma_dq_row<Q, D>(
    m: Model<Q, D>,
    p: Problem<Q, D>,
    bh: int,
    block: int,
    out: Seq<u32>,
    acc: Seq<[u32; 256]>,
    row: int,
    col: int,
)
    requires
        block * BLOCK <= row < (block + 1) * BLOCK,
        0 <= col < HEAD_DIM,
        stored_block(out, element(bh, p.seq, block * BLOCK, 0), acc),
        swept(acc, dq_sweep(m, p, bh, block * BLOCK), kv_end(p.causal, block, p.seq), 0, 0),
    ensures
        out[element(bh, p.seq, row, col)] == p.dq_value(m, bh, row, col),
{
    let lo = element(bh, p.seq, block * BLOCK, 0);
    let end = kv_end(p.causal, block, p.seq);
    let f = dq_sweep(m, p, bh, block * BLOCK);
    let plane = lemma_swept_row(out, lo, acc, f, end, block, row, col);
    assert(element(bh, p.seq, row, col) == lo + (row - block * BLOCK) * HEAD_DIM + col);
}

/// The query-gradient kernel for cube `(bh, q_block)`: writes the 64 rows of
/// block `q_block` of head `bh` of `dq`.
///
/// Each plane owns 16 of the block's queries and sweeps the visible key
/// tiles. Under the causal mask the sweep ends with the block's own keys.
pub fn flash_backward_dq_kernel<Q: Copy, D: Copy, A: Arithmetic<Q, D>>(
    math: &A,
    q: &Vec<Q>,
    k: &Vec<Q>,
    v: &Vec<Q>,
    do_: &Vec<D>,
    lse: &Vec<u32>,
    d: &Vec<u32>,
    dq: &mut Vec<u32>,
    seq: u32,
    scale: u32,
    causal: bool,
    bh: u32,
    q_block: u32,
)
    requires
        math.ready(),
        (q_block + 1) * BLOCK <= seq,
        element(bh + 1, seq as int, 0, 0) <= q.len(),
        element(bh + 1, seq as int, 0, 0) <= k.len(),
        element(bh + 1, seq as int, 0, 0) <= v.len(),
        element(bh + 1, seq as int, 0, 0) <= do_.len(),
        element(bh + 1, seq as int, 0, 0) <= old(dq).len(),
        (bh + 1) * seq <= lse.len(),
        (bh + 1) * seq <= d.len(),
    ensures
        final(dq).len() == old(dq).len(),
        forall|j: int|
            0 <= j < old(dq).len() && !(element(bh as int, seq as int, q_block * BLOCK, 0) <= j
                < element(bh as int, seq as int, (q_block + 1) * BLOCK, 0)) ==> #[trigger] final(
                dq)@[j] == old(dq)@[j],
        forall|m: Model<Q, D>, row: int, col: int|
            #![trigger math.computes(m), element(bh as int, seq as int, row, col)]
            math.computes(m) && q_block * BLOCK <= row < (q_block + 1) * BLOCK && 0 <= col
                < HEAD_DIM ==> final(dq)@[element(bh as int, seq as int, row, col)] == problem(
                q@,
                k@,
                v@,
                do_@,
                lse@,
                d@,
                seq,
                scale,
                causal,
            ).dq_value(m, bh as int, row, col),
{
    let ghost p = problem(q@, k@, v@, do_@, lse@, d@, seq, scale, causal);
    let ghost g_bh = bh as int;
    let seq: usize = seq as usize;
    let bh: usize = bh as usize;
    let q_block: usize = q_block as usize;
    proof {
        lemma_head_end(g_bh, seq as int);
    }
    let row_base: usize = bh * seq;
    let base: usize = row_base * HEAD_DIM;
    let q0: usize = q_block * BLOCK;

    let mut sh = DqShared::new();
    stage_q_do(math, q, do_, base, q0, &mut sh.q, &mut sh.do_);
    stage_rows(lse, d, row_base + q0, &mut sh.lse, &mut sh.d);
    proof {
        assert forall|m: Model<Q, D>| #[trigger] math.computes(m) implies own_rows(
            sh,
            m,
            p,
            g_bh,
            q0 as int,
        ) by {
            lemma_staged_rows(sh.q@, m.narrow_q, q@, p.q_half(m, g_bh), g_bh, p.seq, q0 as int);
            lemma_staged_rows(sh.do_@, m.narrow_do, do_@, p.do_half(m, g_bh), g_bh, p.seq, q0 as int);
        }
    }

    let mut acc: Vec<[u32; 256]> = zero_accumulators();
    proof {
        assert forall|m: Model<Q, D>| #[trigger] math.computes(m) implies swept(
            acc@,
            dq_sweep(m, p, g_bh, q0 as int),
            0,
            0,
            0,
        ) by {
            lemma_sweep_start(
                m,
                acc@,
                dq_tiles(m, p, g_bh, q0 as int),
                p.k_half(m, g_bh),
                0,
            );
        }
    }

    let end: usize = kv_sweep_end(causal, q_block, seq);
    for kv_block in 0..end
        invariant
            math.ready(),
            sh.wf(),
            acc.len() == NUM_PLANES * HD_TILES,
            p == problem(q@, k@, v@, do_@, lse@, d@, seq as u32, scale, causal),
            p.seq == seq,
            g_bh == bh,
            base == bh * seq * HEAD_DIM,
            base + seq * HEAD_DIM <= k.len(),
            base + seq * HEAD_DIM <= v.len(),
            q0 + BLOCK <= seq,
            end * BLOCK <= seq,
            forall|m: Model<Q, D>| #[trigger]
                math.computes(m) ==> own_rows(sh, m, p, g_bh, q0 as int),
            forall|m: Model<Q, D>| #[trigger]
                math.computes(m) ==> swept(
                    acc@,
                    dq_sweep(m, p, g_bh, q0 as int),
                    kv_block as int,
                    0,
                    0,
                ),
    {
        let kv0: usize = kv_block * BLOCK;
        // The cube synchronizes before and after it stages, so that no plane
        // reads a block that is being replaced.
        stage_kv(math, k, v, base, kv0, &mut sh.k, &mut sh.v);
        proof {
            assert forall|m: Model<Q, D>| #[trigger] math.computes(m) implies swept_rows(
                sh,
                m,
                p,
                g_bh,
                kv0 as int,
            ) by {
                lemma_staged_rows(sh.k@, m.narrow_q, k@, p.k_half(m, g_bh), g_bh, p.seq, kv0 as int);
                lemma_staged_rows(sh.v@, m.narrow_q, v@, p.v_half(m, g_bh), g_bh, p.seq, kv0 as int);
            }
        }
        for plane in 0..NUM_PLANES as usize
            invariant
                math.ready(),
                sh.wf(),
                acc.len() == NUM_PLANES * HD_TILES,
                p.seq == seq,
                p.scale == scale,
                p.causal == causal,
                q0 + BLOCK <= seq,
                kv0 == kv_block * BLOCK,
                kv0 + BLOCK <= seq,
                forall|m: Model<Q, D>| #[trigger]
                    math.computes(m) ==> own_rows(sh, m, p, g_bh, q0 as int),
                forall|m: Model<Q, D>| #[trigger]
                    math.computes(m) ==> swept_rows(sh, m, p, g_bh, kv0 as int),
                forall|m: Model<Q, D>| #[trigger]
                    math.computes(m) ==> swept(
                        acc@,
                        dq_sweep(m, p, g_bh, q0 as int),
                        kv_block as int,
                        plane as int,
                        0,
                    ),
        {
            for kv_tile in 0..BLOCK_TILES
                invariant
                    math.ready(),
                    sh.wf(),
                    acc.len() == NUM_PLANES * HD_TILES,
                    plane < NUM_PLANES,
                    p.seq == seq,
                    p.scale == scale,
                    p.causal == causal,
                    q0 + BLOCK <= seq,
                    kv0 == kv_block * BLOCK,
                    kv0 + BLOCK <= seq,
                    forall|m: Model<Q, D>| #[trigger]
                        math.computes(m) ==> own_rows(sh, m, p, g_bh, q0 as int),
                    forall|m: Model<Q, D>| #[trigger]
                        math.computes(m) ==> swept_rows(sh, m, p, g_bh, kv0 as int),
                    forall|m: Model<Q, D>| #[trigger]
                        math.computes(m) ==> swept(
                            acc@,
                            dq_sweep(m, p, g_bh, q0 as int),
                            kv_block as int,
                            plane as int,
                            kv_tile as int,
                        ),
            {
                let at = DqTile { plane, kv_tile, q0, kv0, scale, causal };
                let ghost last = sh;
                let ghost acc_last = acc@;
                dq_plane_step(math, &mut sh, &mut acc, at);
                proof {
                    assert forall|m: Model<Q, D>| #[trigger] math.computes(m) implies swept(
                        acc@,
                        dq_sweep(m, p, g_bh, q0 as int),
                        kv_block as int,
                        plane as int,
                        kv_tile + 1,
                    ) by {
                        lemma_dq_sweep_tile(last, m, p, g_bh, at, acc_last, acc@, kv_block as int);
                    }
                }
            }
            proof {
                assert forall|m: Model<Q, D>| #[trigger] math.computes(m) implies swept(
                    acc@,
                    dq_sweep(m, p, g_bh, q0 as int),
                    kv_block as int,
                    plane + 1,
                    0,
                ) by {
                    lemma_sweep_plane(
                        acc@,
                        dq_sweep(m, p, g_bh, q0 as int),
                        kv_block as int,
                        plane as int,
                    );
                }
            }
        }
        proof {
            assert forall|m: Model<Q, D>| #[trigger] math.computes(m) implies swept(
                acc@,
                dq_sweep(m, p, g_bh, q0 as int),
                kv_block + 1,
                0,
                0,
            ) by {
                lemma_sweep_block(acc@, dq_sweep(m, p, g_bh, q0 as int), kv_block as int);
            }
        }
    }

    store_block(dq, base + q0 * HEAD_DIM, &acc);
    proof {
        assert(element(g_bh, p.seq, q_block * BLOCK, 0) == base + q0 * HEAD_DIM);
        assert(stored_block(dq@, element(g_bh, p.seq, q_block * BLOCK, 0), acc@));
        assert forall|m: Model<Q, D>, row: int, col: int|
            #![trigger math.computes(m), element(g_bh, p.seq, row, col)]
            math.computes(m) && q0 <= row < q0 + BLOCK && 0 <= col < HEAD_DIM implies dq@[element(
            g_bh,
            p.seq,
            row,
            col,
        )] == p.dq_value(m, g_bh, row, col) by {
            lemma_dq_row(m, p, g_bh, q_block as int, dq@, acc@, row, col);
        }
    }
}

} // verus!
