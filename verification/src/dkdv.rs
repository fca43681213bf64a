//! The key- and value-gradient kernel.

use vstd::arithmetic::mul::lemma_mul_is_distributive_sub_other_way;
use vstd::prelude::*;
use crate::attention::{problem, tile, Problem, Tiles};
use crate::blocks::{
    lemma_cross_rows, lemma_head_end, lemma_staged_rows, lemma_tile_rows, rows_from,
};
use crate::geometry::{
    element, q_start, q_sweep_start, sees, visible, BLOCK, BLOCK_ELEMS, BLOCK_TILES, HD_TILES,
    HEAD_DIM, NUM_PLANES, PLANE_DIM, SCRATCH_ELEMS, TILE, TILE_ELEMS,
};
use crate::lanes::{
    lane_filled, lane_kept, lanes_filled, lemma_lane_next, lemma_lanes_next, plane_kept,
};
use crate::math::{grad, prob, Arithmetic, Model, ZERO};
use crate::stage::{copied, stage_kv, stage_q_do, stage_rows, staged};
use crate::sweep::{
    lemma_swept_row, lemma_sweep_block, lemma_sweep_plane, lemma_sweep_start, lemma_sweep_tile,
    product_sweep, swept, Sweep,
};
use crate::tile::{
    accumulated, block_matrix, cross_tile, in_tile, load_tile, others_kept, row_tiles,
    store_block, store_tile, stored_block, tile_slot, zero_accumulators, MatrixLayout,
};

verus! {

/// The shared memory of a block of the key- and value-gradient kernel.
pub struct DkdvShared {
    /// The block's own keys.
    pub k: Vec<u16>,
    /// The block's own values.
    pub v: Vec<u16>,
    /// The queries of the block that is swept.
    pub q: Vec<u16>,
    /// The output gradient of the queries that are swept.
    pub do_: Vec<u16>,
    /// The log-sum-exp of the queries that are swept.
    pub lse: Vec<u32>,
    /// The row sums of the queries that are swept.
    pub d: Vec<u32>,
    /// A transposed score tile of each plane.
    pub s: Vec<u32>,
    /// A transposed weight-gradient tile of each plane.
    pub dp: Vec<u32>,
    /// A transposed weight tile of each plane.
    pub p: Vec<u16>,
    /// A transposed score-gradient tile of each plane.
    pub ds: Vec<u16>,
}

impl DkdvShared {
    /// Every buffer has its size.
    pub open spec fn wf(self) -> bool {
        &&& self.k.len() == BLOCK_ELEMS
        &&& self.v.len() == BLOCK_ELEMS
        &&& self.q.len() == BLOCK_ELEMS
        &&& self.do_.len() == BLOCK_ELEMS
        &&& self.lse.len() == BLOCK
        &&& self.d.len() == BLOCK
        &&& self.s.len() == SCRATCH_ELEMS
        &&& self.dp.len() == SCRATCH_ELEMS
        &&& self.p.len() == SCRATCH_ELEMS
        &&& self.ds.len() == SCRATCH_ELEMS
    }

    /// The inputs in shared memory are those of `before`.
    pub open spec fn same_inputs(self, before: DkdvShared) -> bool {
        &&& self.k == before.k
        &&& self.v == before.v
        &&& self.q == before.q
        &&& self.do_ == before.do_
        &&& self.lse == before.lse
        &&& self.d == before.d
    }

    /// The softmax weight at element `i` of a plane's transposed tile, from
    /// its score `s`.
    pub open spec fn weight<Q, D>(self, m: Model<Q, D>, at: DkdvTile, s: Seq<u32>, i: int) -> u32 {
        let q = at.q_tile * TILE + i % 16;
        let seen = sees(at.causal, at.q0 + q, at.kv0 + at.plane * TILE + i / 16);
        m.weight(seen, s[i], at.scale, self.lse@[q])
    }

    /// Element `i` of a plane's transposed weight tile.
    pub open spec fn p_value<Q, D>(self, m: Model<Q, D>, at: DkdvTile, s: Seq<u32>, i: int) -> u16 {
        (m.narrow)(self.weight(m, at, s, i))
    }

    /// Element `i` of a plane's transposed score-gradient tile, from its score
    /// `s` and weight gradient `dp`.
    pub open spec fn ds_value<Q, D>(
        self,
        m: Model<Q, D>,
        at: DkdvTile,
        s: Seq<u32>,
        dp: Seq<u32>,
        i: int,
    ) -> u16 {
        let q = at.q_tile * TILE + i % 16;
        (m.narrow)(m.grad(self.weight(m, at, s, i), dp[i], self.d@[q], at.scale))
    }

    /// The transposed weight tile of a plane, from its scratch tile.
    pub open spec fn scratch_p<Q, D>(self, m: Model<Q, D>, at: DkdvTile) -> spec_fn(int) -> u16 {
        |i: int| self.p_value(m, at, self.s@.skip(at.plane * 256), i)
    }

    /// The transposed score-gradient tile of a plane, from its scratch tiles.
    pub open spec fn scratch_ds<Q, D>(self, m: Model<Q, D>, at: DkdvTile) -> spec_fn(int) -> u16 {
        |i: int|
            self.ds_value(m, at, self.s@.skip(at.plane * 256), self.dp@.skip(at.plane * 256), i)
    }

    /// The transposed score tile of a plane, from the blocks in shared memory.
    pub open spec fn st_tile<Q, D>(self, m: Model<Q, D>, at: DkdvTile) -> Seq<u32> {
        m.cross(
            block_matrix(self.k@),
            at.plane * TILE,
            block_matrix(self.q@),
            at.q_tile * TILE,
        )
    }

    /// The transposed weight-gradient tile of a plane.
    pub open spec fn dpt_tile<Q, D>(self, m: Model<Q, D>, at: DkdvTile) -> Seq<u32> {
        m.cross(
            block_matrix(self.v@),
            at.plane * TILE,
            block_matrix(self.do_@),
            at.q_tile * TILE,
        )
    }

    /// The transposed weight tile of a plane.
    pub open spec fn pt_tile<Q, D>(self, m: Model<Q, D>, at: DkdvTile) -> Seq<u16> {
        let s = self.st_tile(m, at);
        Seq::new(TILE_ELEMS as nat, |i: int| self.p_value(m, at, s, i))
    }

    /// The transposed score-gradient tile of a plane.
    pub open spec fn dst_tile<Q, D>(self, m: Model<Q, D>, at: DkdvTile) -> Seq<u16> {
        let s = self.st_tile(m, at);
        let dp = self.dpt_tile(m, at);
        Seq::new(TILE_ELEMS as nat, |i: int| self.ds_value(m, at, s, dp, i))
    }

    /// Fresh shared memory, cleared.
    pub fn new() -> (r: Self)
        ensures
            r.wf(),
            r.k@ == Seq::new(BLOCK_ELEMS as nat, |i: int| 0u16),
            r.v@ == Seq::new(BLOCK_ELEMS as nat, |i: int| 0u16),
            r.q@ == Seq::new(BLOCK_ELEMS as nat, |i: int| 0u16),
            r.do_@ == Seq::new(BLOCK_ELEMS as nat, |i: int| 0u16),
            r.lse@ == Seq::new(BLOCK as nat, |i: int| 0u32),
            r.d@ == Seq::new(BLOCK as nat, |i: int| 0u32),
            r.s@ == Seq::new(SCRATCH_ELEMS as nat, |i: int| 0u32),
            r.dp@ == Seq::new(SCRATCH_ELEMS as nat, |i: int| 0u32),
            r.p@ == Seq::new(SCRATCH_ELEMS as nat, |i: int| 0u16),
            r.ds@ == Seq::new(SCRATCH_ELEMS as nat, |i: int| 0u16),
    {
        DkdvShared {
            k: vec![0u16; BLOCK_ELEMS],
            v: vec![0u16; BLOCK_ELEMS],
            q: vec![0u16; BLOCK_ELEMS],
            do_: vec![0u16; BLOCK_ELEMS],
            lse: vec![0u32; BLOCK],
            d: vec![0u32; BLOCK],
            s: vec![0u32; SCRATCH_ELEMS],
            dp: vec![0u32; SCRATCH_ELEMS],
            p: vec![0u16; SCRATCH_ELEMS],
            ds: vec![0u16; SCRATCH_ELEMS],
        }
    }
}

/// Where in the sweep a plane of the key- and value-gradient kernel is.
#[derive(Debug, PartialEq, Eq, Structural, Clone, Copy)]
pub struct DkdvTile {
    /// The plane, which owns 16 of the block's keys and values.
    pub plane: usize,
    /// The tile of the swept query block.
    pub q_tile: usize,
    /// The first key of the block.
    pub kv0: usize,
    /// The first query of the swept block.
    pub q0: usize,
    /// The fp32 bits of the softmax scale.
    pub scale: u32,
    /// Whether the causal mask applies.
    pub causal: bool,
}

impl DkdvTile {
    /// The tile lies in the block.
    pub open spec fn wf(self) -> bool {
        &&& self.plane < NUM_PLANES
        &&& self.q_tile < BLOCK_TILES
        &&& self.kv0 + BLOCK <= usize::MAX
        &&& self.q0 + BLOCK <= usize::MAX
    }
}

/// Element `i` of a plane's transposed weight and score-gradient tiles, from
/// the plane's scratch tiles.
pub fn dkdv_element<Q, D, A: Arithmetic<Q, D>>(
    math: &A,
    sh: &DkdvShared,
    at: DkdvTile,
    i: usize,
) -> (r: (u16, u16))
    requires
        math.ready(),
        sh.wf(),
        at.wf(),
        i < TILE_ELEMS,
    ensures
        forall|m: Model<Q, D>| #[trigger]
            math.computes(m) ==> {
                &&& r.0 == sh.scratch_p(m, at)(i as int)
                &&& r.1 == sh.scratch_ds(m, at)(i as int)
            },
        forall|m: Model<Q, D>| #[trigger]
            math.computes(m) ==> {
                let row = at.q_tile * 16 + i as int % 16;
                let p = if !at.causal || at.kv0 + at.plane * 16 + i as int / 16 <= at.q0 + row {
                    (m.exp)(
                        (m.minus)((m.times)(sh.s@[at.plane * 256 + i], at.scale), sh.lse@[row]),
                    )
                } else {
                    0u32
                };
                &&& r.0 == (m.narrow)(p)
                &&& r.1 == (m.narrow)(
                    (m.times)(
                        (m.times)(p, (m.minus)(sh.dp@[at.plane * 256 + i], sh.d@[row])),
                        at.scale,
                    ),
                )
            },
{
    let scratch_base: usize = at.plane * TILE_ELEMS;
    let kv_row: usize = i / TILE;
    let q_col: usize = i % TILE;
    let global_q: usize = at.q0 + at.q_tile * TILE + q_col;
    let global_k: usize = at.kv0 + at.plane * TILE + kv_row;
    let mut p: u32 = ZERO;
    if visible(at.causal, global_q, global_k) {
        p = prob(math, sh.s[scratch_base + i], at.scale, sh.lse[at.q_tile * TILE + q_col]);
    }
    let ds: u32 = grad(
        math,
        p,
        sh.dp[scratch_base + i],
        sh.d[at.q_tile * TILE + q_col],
        at.scale,
    );
    (math.narrow(p), math.narrow(ds))
}

/// Lane `lane`'s share of a plane's transposed weight and score-gradient
/// tiles: the elements `lane`, `lane + 32`, `lane + 64` and so on.
pub fn dkdv_lane<Q, D, A: Arithmetic<Q, D>>(math: &A, sh: &mut DkdvShared, at: DkdvTile, lane: usize)
    requires
        math.ready(),
        old(sh).wf(),
        at.wf(),
        lane < PLANE_DIM,
    ensures
        final(sh).wf(),
        final(sh).same_inputs(*old(sh)),
        final(sh).s == old(sh).s,
        final(sh).dp == old(sh).dp,
        lane_kept(old(sh).p@, final(sh).p@, at.plane * 256, lane as int),
        lane_kept(old(sh).ds@, final(sh).ds@, at.plane * 256, lane as int),
        forall|m: Model<Q, D>| #[trigger]
            math.computes(m) ==> {
                &&& lane_filled(
                    final(sh).p@,
                    at.plane * 256,
                    lane as int,
                    TILE_ELEMS as int,
                    old(sh).scratch_p(m, at),
                )
                &&& lane_filled(
                    final(sh).ds@,
                    at.plane * 256,
                    lane as int,
                    TILE_ELEMS as int,
                    old(sh).scratch_ds(m, at),
                )
            },
{
    let ghost before = *sh;
    let scratch_base: usize = at.plane * TILE_ELEMS;
    let mut i: usize = lane;
    while i < TILE_ELEMS
        invariant
            math.ready(),
            sh.wf(),
            at.wf(),
            lane < PLANE_DIM,
            scratch_base == at.plane * 256,
            i % 32 == lane,
            i < TILE_ELEMS + PLANE_DIM,
            sh.same_inputs(before),
            sh.s == before.s,
            sh.dp == before.dp,
            lane_kept(before.p@, sh.p@, scratch_base as int, lane as int),
            lane_kept(before.ds@, sh.ds@, scratch_base as int, lane as int),
            forall|m: Model<Q, D>| #[trigger]
                math.computes(m) ==> {
                    &&& lane_filled(
                        sh.p@,
                        scratch_base as int,
                        lane as int,
                        i as int,
                        before.scratch_p(m, at),
                    )
                    &&& lane_filled(
                        sh.ds@,
                        scratch_base as int,
                        lane as int,
                        i as int,
                        before.scratch_ds(m, at),
                    )
                },
        decreases TILE_ELEMS + PLANE_DIM - i,
    {
        let ghost p_last = sh.p@;
        let ghost ds_last = sh.ds@;
        let (p, ds): (u16, u16) = dkdv_element(math, sh, at, i);
        sh.p[scratch_base + i] = p;
        sh.ds[scratch_base + i] = ds;
        assert forall|m: Model<Q, D>| #[trigger] math.computes(m) implies lane_filled(
            sh.p@,
            scratch_base as int,
            lane as int,
            i + PLANE_DIM,
            before.scratch_p(m, at),
        ) && lane_filled(
            sh.ds@,
            scratch_base as int,
            lane as int,
            i + PLANE_DIM,
            before.scratch_ds(m, at),
        ) by {
            assert(p == before.scratch_p(m, at)(i as int));
            assert(ds == before.scratch_ds(m, at)(i as int));
            lemma_lane_next(
                p_last,
                scratch_base as int,
                lane as int,
                i as int,
                before.scratch_p(m, at),
            );
            lemma_lane_next(
                ds_last,
                scratch_base as int,
                lane as int,
                i as int,
                before.scratch_ds(m, at),
            );
        }
        i += PLANE_DIM as usize;
    }
}

/// One tile of a plane's sweep: recomputes the transposed weight and
/// score-gradient tiles of the plane's keys and query tile `at.q_tile` and
/// adds their products with the output gradient and the queries to the
/// plane's accumulators.
pub fn dkdv_plane_step<Q, D, A: Arithmetic<Q, D>>(
    math: &A,
    sh: &mut DkdvShared,
    dk_acc: &mut Vec<[u32; 256]>,
    dv_acc: &mut Vec<[u32; 256]>,
    at: DkdvTile,
)
    requires
        math.ready(),
        old(sh).wf(),
        at.wf(),
        old(dk_acc).len() == NUM_PLANES * HD_TILES,
        old(dv_acc).len() == NUM_PLANES * HD_TILES,
    ensures
        final(sh).wf(),
        final(sh).same_inputs(*old(sh)),
        plane_kept(old(sh).s@, final(sh).s@, at.plane as int),
        plane_kept(old(sh).dp@, final(sh).dp@, at.plane as int),
        plane_kept(old(sh).p@, final(sh).p@, at.plane as int),
        plane_kept(old(sh).ds@, final(sh).ds@, at.plane as int),
        others_kept(old(dk_acc)@, final(dk_acc)@, at.plane as int),
        others_kept(old(dv_acc)@, final(dv_acc)@, at.plane as int),
        forall|m: Model<Q, D>| #[trigger]
            math.computes(m) ==> {
                &&& accumulated(
                    m,
                    old(dk_acc)@,
                    final(dk_acc)@,
                    at.plane as int,
                    old(sh).dst_tile(m, at),
                    row_tiles(block_matrix(old(sh).q@), at.q_tile * TILE),
                )
                &&& accumulated(
                    m,
                    old(dv_acc)@,
                    final(dv_acc)@,
                    at.plane as int,
                    old(sh).pt_tile(m, at),
                    row_tiles(block_matrix(old(sh).do_@), at.q_tile * TILE),
                )
            },
{
    let ghost before = *sh;
    let ghost dk_before = dk_acc@;
    let ghost dv_before = dv_acc@;
    let scratch_base: usize = at.plane * TILE_ELEMS;

    // dPᵀ = V · dOᵀ
    let dp = cross_tile(math, &sh.v, at.plane * TILE, &sh.do_, at.q_tile * TILE);
    store_tile(&mut sh.dp, scratch_base, TILE, &dp);

    // Sᵀ = K · Qᵀ
    let s = cross_tile(math, &sh.k, at.plane * TILE, &sh.q, at.q_tile * TILE);
    store_tile(&mut sh.s, scratch_base, TILE, &s);

    let ghost sb = at.plane * 256;
    proof {
        assert forall|i: int| 0 <= i < 256 implies #[trigger] sh.s@.skip(sb)[i] == s@[i] by {
            assert(in_tile(sb, 16, sb + i) && tile_slot(sb, 16, sb + i) == i);
        }
        assert forall|i: int| 0 <= i < 256 implies #[trigger] sh.dp@.skip(sb)[i] == dp@[i] by {
            assert(in_tile(sb, 16, sb + i) && tile_slot(sb, 16, sb + i) == i);
        }
    }

    let ghost ready = *sh;

    // The plane synchronizes before and after its lanes work.
    // Pᵀ = exp(s · scale - lse), dSᵀ = Pᵀ ⊙ (dPᵀ - D) · scale
    for lane in 0..PLANE_DIM as usize
        invariant
            math.ready(),
            sh.wf(),
            at.wf(),
            sb == at.plane * 256,
            sh.same_inputs(before),
            sh.s == ready.s,
            sh.dp == ready.dp,
            sh.same_inputs(ready),
            plane_kept(before.p@, sh.p@, at.plane as int),
            plane_kept(before.ds@, sh.ds@, at.plane as int),
            forall|m: Model<Q, D>| #[trigger]
                math.computes(m) ==> {
                    &&& lanes_filled(sh.p@, sb, lane as int, ready.scratch_p(m, at))
                    &&& lanes_filled(sh.ds@, sb, lane as int, ready.scratch_ds(m, at))
                },
    {
        let ghost last = *sh;
        dkdv_lane(math, sh, at, lane);
        assert forall|m: Model<Q, D>| #[trigger] math.computes(m) implies lanes_filled(
            sh.p@,
            sb,
            lane + 1,
            ready.scratch_p(m, at),
        ) && lanes_filled(sh.ds@, sb, lane + 1, ready.scratch_ds(m, at)) by {
            assert(last.scratch_p(m, at) =~= ready.scratch_p(m, at));
            assert(last.scratch_ds(m, at) =~= ready.scratch_ds(m, at));
            lemma_lanes_next(last.p@, sh.p@, sb, lane as int, ready.scratch_p(m, at));
            lemma_lanes_next(last.ds@, sh.ds@, sb, lane as int, ready.scratch_ds(m, at));
        }
    }
    assert forall|m: Model<Q, D>, j: int|
        #![trigger math.computes(m), sh.p@[j]]
        math.computes(m) && 0 <= j - sb < 256 implies sh.p@[j] == before.p_value(
        m,
        at,
        s@,
        j - sb,
    ) by {
        assert(sh.p@[j] == ready.scratch_p(m, at)(j - sb));
    }
    assert forall|m: Model<Q, D>, j: int|
        #![trigger math.computes(m), sh.ds@[j]]
        math.computes(m) && 0 <= j - sb < 256 implies sh.ds@[j] == before.ds_value(
        m,
        at,
        s@,
        dp@,
        j - sb,
    ) by {
        assert(sh.ds@[j] == ready.scratch_ds(m, at)(j - sb));
    }

    // dV += Pᵀ · dO, dK += dSᵀ · Q
    for h in 0..HD_TILES
        invariant
            math.ready(),
            sh.wf(),
            at.wf(),
            plane_kept(before.s@, sh.s@, at.plane as int),
            plane_kept(before.dp@, sh.dp@, at.plane as int),
            plane_kept(before.p@, sh.p@, at.plane as int),
            plane_kept(before.ds@, sh.ds@, at.plane as int),
            sb == at.plane * 256,
            scratch_base == sb,
            sh.same_inputs(before),
            dk_acc.len() == NUM_PLANES * HD_TILES,
            dv_acc.len() == NUM_PLANES * HD_TILES,
            dk_before.len() == NUM_PLANES * HD_TILES,
            dv_before.len() == NUM_PLANES * HD_TILES,
            forall|m: Model<Q, D>| #[trigger]
                math.computes(m) ==> s@ == before.st_tile(m, at) && dp@ == before.dpt_tile(m, at),
            forall|m: Model<Q, D>, j: int|
                #![trigger math.computes(m), sh.p@[j]]
                math.computes(m) && 0 <= j - sb < 256 ==> sh.p@[j] == before.p_value(
                    m,
                    at,
                    s@,
                    j - sb,
                ),
            forall|m: Model<Q, D>, j: int|
                #![trigger math.computes(m), sh.ds@[j]]
                math.computes(m) && 0 <= j - sb < 256 ==> sh.ds@[j] == before.ds_value(
                    m,
                    at,
                    s@,
                    dp@,
                    j - sb,
                ),
            forall|t: int|
                0 <= t < NUM_PLANES * HD_TILES && !(t / 4 == at.plane && t % 4 < h) ==> #[trigger] dk_acc@[t]
                    == dk_before[t],
            forall|t: int|
                0 <= t < NUM_PLANES * HD_TILES && !(t / 4 == at.plane && t % 4 < h) ==> #[trigger] dv_acc@[t]
                    == dv_before[t],
            forall|m: Model<Q, D>, t: int|
                #![trigger math.computes(m), dk_acc@[t]]
                math.computes(m) && 0 <= t < NUM_PLANES * HD_TILES && t / 4 == at.plane && t % 4 < h
                    ==> dk_acc@[t]@ == (m.mma)(
                    before.dst_tile(m, at),
                    tile(block_matrix(before.q@), at.q_tile * TILE, (t % 4) * TILE),
                    dk_before[t]@,
                ),
            forall|m: Model<Q, D>, t: int|
                #![trigger math.computes(m), dv_acc@[t]]
                math.computes(m) && 0 <= t < NUM_PLANES * HD_TILES && t / 4 == at.plane && t % 4 < h
                    ==> dv_acc@[t]@ == (m.mma)(
                    before.pt_tile(m, at),
                    tile(block_matrix(before.do_@), at.q_tile * TILE, (t % 4) * TILE),
                    dv_before[t]@,
                ),
    {
        let t: usize = at.plane * HD_TILES + h;
        let column: usize = at.q_tile * TILE * HEAD_DIM + h * TILE;

        let a_p = load_tile(&sh.p, scratch_base, TILE, MatrixLayout::RowMajor);
        let b_do = load_tile(&sh.do_, column, HEAD_DIM, MatrixLayout::RowMajor);
        assert(b_do@ =~= tile(block_matrix(before.do_@), at.q_tile * TILE, h * TILE));
        assert forall|m: Model<Q, D>| #[trigger] math.computes(m) implies a_p@ == before.pt_tile(
            m,
            at,
        ) by {
            assert(a_p@ =~= before.pt_tile(m, at));
        }
        let dv = math.mma(&a_p, &b_do, &dv_acc[t]);
        dv_acc[t] = dv;

        let a_ds = load_tile(&sh.ds, scratch_base, TILE, MatrixLayout::RowMajor);
        let b_q = load_tile(&sh.q, column, HEAD_DIM, MatrixLayout::RowMajor);
        assert(b_q@ =~= tile(block_matrix(before.q@), at.q_tile * TILE, h * TILE));
        assert forall|m: Model<Q, D>| #[trigger] math.computes(m) implies a_ds@ == before.dst_tile(
            m,
            at,
        ) by {
            assert(a_ds@ =~= before.dst_tile(m, at));
        }
        let dk = math.mma(&a_ds, &b_q, &dk_acc[t]);
        dk_acc[t] = dk;
    }
}

/// The block's own rows of head `bh` are in shared memory.
spec fn own_rows<Q, D>(sh: DkdvShared, m: Model<Q, D>, p: Problem<Q, D>, bh: int, kv0: int) -> bool {
    &&& rows_from(block_matrix(sh.k@), p.k_half(m, bh), kv0)
    &&& rows_from(block_matrix(sh.v@), p.v_half(m, bh), kv0)
}

/// The swept rows of head `bh` are in shared memory.
spec fn swept_rows<Q, D>(sh: DkdvShared, m: Model<Q, D>, p: Problem<Q, D>, bh: int, q0: int) -> bool {
    &&& rows_from(block_matrix(sh.q@), p.q_half(m, bh), q0)
    &&& rows_from(block_matrix(sh.do_@), p.do_half(m, bh), q0)
    &&& staged(sh.lse@, copied(p.lse, bh * p.seq + q0))
    &&& staged(sh.d@, copied(p.d, bh * p.seq + q0))
}

/// What a plane adds to its accumulators is the product of the head's
/// transposed weight and score-gradient tiles with the head's output gradient
/// and queries.
proof fn lemma_plane_step<Q, D>(
    sh: DkdvShared,
    m: Model<Q, D>,
    p: Problem<Q, D>,
    bh: int,
    at: DkdvTile,
    h: int,
)
    requires
        sh.wf(),
        at.wf(),
        at.scale == p.scale,
        at.causal == p.causal,
        own_rows(sh, m, p, bh, at.kv0 as int),
        swept_rows(sh, m, p, bh, at.q0 as int),
        0 <= h < HD_TILES,
    ensures
        sh.pt_tile(m, at) == p.pt_tile(m, bh, at.kv0 + at.plane * TILE, at.q0 + at.q_tile * TILE),
        sh.dst_tile(m, at) == p.dst_tile(m, bh, at.kv0 + at.plane * TILE, at.q0 + at.q_tile * TILE),
        tile(block_matrix(sh.q@), at.q_tile * TILE, h * TILE) == tile(
            p.q_half(m, bh),
            at.q0 + at.q_tile * TILE,
            h * TILE,
        ),
        tile(block_matrix(sh.do_@), at.q_tile * TILE, h * TILE) == tile(
            p.do_half(m, bh),
            at.q0 + at.q_tile * TILE,
            h * TILE,
        ),
{
    let kr = at.plane * TILE;
    let qr = at.q_tile * TILE;
    lemma_cross_rows(
        m,
        block_matrix(sh.k@),
        p.k_half(m, bh),
        at.kv0 as int,
        kr,
        block_matrix(sh.q@),
        p.q_half(m, bh),
        at.q0 as int,
        qr,
        HD_TILES as nat,
    );
    lemma_cross_rows(
        m,
        block_matrix(sh.v@),
        p.v_half(m, bh),
        at.kv0 as int,
        kr,
        block_matrix(sh.do_@),
        p.do_half(m, bh),
        at.q0 as int,
        qr,
        HD_TILES as nat,
    );
    lemma_tile_rows(block_matrix(sh.q@), p.q_half(m, bh), at.q0 as int, qr, h * TILE);
    lemma_tile_rows(block_matrix(sh.do_@), p.do_half(m, bh), at.q0 as int, qr, h * TILE);
    assert forall|i: int| 0 <= i < 256 implies #[trigger] sh.pt_tile(m, at)[i] == p.pt_tile(
        m,
        bh,
        at.kv0 + kr,
        at.q0 + qr,
    )[i] && #[trigger] sh.dst_tile(m, at)[i] == p.dst_tile(m, bh, at.kv0 + kr, at.q0 + qr)[i] by {
        let row = qr + i % 16;
        assert(sh.lse@[row] == copied(p.lse, bh * p.seq + at.q0)(row));
        assert(sh.d@[row] == copied(p.d, bh * p.seq + at.q0)(row));
    }
    assert(sh.pt_tile(m, at) =~= p.pt_tile(m, bh, at.kv0 + kr, at.q0 + qr));
    assert(sh.dst_tile(m, at) =~= p.dst_tile(m, bh, at.kv0 + kr, at.q0 + qr));
}

/// The transposed score-gradient tiles of each plane of the block from `kv0`.
spec fn dk_tiles<Q, D>(m: Model<Q, D>, p: Problem<Q, D>, bh: int, kv0: int) -> spec_fn(int) -> Tiles {
    |plane: int| p.dst_tiles(m, bh, kv0 + plane * TILE)
}

/// The transposed weight tiles of each plane of the block from `kv0`.
spec fn dv_tiles<Q, D>(m: Model<Q, D>, p: Problem<Q, D>, bh: int, kv0: int) -> spec_fn(int) -> Tiles {
    |plane: int| p.pt_tiles(m, bh, kv0 + plane * TILE)
}

/// The key gradient of the block from `kv0`, as its accumulators sweep it from
/// query block `start`.
spec fn dk_sweep<Q, D>(m: Model<Q, D>, p: Problem<Q, D>, bh: int, kv0: int, start: int) -> Sweep {
    product_sweep(m, dk_tiles(m, p, bh, kv0), p.q_half(m, bh), start)
}

/// The value gradient of the block from `kv0`, as its accumulators sweep it
/// from query block `start`.
spec fn dv_sweep<Q, D>(m: Model<Q, D>, p: Problem<Q, D>, bh: int, kv0: int, start: int) -> Sweep {
    product_sweep(m, dv_tiles(m, p, bh, kv0), p.do_half(m, bh), start)
}

/// The key and the value accumulators have come equally far in the sweep of
/// the block from `kv0`.
spec fn both_swept<Q, D>(
    m: Model<Q, D>,
    p: Problem<Q, D>,
    bh: int,
    kv0: int,
    start: int,
    dk_acc: Seq<[u32; 256]>,
    dv_acc: Seq<[u32; 256]>,
    blocks: int,
    plane: int,
    n: int,
) -> bool {
    &&& swept(dk_acc, dk_sweep(m, p, bh, kv0, start), blocks, plane, n)
    &&& swept(dv_acc, dv_sweep(m, p, bh, kv0, start), blocks, plane, n)
}

/// A plane's step takes its accumulators one query tile further.
proof fn lemma_both_sweep_tile<Q, D>(
    sh: DkdvShared,
    m: Model<Q, D>,
    p: Problem<Q, D>,
    bh: int,
    at: DkdvTile,
    dk_before: Seq<[u32; 256]>,
    dk_acc: Seq<[u32; 256]>,
    dv_before: Seq<[u32; 256]>,
    dv_acc: Seq<[u32; 256]>,
    start: int,
    blocks: int,
)
    requires
        sh.wf(),
        at.wf(),
        at.scale == p.scale,
        at.causal == p.causal,
        0 <= blocks,
        at.q0 == (start + blocks) * BLOCK,
        own_rows(sh, m, p, bh, at.kv0 as int),
        swept_rows(sh, m, p, bh, at.q0 as int),
        both_swept(
            m,
            p,
            bh,
            at.kv0 as int,
            start,
            dk_before,
            dv_before,
            blocks,
            at.plane as int,
            at.q_tile as int,
        ),
        others_kept(dk_before, dk_acc, at.plane as int),
        others_kept(dv_before, dv_acc, at.plane as int),
        accumulated(
            m,
            dk_before,
            dk_acc,
            at.plane as int,
            sh.dst_tile(m, at),
            row_tiles(block_matrix(sh.q@), at.q_tile * TILE),
        ),
        accumulated(
            m,
            dv_before,
            dv_acc,
            at.plane as int,
            sh.pt_tile(m, at),
            row_tiles(block_matrix(sh.do_@), at.q_tile * TILE),
        ),
    ensures
        both_swept(
            m,
            p,
            bh,
            at.kv0 as int,
            start,
            dk_acc,
            dv_acc,
            blocks,
            at.plane as int,
            at.q_tile + 1,
        ),
{
    let q_rows = row_tiles(block_matrix(sh.q@), at.q_tile * TILE);
    let do_rows = row_tiles(block_matrix(sh.do_@), at.q_tile * TILE);
    let row = (start + blocks) * BLOCK + at.q_tile * TILE;
    assert forall|h: int| 0 <= h < HD_TILES implies #[trigger] q_rows(h) == tile(
        p.q_half(m, bh),
        row,
        h * TILE,
    ) by {
        lemma_plane_step(sh, m, p, bh, at, h);
    }
    assert forall|h: int| 0 <= h < HD_TILES implies #[trigger] do_rows(h) == tile(
        p.do_half(m, bh),
        row,
        h * TILE,
    ) by {
        lemma_plane_step(sh, m, p, bh, at, h);
    }
    lemma_plane_step(sh, m, p, bh, at, 0);
    lemma_sweep_tile(
        m,
        dk_before,
        dk_acc,
        dk_tiles(m, p, bh, at.kv0 as int),
        p.q_half(m, bh),
        start,
        blocks,
        at.plane as int,
        at.q_tile as int,
        sh.dst_tile(m, at),
        q_rows,
    );
    lemma_sweep_tile(
        m,
        dv_before,
        dv_acc,
        dv_tiles(m, p, bh, at.kv0 as int),
        p.do_half(m, bh),
        start,
        blocks,
        at.plane as int,
        at.q_tile as int,
        sh.pt_tile(m, at),
        do_rows,
    );
}

/// Stored blocks of finished accumulators hold the key and the value gradient.
proof fn lemma_dkdv_row<Q, D>(
    m: Model<Q, D>,
    p: Problem<Q, D>,
    bh: int,
    block: int,
    dk: Seq<u32>,
    dv: Seq<u32>,
    dk_acc: Seq<[u32; 256]>,
    dv_acc: Seq<[u32; 256]>,
    row: int,
    col: int,
)
    requires
        block * BLOCK <= row < (block + 1) * BLOCK,
        0 <= col < HEAD_DIM,
        stored_block(dk, element(bh, p.seq, block * BLOCK, 0), dk_acc),
        stored_block(dv, element(bh, p.seq, block * BLOCK, 0), dv_acc),
        both_swept(
            m,
            p,
            bh,
            block * BLOCK,
            q_start(p.causal, block),
            dk_acc,
            dv_acc,
            p.seq / 64 - q_start(p.causal, block),
            0,
            0,
        ),
    ensures
        dk[element(bh, p.seq, row, col)] == p.dk_value(m, bh, row, col),
        dv[element(bh, p.seq, row, col)] == p.dv_value(m, bh, row, col),
{
    let lo = element(bh, p.seq, block * BLOCK, 0);
    let start = q_start(p.causal, block);
    let blocks = p.seq / 64 - start;
    let dk_f = dk_sweep(m, p, bh, block * BLOCK, start);
    let dv_f = dv_sweep(m, p, bh, block * BLOCK, start);
    let dk_plane = lemma_swept_row(dk, lo, dk_acc, dk_f, blocks, block, row, col);
    let dv_plane = lemma_swept_row(dv, lo, dv_acc, dv_f, blocks, block, row, col);
    assert(element(bh, p.seq, row, col) == lo + (row - block * BLOCK) * HEAD_DIM + col);
    assert(blocks * BLOCK_TILES == (p.seq / 64) * BLOCK_TILES - p.first_q_tile(row)) by {
        lemma_mul_is_distributive_sub_other_way(BLOCK_TILES as int, p.seq / 64, start);
    }
}

/// The key- and value-gradient kernel for cube `(bh, kv_block)`: writes the 64
/// rows of block `kv_block` of head `bh` of `dk` and `dv`.
///
/// Each plane owns 16 of the block's keys and values and sweeps the visible
/// query tiles. Under the causal mask the sweep starts with the block's own
/// queries.
pub fn flash_backward_dkdv_kernel<Q: Copy, D: Copy, A: Arithmetic<Q, D>>(
    math: &A,
    q: &Vec<Q>,
    k: &Vec<Q>,
    v: &Vec<Q>,
    do_: &Vec<D>,
    lse: &Vec<u32>,
    d: &Vec<u32>,
    dk: &mut Vec<u32>,
    dv: &mut Vec<u32>,
    seq: u32,
    scale: u32,
    causal: bool,
    bh: u32,
    kv_block: u32,
)
    requires
        math.ready(),
        (kv_block + 1) * BLOCK <= seq,
        element(bh + 1, seq as int, 0, 0) <= q.len(),
        element(bh + 1, seq as int, 0, 0) <= k.len(),
        element(bh + 1, seq as int, 0, 0) <= v.len(),
        element(bh + 1, seq as int, 0, 0) <= do_.len(),
        element(bh + 1, seq as int, 0, 0) <= old(dk).len(),
        element(bh + 1, seq as int, 0, 0) <= old(dv).len(),
        (bh + 1) * seq <= lse.len(),
        (bh + 1) * seq <= d.len(),
    ensures
        final(dk).len() == old(dk).len(),
        forall|j: int|
            0 <= j < old(dk).len() && !(element(bh as int, seq as int, kv_block * BLOCK, 0) <= j
                < element(bh as int, seq as int, (kv_block + 1) * BLOCK, 0)) ==> #[trigger] final(
                dk)@[j] == old(dk)@[j],
        forall|m: Model<Q, D>, row: int, col: int|
            #![trigger math.computes(m), element(bh as int, seq as int, row, col)]
            math.computes(m) && kv_block * BLOCK <= row < (kv_block + 1) * BLOCK && 0 <= col
                < HEAD_DIM ==> final(dk)@[element(bh as int, seq as int, row, col)] == problem(
                q@,
                k@,
                v@,
                do_@,
                lse@,
                d@,
                seq,
                scale,
                causal,
            ).dk_value(m, bh as int, row, col),
        final(dv).len() == old(dv).len(),
        forall|j: int|
            0 <= j < old(dv).len() && !(element(bh as int, seq as int, kv_block * BLOCK, 0) <= j
                < element(bh as int, seq as int, (kv_block + 1) * BLOCK, 0)) ==> #[trigger] final(
                dv)@[j] == old(dv)@[j],
        forall|m: Model<Q, D>, row: int, col: int|
            #![trigger math.computes(m), element(bh as int, seq as int, row, col)]
            math.computes(m) && kv_block * BLOCK <= row < (kv_block + 1) * BLOCK && 0 <= col
                < HEAD_DIM ==> final(dv)@[element(bh as int, seq as int, row, col)] == problem(
                q@,
                k@,
                v@,
                do_@,
                lse@,
                d@,
                seq,
                scale,
                causal,
            ).dv_value(m, bh as int, row, col),
{
    let ghost p = problem(q@, k@, v@, do_@, lse@, d@, seq, scale, causal);
    let ghost g_bh = bh as int;
    let seq: usize = seq as usize;
    let bh: usize = bh as usize;
    let kv_block: usize = kv_block as usize;
    proof {
        lemma_head_end(g_bh, seq as int);
    }
    let row_base: usize = bh * seq;
    let base: usize = row_base * HEAD_DIM;
    let kv0: usize = kv_block * BLOCK;

    let mut sh = DkdvShared::new();
    stage_kv(math, k, v, base, kv0, &mut sh.k, &mut sh.v);
    proof {
        assert forall|m: Model<Q, D>| #[trigger] math.computes(m) implies own_rows(
            sh,
            m,
            p,
            g_bh,
            kv0 as int,
        ) by {
            lemma_staged_rows(sh.k@, m.narrow_q, k@, p.k_half(m, g_bh), g_bh, p.seq, kv0 as int);
            lemma_staged_rows(sh.v@, m.narrow_q, v@, p.v_half(m, g_bh), g_bh, p.seq, kv0 as int);
        }
    }

    let mut dk_acc: Vec<[u32; 256]> = zero_accumulators();
    let mut dv_acc: Vec<[u32; 256]> = zero_accumulators();

    let q_blocks: usize = seq / BLOCK;
    let start: usize = q_sweep_start(causal, kv_block);
    proof {
        assert forall|m: Model<Q, D>| #[trigger] math.computes(m) implies both_swept(
            m,
            p,
            g_bh,
            kv0 as int,
            start as int,
            dk_acc@,
            dv_acc@,
            0,
            0,
            0,
        ) by {
            lemma_sweep_start(
                m,
                dk_acc@,
                dk_tiles(m, p, g_bh, kv0 as int),
                p.q_half(m, g_bh),
                start as int,
            );
            lemma_sweep_start(
                m,
                dv_acc@,
                dv_tiles(m, p, g_bh, kv0 as int),
                p.do_half(m, g_bh),
                start as int,
            );
        }
    }
    for q_block in start..q_blocks
        invariant
            math.ready(),
            sh.wf(),
            dk_acc.len() == NUM_PLANES * HD_TILES,
            dv_acc.len() == NUM_PLANES * HD_TILES,
            p == problem(q@, k@, v@, do_@, lse@, d@, seq as u32, scale, causal),
            p.seq == seq,
            g_bh == bh,
            row_base == bh * seq,
            base == row_base * HEAD_DIM,
            base + seq * HEAD_DIM <= q.len(),
            base + seq * HEAD_DIM <= do_.len(),
            row_base + seq <= lse.len(),
            row_base + seq <= d.len(),
            kv0 + BLOCK <= seq,
            start <= q_blocks,
            q_blocks * BLOCK <= seq,
            forall|m: Model<Q, D>| #[trigger]
                math.computes(m) ==> own_rows(sh, m, p, g_bh, kv0 as int),
            forall|m: Model<Q, D>| #[trigger]
                math.computes(m) ==> both_swept(
                    m,
                    p,
                    g_bh,
                    kv0 as int,
                    start as int,
                    dk_acc@,
                    dv_acc@,
                    q_block - start,
                    0,
                    0,
                ),
    {
        let q0: usize = q_block * BLOCK;
        // The cube synchronizes before and after it stages, so that no plane
        // reads a block that is being replaced.
        stage_q_do(math, q, do_, base, q0, &mut sh.q, &mut sh.do_);
        stage_rows(lse, d, row_base + q0, &mut sh.lse, &mut sh.d);
        proof {
            assert forall|m: Model<Q, D>| #[trigger] math.computes(m) implies swept_rows(
                sh,
                m,
                p,
                g_bh,
                q0 as int,
            ) by {
                lemma_staged_rows(sh.q@, m.narrow_q, q@, p.q_half(m, g_bh), g_bh, p.seq, q0 as int);
                lemma_staged_rows(
                    sh.do_@,
                    m.narrow_do,
                    do_@,
                    p.do_half(m, g_bh),
                    g_bh,
                    p.seq,
                    q0 as int,
                );
            }
        }
        for plane in 0..NUM_PLANES as usize
            invariant
                math.ready(),
                sh.wf(),
                dk_acc.len() == NUM_PLANES * HD_TILES,
                dv_acc.len() == NUM_PLANES * HD_TILES,
                p.seq == seq,
                p.scale == scale,
                p.causal == causal,
                kv0 + BLOCK <= seq,
                start <= q_block,
                q0 == q_block * BLOCK,
                q0 + BLOCK <= seq,
                forall|m: Model<Q, D>| #[trigger]
                    math.computes(m) ==> own_rows(sh, m, p, g_bh, kv0 as int),
                forall|m: Model<Q, D>| #[trigger]
                    math.computes(m) ==> swept_rows(sh, m, p, g_bh, q0 as int),
                forall|m: Model<Q, D>| #[trigger]
                    math.computes(m) ==> both_swept(
                        m,
                        p,
                        g_bh,
                        kv0 as int,
                        start as int,
                        dk_acc@,
                        dv_acc@,
                        q_block - start,
                        plane as int,
                        0,
                    ),
        {
            for q_tile in 0..BLOCK_TILES
                invariant
                    math.ready(),
                    sh.wf(),
                    dk_acc.len() == NUM_PLANES * HD_TILES,
                    dv_acc.len() == NUM_PLANES * HD_TILES,
                    plane < NUM_PLANES,
                    p.seq == seq,
                    p.scale == scale,
                    p.causal == causal,
                    kv0 + BLOCK <= seq,
                    start <= q_block,
                    q0 == q_block * BLOCK,
                    q0 + BLOCK <= seq,
                    forall|m: Model<Q, D>| #[trigger]
                        math.computes(m) ==> own_rows(sh, m, p, g_bh, kv0 as int),
                    forall|m: Model<Q, D>| #[trigger]
                        math.computes(m) ==> swept_rows(sh, m, p, g_bh, q0 as int),
                    forall|m: Model<Q, D>| #[trigger]
                        math.computes(m) ==> both_swept(
                            m,
                            p,
                            g_bh,
                            kv0 as int,
                            start as int,
                            dk_acc@,
                            dv_acc@,
                            q_block - start,
                            plane as int,
                            q_tile as int,
                        ),
            {
                let at = DkdvTile { plane, q_tile, kv0, q0, scale, causal };
                let ghost last = sh;
                let ghost dk_last = dk_acc@;
                let ghost dv_last = dv_acc@;
                dkdv_plane_step(math, &mut sh, &mut dk_acc, &mut dv_acc, at);
                proof {
                    assert forall|m: Model<Q, D>| #[trigger] math.computes(m) implies both_swept(
                        m,
                        p,
                        g_bh,
                        kv0 as int,
                        start as int,
                        dk_acc@,
                        dv_acc@,
                        q_block - start,
                        plane as int,
                        q_tile + 1,
                    ) by {
                        lemma_both_sweep_tile(
                            last,
                            m,
                            p,
                            g_bh,
                            at,
                            dk_last,
                            dk_acc@,
                            dv_last,
                            dv_acc@,
                            start as int,
                            q_block - start,
                        );
                    }
                }
            }
            proof {
                assert forall|m: Model<Q, D>| #[trigger] math.computes(m) implies both_swept(
                    m,
                    p,
                    g_bh,
                    kv0 as int,
                    start as int,
                    dk_acc@,
                    dv_acc@,
                    q_block - start,
                    plane + 1,
                    0,
                ) by {
                    let dk_f = dk_sweep(m, p, g_bh, kv0 as int, start as int);
                    let dv_f = dv_sweep(m, p, g_bh, kv0 as int, start as int);
                    lemma_sweep_plane(dk_acc@, dk_f, q_block - start, plane as int);
                    lemma_sweep_plane(dv_acc@, dv_f, q_block - start, plane as int);
                }
            }
        }
        proof {
            assert forall|m: Model<Q, D>| #[trigger] math.computes(m) implies both_swept(
                m,
                p,
                g_bh,
                kv0 as int,
                start as int,
                dk_acc@,
                dv_acc@,
                q_block + 1 - start,
                0,
                0,
            ) by {
                let dk_f = dk_sweep(m, p, g_bh, kv0 as int, start as int);
                let dv_f = dv_sweep(m, p, g_bh, kv0 as int, start as int);
                lemma_sweep_block(dk_acc@, dk_f, q_block - start);
                lemma_sweep_block(dv_acc@, dv_f, q_block - start);
            }
        }
    }

    store_block(dk, base + kv0 * HEAD_DIM, &dk_acc);
    store_block(dv, base + kv0 * HEAD_DIM, &dv_acc);
    proof {
        assert(element(g_bh, p.seq, kv_block * BLOCK, 0) == base + kv0 * HEAD_DIM);
        assert(stored_block(dk@, element(g_bh, p.seq, kv_block * BLOCK, 0), dk_acc@));
        assert(stored_block(dv@, element(g_bh, p.seq, kv_block * BLOCK, 0), dv_acc@));
        assert forall|m: Model<Q, D>, row: int, col: int|
            #![trigger math.computes(m), element(g_bh, p.seq, row, col)]
            math.computes(m) && kv0 <= row < kv0 + BLOCK && 0 <= col < HEAD_DIM implies {
            &&& dk@[element(g_bh, p.seq, row, col)] == p.dk_value(m, g_bh, row, col)
            &&& dv@[element(g_bh, p.seq, row, col)] == p.dv_value(m, g_bh, row, col)
        } by {
            lemma_dkdv_row(m, p, g_bh, kv_block as int, dk@, dv@, dk_acc@, dv_acc@, row, col);
        }
    }
}

} // verus!
