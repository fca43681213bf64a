//! What a gradient depends on.

use vstd::prelude::*;
use crate::attention::{lemma_tile_elements, tile, tile_t, Matrix, Problem, Tiles};
use crate::geometry::{
    element, kv_end, q_start, sees, BLOCK, BLOCK_TILES, HD_TILES, HEAD_DIM, TILE, TILE_ELEMS,
};
use crate::laws::every_element_has_a_place;
use crate::math::Model;
use crate::prepass::row_sum;

verus! {

/// Row `i` of head `xh` of one tensor is row `j` of head `yh` of another.
pub open spec fn same_row<T>(x: Seq<T>, xh: int, i: int, y: Seq<T>, yh: int, j: int, seq: int) -> bool {
    forall|c: int|
        0 <= c < HEAD_DIM ==> #[trigger] x[element(xh, seq, i, c)] == y[element(yh, seq, j, c)]
}

/// Query `i` of head `ah` of one problem is query `j` of head `bh` of another,
/// with its output gradient and its row statistics.
pub open spec fn same_query<Q, D>(
    a: Problem<Q, D>,
    ah: int,
    i: int,
    b: Problem<Q, D>,
    bh: int,
    j: int,
) -> bool {
    &&& same_row(a.q, ah, i, b.q, bh, j, a.seq)
    &&& same_row(a.do_, ah, i, b.do_, bh, j, a.seq)
    &&& a.lse[ah * a.seq + i] == b.lse[bh * a.seq + j]
    &&& a.d[ah * a.seq + i] == b.d[bh * a.seq + j]
}

/// Key `i` of head `ah` of one problem is key `j` of head `bh` of another, with
/// its value.
pub open spec fn same_key<Q, D>(
    a: Problem<Q, D>,
    ah: int,
    i: int,
    b: Problem<Q, D>,
    bh: int,
    j: int,
) -> bool {
    &&& same_row(a.k, ah, i, b.k, bh, j, a.seq)
    &&& same_row(a.v, ah, i, b.v, bh, j, a.seq)
}

/// Two problems of the same length, scale and mask.
pub open spec fn same_settings<Q, D>(a: Problem<Q, D>, b: Problem<Q, D>) -> bool {
    a.seq == b.seq && a.scale == b.scale && a.causal == b.causal
}

/// Queries `lo..hi` of head `ah` of one problem are those of head `bh` of
/// another.
pub open spec fn same_queries<Q, D>(
    a: Problem<Q, D>,
    ah: int,
    b: Problem<Q, D>,
    bh: int,
    lo: int,
    hi: int,
) -> bool {
    forall|i: int| lo <= i < hi ==> #[trigger] same_query(a, ah, i, b, bh, i)
}

/// Keys `lo..hi` of head `ah` of one problem are those of head `bh` of another.
pub open spec fn same_keys<Q, D>(
    a: Problem<Q, D>,
    ah: int,
    b: Problem<Q, D>,
    bh: int,
    lo: int,
    hi: int,
) -> bool {
    forall|i: int| lo <= i < hi ==> #[trigger] same_key(a, ah, i, b, bh, i)
}

/// Rows `r0..r0 + 16` of two matrices agree.
spec fn rows_agree(x: Matrix, y: Matrix, r0: int) -> bool {
    forall|r: int, c: int|
        r0 <= r < r0 + TILE && 0 <= c < HEAD_DIM ==> #[trigger] x(r, c) == y(r, c)
}

/// Matrices that agree on a tile's rows have the same tile.
proof fn lemma_tile_agrees(x: Matrix, y: Matrix, r0: int, c0: int)
    requires
        0 <= c0 <= HEAD_DIM - TILE,
        rows_agree(x, y, r0),
    ensures
        tile(x, r0, c0) == tile(y, r0, c0),
        tile_t(x, r0, c0) == tile_t(y, r0, c0),
{
    assert(tile(x, r0, c0) =~= tile(y, r0, c0));
    assert(tile_t(x, r0, c0) =~= tile_t(y, r0, c0));
}

/// Matrices that agree on the rows of a product have the same product.
proof fn lemma_cross_agrees<Q, D>(
    m: Model<Q, D>,
    x: Matrix,
    x2: Matrix,
    xr: int,
    y: Matrix,
    y2: Matrix,
    yr: int,
    h: nat,
)
    requires
        h <= HD_TILES,
        rows_agree(x, x2, xr),
        rows_agree(y, y2, yr),
    ensures
        m.cross_partial(x, xr, y, yr, h) == m.cross_partial(x2, xr, y2, yr, h),
    decreases h,
{
    if h > 0 {
        lemma_cross_agrees(m, x, x2, xr, y, y2, yr, (h - 1) as nat);
        lemma_tile_agrees(x, x2, xr, (h - 1) * TILE);
        lemma_tile_agrees(y, y2, yr, (h - 1) * TILE);
    }
}

/// The rows of a tile of the same queries agree.
proof fn lemma_query_rows<Q, D>(
    m: Model<Q, D>,
    a: Problem<Q, D>,
    ah: int,
    b: Problem<Q, D>,
    bh: int,
    qr: int,
)
    requires
        a.seq == b.seq,
        same_queries(a, ah, b, bh, qr, qr + TILE),
    ensures
        rows_agree(a.q_half(m, ah), b.q_half(m, bh), qr),
        rows_agree(a.do_half(m, ah), b.do_half(m, bh), qr),
{
    assert forall|r: int, c: int| qr <= r < qr + TILE && 0 <= c < HEAD_DIM implies #[trigger] a.q_half(
        m,
        ah,
    )(r, c) == b.q_half(m, bh)(r, c) by {
        assert(same_query(a, ah, r, b, bh, r));
        assert(a.q[element(ah, a.seq, r, c)] == b.q[element(bh, a.seq, r, c)]);
    }
    assert forall|r: int, c: int| qr <= r < qr + TILE && 0 <= c < HEAD_DIM implies #[trigger] a.do_half(
        m,
        ah,
    )(r, c) == b.do_half(m, bh)(r, c) by {
        assert(same_query(a, ah, r, b, bh, r));
        assert(a.do_[element(ah, a.seq, r, c)] == b.do_[element(bh, a.seq, r, c)]);
    }
}

/// The rows of a tile of the same keys agree.
proof fn lemma_key_rows<Q, D>(
    m: Model<Q, D>,
    a: Problem<Q, D>,
    ah: int,
    b: Problem<Q, D>,
    bh: int,
    kr: int,
)
    requires
        a.seq == b.seq,
        same_keys(a, ah, b, bh, kr, kr + TILE),
    ensures
        rows_agree(a.k_half(m, ah), b.k_half(m, bh), kr),
        rows_agree(a.v_half(m, ah), b.v_half(m, bh), kr),
{
    assert forall|r: int, c: int| kr <= r < kr + TILE && 0 <= c < HEAD_DIM implies #[trigger] a.k_half(
        m,
        ah,
    )(r, c) == b.k_half(m, bh)(r, c) by {
        assert(same_key(a, ah, r, b, bh, r));
        assert(a.k[element(ah, a.seq, r, c)] == b.k[element(bh, a.seq, r, c)]);
    }
    assert forall|r: int, c: int| kr <= r < kr + TILE && 0 <= c < HEAD_DIM implies #[trigger] a.v_half(
        m,
        ah,
    )(r, c) == b.v_half(m, bh)(r, c) by {
        assert(same_key(a, ah, r, b, bh, r));
        assert(a.v[element(ah, a.seq, r, c)] == b.v[element(bh, a.seq, r, c)]);
    }
}

/// Problems that agree on a pair of tiles recompute the same tiles.
proof fn lemma_tiles_agree<Q, D>(
    m: Model<Q, D>,
    a: Problem<Q, D>,
    ah: int,
    b: Problem<Q, D>,
    bh: int,
    qr: int,
    kr: int,
)
    requires
        same_settings(a, b),
        same_queries(a, ah, b, bh, qr, qr + TILE),
        same_keys(a, ah, b, bh, kr, kr + TILE),
    ensures
        a.ds_tile(m, ah, qr, kr) == b.ds_tile(m, bh, qr, kr),
        a.pt_tile(m, ah, kr, qr) == b.pt_tile(m, bh, kr, qr),
        a.dst_tile(m, ah, kr, qr) == b.dst_tile(m, bh, kr, qr),
{
    let (aq, bq) = (a.q_half(m, ah), b.q_half(m, bh));
    let (ak, bk) = (a.k_half(m, ah), b.k_half(m, bh));
    let (av, bv) = (a.v_half(m, ah), b.v_half(m, bh));
    let (ado, bdo) = (a.do_half(m, ah), b.do_half(m, bh));
    lemma_query_rows(m, a, ah, b, bh, qr);
    lemma_key_rows(m, a, ah, b, bh, kr);
    lemma_cross_agrees(m, aq, bq, qr, ak, bk, kr, HD_TILES as nat);
    lemma_cross_agrees(m, ado, bdo, qr, av, bv, kr, HD_TILES as nat);
    lemma_cross_agrees(m, ak, bk, kr, aq, bq, qr, HD_TILES as nat);
    lemma_cross_agrees(m, av, bv, kr, ado, bdo, qr, HD_TILES as nat);
    assert forall|i: int| 0 <= i < 256 implies #[trigger] a.ds_tile(m, ah, qr, kr)[i] == b.ds_tile(
        m,
        bh,
        qr,
        kr,
    )[i] by {
        assert(same_query(a, ah, qr + i / 16, b, bh, qr + i / 16));
    }
    assert forall|i: int| 0 <= i < 256 implies #[trigger] a.pt_tile(m, ah, kr, qr)[i] == b.pt_tile(
        m,
        bh,
        kr,
        qr,
    )[i] by {
        assert(same_query(a, ah, qr + i % 16, b, bh, qr + i % 16));
    }
    assert forall|i: int| 0 <= i < 256 implies #[trigger] a.dst_tile(m, ah, kr, qr)[i] == b.dst_tile(
        m,
        bh,
        kr,
        qr,
    )[i] by {
        assert(same_query(a, ah, qr + i % 16, b, bh, qr + i % 16));
    }
    assert(a.ds_tile(m, ah, qr, kr) =~= b.ds_tile(m, bh, qr, kr));
    assert(a.pt_tile(m, ah, kr, qr) =~= b.pt_tile(m, bh, kr, qr));
    assert(a.dst_tile(m, ah, kr, qr) =~= b.dst_tile(m, bh, kr, qr));
}

/// Tile `r` and the rows that it is multiplied with agree.
spec fn tile_agrees(a: Tiles, a2: Tiles, b: Matrix, b2: Matrix, r: int) -> bool {
    a(r * TILE) == a2(r * TILE) && rows_agree(b, b2, r * TILE)
}

/// Accumulations of the same tiles with the same rows agree.
proof fn lemma_accumulate_agrees<Q, D>(
    m: Model<Q, D>,
    a: Tiles,
    a2: Tiles,
    b: Matrix,
    b2: Matrix,
    h: int,
    start: int,
    n: nat,
)
    requires
        0 <= h < HD_TILES,
        forall|r: int| start <= r < start + n ==> #[trigger] tile_agrees(a, a2, b, b2, r),
    ensures
        m.accumulate(a, b, h, start, n) == m.accumulate(a2, b2, h, start, n),
    decreases n,
{
    if n > 0 {
        let r = start + n - 1;
        lemma_accumulate_agrees(m, a, a2, b, b2, h, start, (n - 1) as nat);
        assert(tile_agrees(a, a2, b, b2, r));
        lemma_tile_agrees(b, b2, r * TILE, h * TILE);
    }
}

/// The gradient of a query depends on its head alone, and there on the queries
/// of its tile and the keys of the blocks swept: under the causal mask, none
/// after its own block. Which head of how many it is does not matter.
pub proof fn dq_reads_what_it_sweeps<Q, D>(
    m: Model<Q, D>,
    a: Problem<Q, D>,
    ah: int,
    b: Problem<Q, D>,
    bh: int,
    row: int,
    col: int,
)
    requires
        0 <= row < a.seq,
        0 <= col < HEAD_DIM,
        same_settings(a, b),
        same_queries(a, ah, b, bh, (row / 16) * 16, (row / 16) * 16 + 16),
        same_keys(a, ah, b, bh, 0, kv_end(a.causal, row / 64, a.seq) * BLOCK),
    ensures
        a.dq_value(m, ah, row, col) == b.dq_value(m, bh, row, col),
{
    let end = kv_end(a.causal, row / 64, a.seq);
    let n = (end * BLOCK_TILES) as nat;
    let qr = (row / 16) * 16;
    assert(0 <= end);
    assert(n == end * 4);
    let (at, bt) = (a.ds_tiles(m, ah, qr), b.ds_tiles(m, bh, qr));
    let (ak, bk) = (a.k_half(m, ah), b.k_half(m, bh));
    assert forall|r: int| 0 <= r < 0 + n implies #[trigger] tile_agrees(at, bt, ak, bk, r) by {
        assert(same_keys(a, ah, b, bh, r * TILE, r * TILE + TILE));
        lemma_tiles_agree(m, a, ah, b, bh, qr, r * TILE);
        lemma_key_rows(m, a, ah, b, bh, r * TILE);
    }
    lemma_accumulate_agrees(m, at, bt, ak, bk, col / 16, 0, n);
}

/// The gradients of a key and its value depend on their head alone, and there
/// on the keys and values of their tile and the queries of the blocks swept:
/// under the causal mask, none before their own block. Which head of how many
/// it is does not matter.
pub proof fn dkdv_read_what_they_sweep<Q, D>(
    m: Model<Q, D>,
    a: Problem<Q, D>,
    ah: int,
    b: Problem<Q, D>,
    bh: int,
    row: int,
    col: int,
)
    requires
        0 <= row < a.seq,
        a.seq % 64 == 0,
        0 <= col < HEAD_DIM,
        same_settings(a, b),
        same_keys(a, ah, b, bh, (row / 16) * 16, (row / 16) * 16 + 16),
        same_queries(a, ah, b, bh, q_start(a.causal, row / 64) * BLOCK, a.seq),
    ensures
        a.dk_value(m, ah, row, col) == b.dk_value(m, bh, row, col),
        a.dv_value(m, ah, row, col) == b.dv_value(m, bh, row, col),
{
    let start = a.first_q_tile(row);
    let n = a.q_tiles(row);
    let kr = (row / 16) * 16;
    let blocks = a.seq / 64;
    let first = q_start(a.causal, row / 64);
    assert(a.seq == blocks * 64 && 0 <= first <= blocks);
    assert(start == first * 4 && n == blocks * 4 - first * 4);
    let (at, bt) = (a.dst_tiles(m, ah, kr), b.dst_tiles(m, bh, kr));
    let (apt, bpt) = (a.pt_tiles(m, ah, kr), b.pt_tiles(m, bh, kr));
    let (aq, bq) = (a.q_half(m, ah), b.q_half(m, bh));
    let (ado, bdo) = (a.do_half(m, ah), b.do_half(m, bh));
    assert forall|r: int| start <= r < start + n implies #[trigger] tile_agrees(
        at,
        bt,
        aq,
        bq,
        r,
    ) by {
        assert(same_queries(a, ah, b, bh, r * TILE, r * TILE + TILE));
        lemma_tiles_agree(m, a, ah, b, bh, r * TILE, kr);
        lemma_query_rows(m, a, ah, b, bh, r * TILE);
    }
    assert forall|r: int| start <= r < start + n implies #[trigger] tile_agrees(
        apt,
        bpt,
        ado,
        bdo,
        r,
    ) by {
        assert(same_queries(a, ah, b, bh, r * TILE, r * TILE + TILE));
        lemma_tiles_agree(m, a, ah, b, bh, r * TILE, kr);
        lemma_query_rows(m, a, ah, b, bh, r * TILE);
    }
    lemma_accumulate_agrees(m, at, bt, aq, bq, col / 16, start, n);
    lemma_accumulate_agrees(m, apt, bpt, ado, bdo, col / 16, start, n);
}

/// The backward pass of one head of a problem on its own.
pub open spec fn head_of<Q, D>(p: Problem<Q, D>, bh: int) -> Problem<Q, D> {
    let (lo, hi) = (element(bh, p.seq, 0, 0), element(bh + 1, p.seq, 0, 0));
    Problem {
        q: p.q.subrange(lo, hi),
        k: p.k.subrange(lo, hi),
        v: p.v.subrange(lo, hi),
        do_: p.do_.subrange(lo, hi),
        lse: p.lse.subrange(bh * p.seq, (bh + 1) * p.seq),
        d: p.d.subrange(bh * p.seq, (bh + 1) * p.seq),
        ..p
    }
}

/// The tensors of a problem hold `heads` heads.
pub open spec fn holds_heads<Q, D>(p: Problem<Q, D>, heads: int) -> bool {
    &&& element(heads, p.seq, 0, 0) <= p.q.len()
    &&& element(heads, p.seq, 0, 0) <= p.k.len()
    &&& element(heads, p.seq, 0, 0) <= p.v.len()
    &&& element(heads, p.seq, 0, 0) <= p.do_.len()
    &&& heads * p.seq <= p.lse.len()
    &&& heads * p.seq <= p.d.len()
}

/// Row `row` of head `bh` of a tensor is row `row` of that head alone.
proof fn lemma_row_of_head<T>(x: Seq<T>, bh: int, heads: int, seq: int, row: int)
    requires
        0 <= bh < heads,
        0 <= row < seq,
        element(heads, seq, 0, 0) <= x.len(),
    ensures
        same_row(
            x.subrange(element(bh, seq, 0, 0), element(bh + 1, seq, 0, 0)),
            0,
            row,
            x,
            bh,
            row,
            seq,
        ),
{
    assert(0 <= bh * seq && (bh + 1) * seq == bh * seq + seq && (bh + 1) * seq <= heads * seq)
        by (nonlinear_arith)
        requires
            0 <= bh < heads,
            0 <= seq,
    ;
}

/// Row statistic `row` of head `bh` is row statistic `row` of that head alone.
proof fn lemma_stat_of_head(x: Seq<u32>, bh: int, heads: int, seq: int, row: int)
    requires
        0 <= bh < heads,
        0 <= row < seq,
        heads * seq <= x.len(),
    ensures
        x.subrange(bh * seq, (bh + 1) * seq).len() == seq,
        x.subrange(bh * seq, (bh + 1) * seq)[row] == x[bh * seq + row],
{
    assert(0 <= bh * seq && (bh + 1) * seq == bh * seq + seq && (bh + 1) * seq <= heads * seq)
        by (nonlinear_arith)
        requires
            0 <= bh < heads,
            0 <= seq,
    ;
}

/// Heads do not mix: the gradients of a head are those of a backward pass on
/// the slices of that head alone.
pub proof fn a_head_stands_alone<Q, D>(
    m: Model<Q, D>,
    p: Problem<Q, D>,
    heads: int,
    bh: int,
    row: int,
    col: int,
)
    requires
        holds_heads(p, heads),
        p.seq % 64 == 0,
        0 <= bh < heads,
        0 <= row < p.seq,
        0 <= col < HEAD_DIM,
    ensures
        head_of(p, bh).dq_value(m, 0, row, col) == p.dq_value(m, bh, row, col),
        head_of(p, bh).dk_value(m, 0, row, col) == p.dk_value(m, bh, row, col),
        head_of(p, bh).dv_value(m, 0, row, col) == p.dv_value(m, bh, row, col),
{
    let one = head_of(p, bh);
    assert forall|i: int| 0 <= i < p.seq implies #[trigger] same_query(one, 0, i, p, bh, i) by {
        lemma_row_of_head(p.q, bh, heads, p.seq, i);
        lemma_row_of_head(p.do_, bh, heads, p.seq, i);
        lemma_stat_of_head(p.lse, bh, heads, p.seq, i);
        lemma_stat_of_head(p.d, bh, heads, p.seq, i);
    }
    assert forall|i: int| 0 <= i < p.seq implies #[trigger] same_key(one, 0, i, p, bh, i) by {
        lemma_row_of_head(p.k, bh, heads, p.seq, i);
        lemma_row_of_head(p.v, bh, heads, p.seq, i);
    }
    let end = kv_end(p.causal, row / 64, p.seq);
    assert(end * BLOCK <= p.seq);
    assert(0 <= q_start(p.causal, row / 64) * BLOCK);
    dq_reads_what_it_sweeps(m, one, 0, p, bh, row, col);
    dkdv_read_what_they_sweep(m, one, 0, p, bh, row, col);
}

/// What a launch writes for head `bh` is what a launch on the slices of that
/// head alone writes.
pub proof fn a_head_can_be_launched_alone<Q, D>(
    m: Model<Q, D>,
    p: Problem<Q, D>,
    heads: int,
    bh: int,
    all: Seq<u32>,
    alone: Seq<u32>,
    j: int,
)
    requires
        holds_heads(p, heads),
        0 < p.seq,
        p.seq % 64 == 0,
        0 <= bh < heads,
        0 <= j < element(1, p.seq, 0, 0),
    ensures
        p.dq_written(m, heads, all) && head_of(p, bh).dq_written(m, 1, alone) ==> all[element(
            bh,
            p.seq,
            0,
            0,
        ) + j] == alone[j],
        p.dk_written(m, heads, all) && head_of(p, bh).dk_written(m, 1, alone) ==> all[element(
            bh,
            p.seq,
            0,
            0,
        ) + j] == alone[j],
        p.dv_written(m, heads, all) && head_of(p, bh).dv_written(m, 1, alone) ==> all[element(
            bh,
            p.seq,
            0,
            0,
        ) + j] == alone[j],
{
    let (zero, row, col) = every_element_has_a_place(1, p.seq, j);
    assert(element(bh, p.seq, row, col) == element(bh, p.seq, 0, 0) + j);
    a_head_stands_alone(m, p, heads, bh, row, col);
}

/// The row sums of a head are those of its slices alone.
pub proof fn row_sums_of_a_head_stand_alone<Q, D>(
    m: Model<Q, D>,
    o: Seq<Q>,
    do_: Seq<D>,
    heads: int,
    seq: int,
    bh: int,
    row: int,
    n: nat,
)
    requires
        0 <= bh < heads,
        0 <= row < seq,
        n <= HEAD_DIM,
        element(heads, seq, 0, 0) <= o.len(),
        element(heads, seq, 0, 0) <= do_.len(),
    ensures
        row_sum(
            m,
            o.subrange(element(bh, seq, 0, 0), element(bh + 1, seq, 0, 0)),
            do_.subrange(element(bh, seq, 0, 0), element(bh + 1, seq, 0, 0)),
            row * HEAD_DIM,
            n,
        ) == row_sum(m, o, do_, (bh * seq + row) * HEAD_DIM, n),
    decreases n,
{
    if n > 0 {
        row_sums_of_a_head_stand_alone(m, o, do_, heads, seq, bh, row, (n - 1) as nat);
        lemma_row_of_head(o, bh, heads, seq, row);
        lemma_row_of_head(do_, bh, heads, seq, row);
        let (lo, hi) = (element(bh, seq, 0, 0), element(bh + 1, seq, 0, 0));
        assert(o.subrange(lo, hi)[element(0, seq, row, n - 1)] == o[element(bh, seq, row, n - 1)]);
        assert(do_.subrange(lo, hi)[element(0, seq, row, n - 1)] == do_[element(
            bh,
            seq,
            row,
            n - 1,
        )]);
        assert((bh * seq + row) * HEAD_DIM == bh * seq * HEAD_DIM + row * HEAD_DIM)
            by (nonlinear_arith);
    }
}

/// The row sums do not depend on which factor is called the output and which
/// the output gradient, where products of numbers do not.
pub proof fn row_sums_are_symmetric<Q, D>(
    m: Model<Q, D>,
    swapped: Model<D, Q>,
    o: Seq<Q>,
    do_: Seq<D>,
    base: int,
    n: nat,
)
    requires
        swapped.plus == m.plus,
        swapped.times == m.times,
        swapped.widen_q == m.widen_do,
        swapped.widen_do == m.widen_q,
        forall|x: u32, y: u32| #[trigger] (m.times)(x, y) == (m.times)(y, x),
    ensures
        row_sum(swapped, do_, o, base, n) == row_sum(m, o, do_, base, n),
    decreases n,
{
    if n > 0 {
        row_sums_are_symmetric(m, swapped, o, do_, base, (n - 1) as nat);
    }
}

/// Elements `i` and `j` of two tile products have the same row, column and
/// accumulator.
pub open spec fn same_operands(
    a: Seq<u16>,
    b: Seq<u16>,
    c: Seq<u32>,
    i: int,
    a2: Seq<u16>,
    b2: Seq<u16>,
    c2: Seq<u32>,
    j: int,
) -> bool {
    &&& c[i] == c2[j]
    &&& forall|t: int| 0 <= t < 16 ==> #[trigger] a[(i / 16) * 16 + t] == a2[(j / 16) * 16 + t]
    &&& forall|t: int| 0 <= t < 16 ==> #[trigger] b[t * 16 + i % 16] == b2[t * 16 + j % 16]
}

/// Every element of a tile product is the same function of its row, its column
/// and its accumulator.
pub open spec fn elementwise<Q, D>(m: Model<Q, D>) -> bool {
    &&& forall|a: Seq<u16>, b: Seq<u16>, c: Seq<u32>|
        a.len() == TILE_ELEMS && b.len() == TILE_ELEMS && c.len() == TILE_ELEMS
            ==> #[trigger] (m.mma)(a, b, c).len() == TILE_ELEMS
    &&& forall|
        a: Seq<u16>,
        b: Seq<u16>,
        c: Seq<u32>,
        i: int,
        a2: Seq<u16>,
        b2: Seq<u16>,
        c2: Seq<u32>,
        j: int,
    |
        a.len() == TILE_ELEMS && b.len() == TILE_ELEMS && c.len() == TILE_ELEMS && a2.len()
            == TILE_ELEMS && b2.len() == TILE_ELEMS && c2.len() == TILE_ELEMS && 0 <= i
            < TILE_ELEMS && 0 <= j < TILE_ELEMS && #[trigger] same_operands(
            a,
            b,
            c,
            i,
            a2,
            b2,
            c2,
            j,
        ) ==> (m.mma)(a, b, c)[i] == (m.mma)(a2, b2, c2)[j]
}

/// An element of `x · yᵀ` depends on its row of `x` and its row of `y` alone.
proof fn lemma_cross_local<Q, D>(
    m: Model<Q, D>,
    x: Matrix,
    xr: int,
    y: Matrix,
    yr: int,
    i: int,
    x2: Matrix,
    xr2: int,
    y2: Matrix,
    yr2: int,
    j: int,
    h: nat,
)
    requires
        elementwise(m),
        0 <= i < TILE_ELEMS,
        0 <= j < TILE_ELEMS,
        forall|c: int| 0 <= c < h * TILE ==> #[trigger] x(xr + i / 16, c) == x2(xr2 + j / 16, c),
        forall|c: int| 0 <= c < h * TILE ==> #[trigger] y(yr + i % 16, c) == y2(yr2 + j % 16, c),
    ensures
        m.cross_partial(x, xr, y, yr, h).len() == TILE_ELEMS,
        m.cross_partial(x2, xr2, y2, yr2, h).len() == TILE_ELEMS,
        m.cross_partial(x, xr, y, yr, h)[i] == m.cross_partial(x2, xr2, y2, yr2, h)[j],
    decreases h,
{
    if h > 0 {
        lemma_cross_local(m, x, xr, y, yr, i, x2, xr2, y2, yr2, j, (h - 1) as nat);
        let c0 = (h - 1) * TILE;
        let (a, b) = (tile(x, xr, c0), tile_t(y, yr, c0));
        let (a2, b2) = (tile(x2, xr2, c0), tile_t(y2, yr2, c0));
        let c = m.cross_partial(x, xr, y, yr, (h - 1) as nat);
        let c2 = m.cross_partial(x2, xr2, y2, yr2, (h - 1) as nat);
        assert forall|t: int| 0 <= t < 16 implies #[trigger] a[(i / 16) * 16 + t] == a2[(j / 16)
            * 16 + t] by {
            let (ti, tj) = ((i / 16) * 16 + t, (j / 16) * 16 + t);
            assert(ti / 16 == i / 16 && ti % 16 == t && tj / 16 == j / 16 && tj % 16 == t);
            assert(x(xr + i / 16, c0 + t) == x2(xr2 + j / 16, c0 + t));
        }
        assert forall|t: int| 0 <= t < 16 implies #[trigger] b[t * 16 + i % 16] == b2[t * 16 + j
            % 16] by {
            let (ti, tj) = (t * 16 + i % 16, t * 16 + j % 16);
            assert(ti / 16 == t && ti % 16 == i % 16 && tj / 16 == t && tj % 16 == j % 16);
            assert(y(yr + i % 16, c0 + t) == y2(yr2 + j % 16, c0 + t));
        }
        assert(same_operands(a, b, c, i, a2, b2, c2, j));
    }
}

/// Pair `(q, k)` of head `ah` of one problem is pair `(q2, k2)` of head `bh` of
/// another.
pub open spec fn same_pair<Q, D>(
    a: Problem<Q, D>,
    ah: int,
    q: int,
    k: int,
    b: Problem<Q, D>,
    bh: int,
    q2: int,
    k2: int,
) -> bool {
    &&& a.seq == b.seq
    &&& a.scale == b.scale
    &&& sees(a.causal, q, k) == sees(b.causal, q2, k2)
    &&& same_query(a, ah, q, b, bh, q2)
    &&& same_key(a, ah, k, b, bh, k2)
}

/// The softmax weight and the score gradient of a pair depend on its query and
/// its key alone, wherever in the sequence they stand.
pub proof fn a_pair_reads_its_rows<Q, D>(
    m: Model<Q, D>,
    a: Problem<Q, D>,
    ah: int,
    q: int,
    k: int,
    b: Problem<Q, D>,
    bh: int,
    q2: int,
    k2: int,
)
    requires
        elementwise(m),
        same_pair(a, ah, q, k, b, bh, q2, k2),
    ensures
        a.ds_at(m, ah, q, k) == b.ds_at(m, bh, q2, k2),
        a.pt_at(m, ah, q, k) == b.pt_at(m, bh, q2, k2),
        a.dst_at(m, ah, q, k) == b.dst_at(m, bh, q2, k2),
{
    let (qr, kr, qr2, kr2) = ((q / 16) * 16, (k / 16) * 16, (q2 / 16) * 16, (k2 / 16) * 16);
    let (i, j) = ((q % 16) * 16 + k % 16, (k % 16) * 16 + q % 16);
    let (i2, j2) = ((q2 % 16) * 16 + k2 % 16, (k2 % 16) * 16 + q2 % 16);
    assert(i / 16 == q % 16 && i % 16 == k % 16 && j / 16 == k % 16 && j % 16 == q % 16);
    assert(i2 / 16 == q2 % 16 && i2 % 16 == k2 % 16 && j2 / 16 == k2 % 16 && j2 % 16 == q2 % 16);
    assert(qr + q % 16 == q && kr + k % 16 == k && qr2 + q2 % 16 == q2 && kr2 + k2 % 16 == k2);
    let (aq, bq) = (a.q_half(m, ah), b.q_half(m, bh));
    let (ak, bk) = (a.k_half(m, ah), b.k_half(m, bh));
    let (av, bv) = (a.v_half(m, ah), b.v_half(m, bh));
    let (ado, bdo) = (a.do_half(m, ah), b.do_half(m, bh));
    let seq = a.seq;
    assert forall|c: int| 0 <= c < 64 implies #[trigger] aq(q, c) == bq(q2, c) by {
        assert(a.q[element(ah, seq, q, c)] == b.q[element(bh, seq, q2, c)]);
    }
    assert forall|c: int| 0 <= c < 64 implies #[trigger] ado(q, c) == bdo(q2, c) by {
        assert(a.do_[element(ah, seq, q, c)] == b.do_[element(bh, seq, q2, c)]);
    }
    assert forall|c: int| 0 <= c < 64 implies #[trigger] ak(k, c) == bk(k2, c) by {
        assert(a.k[element(ah, seq, k, c)] == b.k[element(bh, seq, k2, c)]);
    }
    assert forall|c: int| 0 <= c < 64 implies #[trigger] av(k, c) == bv(k2, c) by {
        assert(a.v[element(ah, seq, k, c)] == b.v[element(bh, seq, k2, c)]);
    }
    lemma_cross_local(m, aq, qr, ak, kr, i, bq, qr2, bk, kr2, i2, HD_TILES as nat);
    lemma_cross_local(m, ado, qr, av, kr, i, bdo, qr2, bv, kr2, i2, HD_TILES as nat);
    lemma_cross_local(m, ak, kr, aq, qr, j, bk, kr2, bq, qr2, j2, HD_TILES as nat);
    lemma_cross_local(m, av, kr, ado, qr, j, bv, kr2, bdo, qr2, j2, HD_TILES as nat);
}

/// Row `i / 16` of tile `r` is the same.
spec fn tile_row_agrees(a: Tiles, a2: Tiles, r: int, i: int) -> bool {
    &&& a(r * TILE).len() == TILE_ELEMS
    &&& a2(r * TILE).len() == TILE_ELEMS
    &&& forall|t: int|
        0 <= t < 16 ==> #[trigger] a(r * TILE)[(i / 16) * 16 + t] == a2(r * TILE)[(i / 16) * 16 + t]
}

/// An element of an accumulation depends on its row of each tile and its
/// column of the rows alone.
proof fn lemma_accumulate_local<Q, D>(
    m: Model<Q, D>,
    a: Tiles,
    a2: Tiles,
    b: Matrix,
    h: int,
    start: int,
    n: nat,
    i: int,
)
    requires
        elementwise(m),
        0 <= i < TILE_ELEMS,
        forall|r: int| start <= r < start + n ==> #[trigger] tile_row_agrees(a, a2, r, i),
    ensures
        m.accumulate(a, b, h, start, n).len() == TILE_ELEMS,
        m.accumulate(a2, b, h, start, n).len() == TILE_ELEMS,
        m.accumulate(a, b, h, start, n)[i] == m.accumulate(a2, b, h, start, n)[i],
    decreases n,
{
    if n > 0 {
        let r = start + n - 1;
        lemma_accumulate_local(m, a, a2, b, h, start, (n - 1) as nat, i);
        let right = tile(b, r * TILE, h * TILE);
        let c = m.accumulate(a, b, h, start, (n - 1) as nat);
        let c2 = m.accumulate(a2, b, h, start, (n - 1) as nat);
        assert(tile_row_agrees(a, a2, r, i));
        assert(same_operands(a(r * TILE), right, c, i, a2(r * TILE), right, c2, i));
    }
}

/// The same problem without the causal mask.
pub open spec fn unmasked<Q, D>(p: Problem<Q, D>) -> Problem<Q, D> {
    Problem { causal: false, ..p }
}

/// The causal mask takes nothing from the last query, which sees every key.
pub proof fn mask_spares_the_last_query<Q, D>(m: Model<Q, D>, p: Problem<Q, D>, bh: int, col: int)
    requires
        elementwise(m),
        0 < p.seq,
        p.seq % 64 == 0,
        0 <= col < HEAD_DIM,
    ensures
        p.dq_value(m, bh, p.seq - 1, col) == unmasked(p).dq_value(m, bh, p.seq - 1, col),
{
    let free = unmasked(p);
    let q = p.seq - 1;
    let qr = (q / 16) * 16;
    let i = (q % 16) * 16 + col % 16;
    let n = (kv_end(p.causal, q / 64, p.seq) * BLOCK_TILES) as nat;
    let blocks = p.seq / 64;
    assert(p.seq == blocks * 64 && q / 64 == blocks - 1);
    assert(n == blocks * 4);
    assert(0 <= i < 256 && i / 16 == q % 16 && qr + i / 16 == q);
    assert(p.k_half(m, bh) =~= free.k_half(m, bh));
    let (a, a2) = (p.ds_tiles(m, bh, qr), free.ds_tiles(m, bh, qr));
    assert forall|r: int| 0 <= r < 0 + n implies #[trigger] tile_row_agrees(a, a2, r, i) by {
        assert forall|t: int| 0 <= t < 16 implies #[trigger] a(r * TILE)[(i / 16) * 16 + t] == a2(
            r * TILE,
        )[(i / 16) * 16 + t] by {
            let k = r * 16 + t;
            lemma_tile_elements(m, p, bh, qr, r * 16, q, k);
            lemma_tile_elements(m, free, bh, qr, r * 16, q, k);
            a_pair_reads_its_rows(m, p, bh, q, k, free, bh, q, k);
        }
    }
    lemma_accumulate_local(m, a, a2, p.k_half(m, bh), col / 16, 0, n, i);
}

/// The causal mask takes nothing from key 0 and its value, which every query
/// sees.
pub proof fn mask_spares_the_first_key<Q, D>(m: Model<Q, D>, p: Problem<Q, D>, bh: int, col: int)
    requires
        elementwise(m),
        0 < p.seq,
        p.seq % 64 == 0,
        0 <= col < HEAD_DIM,
    ensures
        p.dk_value(m, bh, 0, col) == unmasked(p).dk_value(m, bh, 0, col),
        p.dv_value(m, bh, 0, col) == unmasked(p).dv_value(m, bh, 0, col),
{
    let free = unmasked(p);
    let i = col % 16;
    let n = p.q_tiles(0);
    let blocks = p.seq / 64;
    assert(p.seq == blocks * 64);
    assert(p.first_q_tile(0) == 0 && free.first_q_tile(0) == 0 && free.q_tiles(0) == n);
    assert(n == blocks * 4);
    assert(0 <= i < 256 && i / 16 == 0);
    assert(p.q_half(m, bh) =~= free.q_half(m, bh));
    assert(p.do_half(m, bh) =~= free.do_half(m, bh));
    let (a, a2) = (p.dst_tiles(m, bh, 0), free.dst_tiles(m, bh, 0));
    let (w, w2) = (p.pt_tiles(m, bh, 0), free.pt_tiles(m, bh, 0));
    assert forall|r: int| 0 <= r < 0 + n implies #[trigger] tile_row_agrees(a, a2, r, i) by {
        assert forall|t: int| 0 <= t < 16 implies #[trigger] a(r * TILE)[(i / 16) * 16 + t] == a2(
            r * TILE,
        )[(i / 16) * 16 + t] by {
            let q = r * 16 + t;
            lemma_tile_elements(m, p, bh, r * 16, 0, q, 0);
            lemma_tile_elements(m, free, bh, r * 16, 0, q, 0);
            a_pair_reads_its_rows(m, p, bh, q, 0, free, bh, q, 0);
        }
    }
    assert forall|r: int| 0 <= r < 0 + n implies #[trigger] tile_row_agrees(w, w2, r, i) by {
        assert forall|t: int| 0 <= t < 16 implies #[trigger] w(r * TILE)[(i / 16) * 16 + t] == w2(
            r * TILE,
        )[(i / 16) * 16 + t] by {
            let q = r * 16 + t;
            lemma_tile_elements(m, p, bh, r * 16, 0, q, 0);
            lemma_tile_elements(m, free, bh, r * 16, 0, q, 0);
            a_pair_reads_its_rows(m, p, bh, q, 0, free, bh, q, 0);
        }
    }
    lemma_accumulate_local(m, a, a2, p.q_half(m, bh), col / 16, 0, n, i);
    lemma_accumulate_local(m, w, w2, p.do_half(m, bh), col / 16, 0, n, i);
}

} // verus!
