//! What holds of the gradients although the tile products round.

use vstd::prelude::*;
use crate::algebra::{lemma_same_scores, same_attention};
use crate::attention::{lemma_tile_elements, tile, tile_t, Matrix, Problem, Tiles};
use crate::exact::{dk_ok, dq_ok, dv_ok, masks, Reading};
use crate::geometry::{
    element, kv_end, q_start, BLOCK, BLOCK_TILES, HD_TILES, HEAD_DIM, TILE, TILE_ELEMS,
};
use crate::locality::{
    a_pair_reads_its_rows, elementwise, same_key, same_keys, same_queries, same_query,
    same_settings,
};
use crate::math::{Model, ZERO};

verus! {

/// Two products of finite factors have the same factors, or are both zero.
pub open spec fn same_product(e: Reading, l: u16, r: u16, l2: u16, r2: u16) -> bool {
    &&& (e.half_ok)(l) && (e.half_ok)(r) && (e.half_ok)(l2) && (e.half_ok)(r2)
    &&& (l == l2 && r == r2) || ((e.half)(l) * (e.half)(r) == 0 && (e.half)(l2) * (e.half)(r2) == 0)
}

/// Element `i` of two tile products sums the same products, up to zeros, and
/// accumulators that read the same.
pub open spec fn same_sum(
    e: Reading,
    a: Seq<u16>,
    b: Seq<u16>,
    c: Seq<u32>,
    a2: Seq<u16>,
    b2: Seq<u16>,
    c2: Seq<u32>,
    i: int,
) -> bool {
    &&& (e.full)(c[i]) == (e.full)(c2[i])
    &&& forall|t: int|
        0 <= t < 16 ==> #[trigger] product_kept(e, a, b, a2, b2, i, t)
}

/// Product `t` of element `i` of two tile products is the same, up to zeros.
pub open spec fn product_kept(
    e: Reading,
    a: Seq<u16>,
    b: Seq<u16>,
    a2: Seq<u16>,
    b2: Seq<u16>,
    i: int,
    t: int,
) -> bool {
    same_product(
        e,
        a[(i / 16) * 16 + t],
        b[t * 16 + i % 16],
        a2[(i / 16) * 16 + t],
        b2[t * 16 + i % 16],
    )
}

/// Products that are zero add nothing to a tile product, whatever rounds.
pub open spec fn zeros_add_nothing<Q, D>(m: Model<Q, D>, e: Reading) -> bool {
    &&& forall|a: Seq<u16>, b: Seq<u16>, c: Seq<u32>|
        a.len() == TILE_ELEMS && b.len() == TILE_ELEMS && c.len() == TILE_ELEMS
            ==> #[trigger] (m.mma)(a, b, c).len() == TILE_ELEMS
    &&& forall|
        a: Seq<u16>,
        b: Seq<u16>,
        c: Seq<u32>,
        a2: Seq<u16>,
        b2: Seq<u16>,
        c2: Seq<u32>,
        i: int,
    |
        a.len() == TILE_ELEMS && b.len() == TILE_ELEMS && c.len() == TILE_ELEMS && a2.len()
            == TILE_ELEMS && b2.len() == TILE_ELEMS && c2.len() == TILE_ELEMS && 0 <= i
            < TILE_ELEMS && #[trigger] same_sum(e, a, b, c, a2, b2, c2, i) ==> (e.full)(
            (m.mma)(a, b, c)[i],
        ) == (e.full)((m.mma)(a2, b2, c2)[i])
}

/// Product `t` of tile `r` of two accumulations is the same, up to zeros.
spec fn term_kept(
    e: Reading,
    a: Tiles,
    b: Matrix,
    a2: Tiles,
    b2: Matrix,
    h: int,
    i: int,
    r: int,
    t: int,
) -> bool {
    same_product(
        e,
        a(r * TILE)[(i / 16) * 16 + t],
        b(r * TILE + t, h * TILE + i % 16),
        a2(r * TILE)[(i / 16) * 16 + t],
        b2(r * TILE + t, h * TILE + i % 16),
    )
}

/// Accumulations of the same products, up to zeros, read the same.
proof fn lemma_accumulate_skips<Q, D>(
    m: Model<Q, D>,
    e: Reading,
    a: Tiles,
    b: Matrix,
    a2: Tiles,
    b2: Matrix,
    h: int,
    start: int,
    n: nat,
    i: int,
)
    requires
        zeros_add_nothing(m, e),
        0 <= i < TILE_ELEMS,
        forall|r: int|
            start <= r < start + n ==> (#[trigger] a(r * TILE)).len() == TILE_ELEMS,
        forall|r: int|
            start <= r < start + n ==> (#[trigger] a2(r * TILE)).len() == TILE_ELEMS,
        forall|r: int, t: int|
            start <= r < start + n && 0 <= t < 16 ==> #[trigger] term_kept(
                e,
                a,
                b,
                a2,
                b2,
                h,
                i,
                r,
                t,
            ),
    ensures
        m.accumulate(a, b, h, start, n).len() == TILE_ELEMS,
        m.accumulate(a2, b2, h, start, n).len() == TILE_ELEMS,
        (e.full)(m.accumulate(a, b, h, start, n)[i]) == (e.full)(
            m.accumulate(a2, b2, h, start, n)[i],
        ),
    decreases n,
{
    if n > 0 {
        let r = start + n - 1;
        lemma_accumulate_skips(m, e, a, b, a2, b2, h, start, (n - 1) as nat, i);
        let (left, left2) = (a(r * TILE), a2(r * TILE));
        let (right, right2) = (tile(b, r * TILE, h * TILE), tile(b2, r * TILE, h * TILE));
        let c = m.accumulate(a, b, h, start, (n - 1) as nat);
        let c2 = m.accumulate(a2, b2, h, start, (n - 1) as nat);
        assert forall|t: int| 0 <= t < 16 implies #[trigger] product_kept(
            e,
            left,
            right,
            left2,
            right2,
            i,
            t,
        ) by {
            let j = t * 16 + i % 16;
            assert(j / 16 == t && j % 16 == i % 16);
            assert(term_kept(e, a, b, a2, b2, h, i, r, t));
        }
        assert(same_sum(e, left, right, c, left2, right2, c2, i));
    }
}

/// Under the causal mask, the gradient of a query does not depend on the keys
/// and values after it, however the tile products round: it reads the same.
pub proof fn dq_ignores_later_keys_rounded<Q, D>(
    m: Model<Q, D>,
    e: Reading,
    a: Problem<Q, D>,
    b: Problem<Q, D>,
    bh: int,
    q: int,
    col: int,
)
    requires
        zeros_add_nothing(m, e),
        masks(m, e),
        elementwise(m),
        a.causal,
        a.seq % 64 == 0,
        0 <= q < a.seq,
        0 <= col < HEAD_DIM,
        same_settings(a, b),
        same_query(a, bh, q, b, bh, q),
        same_keys(a, bh, b, bh, 0, q + 1),
        forall|key: int|
            0 <= key < kv_end(true, q / 64, a.seq) * BLOCK ==> #[trigger] dq_ok(m, e, a, bh, q, col, key) && dq_ok(
                m,
                e,
                b,
                bh,
                q,
                col,
                key,
            ),
    ensures
        (e.full)(a.dq_value(m, bh, q, col)) == (e.full)(b.dq_value(m, bh, q, col)),
{
    let n = (kv_end(true, q / 64, a.seq) * BLOCK_TILES) as nat;
    let i = (q % 16) * 16 + col % 16;
    let qr = (q / 16) * 16;
    let h = col / 16;
    assert(i / 16 == q % 16 && i % 16 == col % 16 && 0 <= i < 256);
    let blocks = a.seq / 64;
    assert(a.seq == blocks * 64 && q / 64 < blocks && n == (q / 64 + 1) * 4);
    let (x, x2) = (a.ds_tiles(m, bh, qr), b.ds_tiles(m, bh, qr));
    let (y, y2) = (a.k_half(m, bh), b.k_half(m, bh));
    assert forall|r: int, t: int| 0 <= r < 0 + n && 0 <= t < 16 implies #[trigger] term_kept(
        e,
        x,
        y,
        x2,
        y2,
        h,
        i,
        r,
        t,
    ) by {
        let key = r * 16 + t;
        assert(0 <= key < kv_end(true, q / 64, a.seq) * BLOCK);
        assert(dq_ok(m, e, a, bh, q, col, key));
        assert(dq_ok(m, e, b, bh, q, col, key));
        lemma_tile_elements(m, a, bh, qr, r * 16, q, key);
        lemma_tile_elements(m, b, bh, qr, r * 16, q, key);
        if key <= q {
            assert(same_key(a, bh, key, b, bh, key));
            a_pair_reads_its_rows(m, a, bh, q, key, b, bh, q, key);
            assert(a.k[element(bh, a.seq, key, col)] == b.k[element(bh, a.seq, key, col)]);
        } else {
            let (k, k2) = ((e.half)(y(key, col)), (e.half)(y2(key, col)));
            assert((e.half)(a.ds_at(m, bh, q, key)) == 0 && (e.half)(b.ds_at(m, bh, q, key)) == 0);
            assert(0 * k == 0 && 0 * k2 == 0) by (nonlinear_arith);
        }
    }
    lemma_accumulate_skips(m, e, x, y, x2, y2, h, 0, n, i);
}

/// Under the causal mask, the gradients of a key and its value do not depend on
/// the queries before it, however the tile products round: they read the same.
pub proof fn dkdv_ignore_earlier_queries_rounded<Q, D>(
    m: Model<Q, D>,
    e: Reading,
    a: Problem<Q, D>,
    b: Problem<Q, D>,
    bh: int,
    key: int,
    col: int,
)
    requires
        zeros_add_nothing(m, e),
        masks(m, e),
        elementwise(m),
        a.causal,
        a.seq % 64 == 0,
        0 <= key < a.seq,
        0 <= col < HEAD_DIM,
        same_settings(a, b),
        same_key(a, bh, key, b, bh, key),
        same_queries(a, bh, b, bh, key, a.seq),
        forall|q: int|
            q_start(true, key / 64) * BLOCK <= q < a.seq ==> {
                &&& #[trigger] dk_ok(m, e, a, bh, key, col, q)
                &&& dk_ok(m, e, b, bh, key, col, q)
                &&& dv_ok(m, e, a, bh, key, col, q)
                &&& dv_ok(m, e, b, bh, key, col, q)
            },
    ensures
        (e.full)(a.dk_value(m, bh, key, col)) == (e.full)(b.dk_value(m, bh, key, col)),
        (e.full)(a.dv_value(m, bh, key, col)) == (e.full)(b.dv_value(m, bh, key, col)),
{
    let start = a.first_q_tile(key);
    let n = a.q_tiles(key);
    let i = (key % 16) * 16 + col % 16;
    let kr = (key / 16) * 16;
    let h = col / 16;
    let blocks = a.seq / 64;
    assert(i / 16 == key % 16 && i % 16 == col % 16 && 0 <= i < 256);
    assert(a.seq == blocks * 64 && start == (key / 64) * 4 && n == blocks * 4 - start);
    let (x, x2) = (a.dst_tiles(m, bh, kr), b.dst_tiles(m, bh, kr));
    let (w, w2) = (a.pt_tiles(m, bh, kr), b.pt_tiles(m, bh, kr));
    let (y, y2) = (a.q_half(m, bh), b.q_half(m, bh));
    let (z, z2) = (a.do_half(m, bh), b.do_half(m, bh));
    assert forall|r: int, t: int|
        start <= r < start + n && 0 <= t < 16 implies #[trigger] term_kept(
        e,
        x,
        y,
        x2,
        y2,
        h,
        i,
        r,
        t,
    ) by {
        let q = r * 16 + t;
        assert((key / 64) * BLOCK <= q < a.seq);
        assert(dk_ok(m, e, a, bh, key, col, q));
        assert(dk_ok(m, e, b, bh, key, col, q));
        lemma_tile_elements(m, a, bh, r * 16, kr, q, key);
        lemma_tile_elements(m, b, bh, r * 16, kr, q, key);
        if key <= q {
            assert(same_query(a, bh, q, b, bh, q));
            a_pair_reads_its_rows(m, a, bh, q, key, b, bh, q, key);
            assert(a.q[element(bh, a.seq, q, col)] == b.q[element(bh, a.seq, q, col)]);
        } else {
            let (k, k2) = ((e.half)(y(q, col)), (e.half)(y2(q, col)));
            assert((e.half)(a.dst_at(m, bh, q, key)) == 0 && (e.half)(b.dst_at(m, bh, q, key))
                == 0);
            assert(0 * k == 0 && 0 * k2 == 0) by (nonlinear_arith);
        }
    }
    assert forall|r: int, t: int|
        start <= r < start + n && 0 <= t < 16 implies #[trigger] term_kept(
        e,
        w,
        z,
        w2,
        z2,
        h,
        i,
        r,
        t,
    ) by {
        let q = r * 16 + t;
        assert((key / 64) * BLOCK <= q < a.seq);
        assert(dk_ok(m, e, a, bh, key, col, q));
        lemma_tile_elements(m, a, bh, r * 16, kr, q, key);
        lemma_tile_elements(m, b, bh, r * 16, kr, q, key);
        if key <= q {
            assert(same_query(a, bh, q, b, bh, q));
            a_pair_reads_its_rows(m, a, bh, q, key, b, bh, q, key);
            assert(a.do_[element(bh, a.seq, q, col)] == b.do_[element(bh, a.seq, q, col)]);
        } else {
            let (k, k2) = ((e.half)(z(q, col)), (e.half)(z2(q, col)));
            assert((e.half)(a.pt_at(m, bh, q, key)) == 0 && (e.half)(b.pt_at(m, bh, q, key)) == 0);
            assert(0 * k == 0 && 0 * k2 == 0) by (nonlinear_arith);
        }
    }
    lemma_accumulate_skips(m, e, x, y, x2, y2, h, start, n, i);
    lemma_accumulate_skips(m, e, w, z, w2, z2, h, start, n, i);
}

/// What twice a number is, and which numbers are so far from overflow and
/// underflow that their products and sums double with them.
pub ghost struct Doubling {
    pub half_ok: spec_fn(u16) -> bool,
    pub half: spec_fn(u16) -> u16,
    pub full_ok: spec_fn(u32) -> bool,
    pub full: spec_fn(u32) -> u32,
    /// Whether a softmax weight is in range.
    pub weight_ok: spec_fn(u32) -> bool,
}

/// Row `i / 16` of `a` and column `i % 16` of `b` are in range, and one of them
/// is twice as large in `a2` and `b2`, the other the same.
pub open spec fn one_doubles(
    w: Doubling,
    a: Seq<u16>,
    b: Seq<u16>,
    a2: Seq<u16>,
    b2: Seq<u16>,
    i: int,
    left: bool,
) -> bool {
    forall|t: int| 0 <= t < 16 ==> #[trigger] factor_doubles(w, a, b, a2, b2, i, left, t)
}

/// The factors of product `t` of element `i` are in range, and one of them
/// doubles.
pub open spec fn factor_doubles(
    w: Doubling,
    a: Seq<u16>,
    b: Seq<u16>,
    a2: Seq<u16>,
    b2: Seq<u16>,
    i: int,
    left: bool,
    t: int,
) -> bool {
    let (l, r) = (a[(i / 16) * 16 + t], b[t * 16 + i % 16]);
    &&& (w.half_ok)(l)
    &&& (w.half_ok)(r)
    &&& a2[(i / 16) * 16 + t] == if left {
        (w.half)(l)
    } else {
        l
    }
    &&& b2[t * 16 + i % 16] == if left {
        r
    } else {
        (w.half)(r)
    }
}

/// Tile products and score gradients double with their operands.
pub open spec fn doubles<Q, D>(m: Model<Q, D>, w: Doubling, scale: u32) -> bool {
    &&& (w.full)(ZERO) == ZERO
    &&& forall|a: Seq<u16>, b: Seq<u16>, c: Seq<u32>|
        a.len() == TILE_ELEMS && b.len() == TILE_ELEMS && c.len() == TILE_ELEMS
            ==> #[trigger] (m.mma)(a, b, c).len() == TILE_ELEMS
    &&& forall|
        a: Seq<u16>,
        b: Seq<u16>,
        c: Seq<u32>,
        a2: Seq<u16>,
        b2: Seq<u16>,
        c2: Seq<u32>,
        i: int,
        left: bool,
    |
        a.len() == TILE_ELEMS && b.len() == TILE_ELEMS && c.len() == TILE_ELEMS && a2.len()
            == TILE_ELEMS && b2.len() == TILE_ELEMS && c2.len() == TILE_ELEMS && 0 <= i
            < TILE_ELEMS && (w.full_ok)(c[i]) && c2[i] == (w.full)(c[i]) && one_doubles(
            w,
            a,
            b,
            a2,
            b2,
            i,
            left,
        ) ==> #[trigger] doubled_product(m, w, a, b, c, a2, b2, c2, i, left)
    &&& forall|p: u32, dp: u32, d: u32|
        (w.weight_ok)(p) && (w.full_ok)(dp) && (w.full_ok)(d) && (w.half_ok)(
            (m.narrow)(#[trigger] m.grad(p, dp, d, scale)),
        ) ==> (m.narrow)(m.grad(p, (w.full)(dp), (w.full)(d), scale)) == (w.half)(
            (m.narrow)(m.grad(p, dp, d, scale)),
        )
}

/// Element `i` of a tile product doubles.
pub open spec fn doubled_product<Q, D>(
    m: Model<Q, D>,
    w: Doubling,
    a: Seq<u16>,
    b: Seq<u16>,
    c: Seq<u32>,
    a2: Seq<u16>,
    b2: Seq<u16>,
    c2: Seq<u32>,
    i: int,
    left: bool,
) -> bool {
    (m.mma)(a2, b2, c2)[i] == (w.full)((m.mma)(a, b, c)[i])
}

/// Column `c` of a row of `x` and of a row of `y` is in range, and one of them
/// doubles.
spec fn column_doubles(
    w: Doubling,
    x: Matrix,
    x2: Matrix,
    xr: int,
    y: Matrix,
    y2: Matrix,
    yr: int,
    left: bool,
    c: int,
) -> bool {
    &&& (w.half_ok)(x(xr, c))
    &&& (w.half_ok)(y(yr, c))
    &&& x2(xr, c) == if left {
        (w.half)(x(xr, c))
    } else {
        x(xr, c)
    }
    &&& y2(yr, c) == if left {
        y(yr, c)
    } else {
        (w.half)(y(yr, c))
    }
}

/// A product of two rows is in range at every step.
pub open spec fn cross_in_range<Q, D>(
    m: Model<Q, D>,
    w: Doubling,
    x: Matrix,
    xr: int,
    y: Matrix,
    yr: int,
    i: int,
) -> bool {
    forall|h: nat|
        h <= HD_TILES ==> (w.full_ok)(#[trigger] m.cross_partial(x, xr, y, yr, h)[i])
}

/// The product of two rows doubles with one of them.
proof fn lemma_cross_doubles<Q, D>(
    m: Model<Q, D>,
    w: Doubling,
    scale: u32,
    x: Matrix,
    x2: Matrix,
    xr: int,
    y: Matrix,
    y2: Matrix,
    yr: int,
    i: int,
    left: bool,
    h: nat,
)
    requires
        doubles(m, w, scale),
        h <= HD_TILES,
        0 <= i < TILE_ELEMS,
        cross_in_range(m, w, x, xr, y, yr, i),
        forall|c: int|
            0 <= c < HEAD_DIM ==> #[trigger] column_doubles(
                w,
                x,
                x2,
                xr + i / 16,
                y,
                y2,
                yr + i % 16,
                left,
                c,
            ),
    ensures
        m.cross_partial(x, xr, y, yr, h).len() == TILE_ELEMS,
        m.cross_partial(x2, xr, y2, yr, h).len() == TILE_ELEMS,
        m.cross_partial(x2, xr, y2, yr, h)[i] == (w.full)(m.cross_partial(x, xr, y, yr, h)[i]),
    decreases h,
{
    if h > 0 {
        lemma_cross_doubles(m, w, scale, x, x2, xr, y, y2, yr, i, left, (h - 1) as nat);
        let c0 = (h - 1) * TILE;
        let (a, b) = (tile(x, xr, c0), tile_t(y, yr, c0));
        let (a2, b2) = (tile(x2, xr, c0), tile_t(y2, yr, c0));
        let c = m.cross_partial(x, xr, y, yr, (h - 1) as nat);
        let c2 = m.cross_partial(x2, xr, y2, yr, (h - 1) as nat);
        assert((w.full_ok)(c[i]));
        assert forall|t: int| 0 <= t < 16 implies #[trigger] factor_doubles(
            w,
            a,
            b,
            a2,
            b2,
            i,
            left,
            t,
        ) by {
            let (ti, tj) = ((i / 16) * 16 + t, t * 16 + i % 16);
            assert(ti / 16 == i / 16 && ti % 16 == t && tj / 16 == t && tj % 16 == i % 16);
            assert(column_doubles(w, x, x2, xr + i / 16, y, y2, yr + i % 16, left, c0 + t));
        }
        assert(one_doubles(w, a, b, a2, b2, i, left));
        assert(doubled_product(m, w, a, b, c, a2, b2, c2, i, left));
    }
}

/// The factors of product `t` of tile `r` of an accumulation are in range, and
/// one of them doubles.
spec fn term_doubles(
    w: Doubling,
    a: Tiles,
    b: Matrix,
    a2: Tiles,
    b2: Matrix,
    h: int,
    i: int,
    left: bool,
    r: int,
    t: int,
) -> bool {
    let l = a(r * TILE)[(i / 16) * 16 + t];
    let v = b(r * TILE + t, h * TILE + i % 16);
    &&& (w.half_ok)(l)
    &&& (w.half_ok)(v)
    &&& a2(r * TILE)[(i / 16) * 16 + t] == if left {
        (w.half)(l)
    } else {
        l
    }
    &&& b2(r * TILE + t, h * TILE + i % 16) == if left {
        v
    } else {
        (w.half)(v)
    }
}

/// Element `i` of an accumulation is in range at every step.
pub open spec fn sum_in_range<Q, D>(
    m: Model<Q, D>,
    w: Doubling,
    a: Tiles,
    b: Matrix,
    h: int,
    start: int,
    n: nat,
    i: int,
) -> bool {
    forall|u: nat| u <= n ==> (w.full_ok)(#[trigger] m.accumulate(a, b, h, start, u)[i])
}

/// An accumulation doubles with its tiles or with its rows.
proof fn lemma_accumulate_doubles<Q, D>(
    m: Model<Q, D>,
    w: Doubling,
    scale: u32,
    a: Tiles,
    b: Matrix,
    a2: Tiles,
    b2: Matrix,
    h: int,
    start: int,
    n: nat,
    i: int,
    left: bool,
)
    requires
        doubles(m, w, scale),
        0 <= i < TILE_ELEMS,
        sum_in_range(m, w, a, b, h, start, n, i),
        forall|r: int|
            start <= r < start + n ==> (#[trigger] a(r * TILE)).len() == TILE_ELEMS,
        forall|r: int|
            start <= r < start + n ==> (#[trigger] a2(r * TILE)).len() == TILE_ELEMS,
        forall|r: int, t: int|
            start <= r < start + n && 0 <= t < 16 ==> #[trigger] term_doubles(
                w,
                a,
                b,
                a2,
                b2,
                h,
                i,
                left,
                r,
                t,
            ),
    ensures
        m.accumulate(a, b, h, start, n).len() == TILE_ELEMS,
        m.accumulate(a2, b2, h, start, n).len() == TILE_ELEMS,
        m.accumulate(a2, b2, h, start, n)[i] == (w.full)(m.accumulate(a, b, h, start, n)[i]),
    decreases n,
{
    if n > 0 {
        let r = start + n - 1;
        lemma_accumulate_doubles(m, w, scale, a, b, a2, b2, h, start, (n - 1) as nat, i, left);
        let (x, x2) = (a(r * TILE), a2(r * TILE));
        let (y, y2) = (tile(b, r * TILE, h * TILE), tile(b2, r * TILE, h * TILE));
        let c = m.accumulate(a, b, h, start, (n - 1) as nat);
        let c2 = m.accumulate(a2, b2, h, start, (n - 1) as nat);
        assert((w.full_ok)(c[i]));
        assert forall|t: int| 0 <= t < 16 implies #[trigger] factor_doubles(
            w,
            x,
            y,
            x2,
            y2,
            i,
            left,
            t,
        ) by {
            let j = t * 16 + i % 16;
            assert(j / 16 == t && j % 16 == i % 16);
            assert(term_doubles(w, a, b, a2, b2, h, i, left, r, t));
        }
        assert(one_doubles(w, x, y, x2, y2, i, left));
        assert(doubled_product(m, w, x, y, c, x2, y2, c2, i, left));
    }
}

/// Row `q` of the output gradients and row sums of `b` is twice that of `a`,
/// and that of `a` is in range.
pub open spec fn query_doubles<Q, D>(
    m: Model<Q, D>,
    w: Doubling,
    a: Problem<Q, D>,
    b: Problem<Q, D>,
    bh: int,
    q: int,
) -> bool {
    &&& forall|c: int|
        0 <= c < HEAD_DIM ==> (w.half_ok)(#[trigger] a.do_half(m, bh)(q, c)) && b.do_half(m, bh)(
            q,
            c,
        ) == (w.half)(a.do_half(m, bh)(q, c))
    &&& (w.full_ok)(a.d[bh * a.seq + q])
    &&& b.d[bh * a.seq + q] == (w.full)(a.d[bh * a.seq + q])
}

/// What the query-gradient kernel recomputes of a pair is in range.
pub open spec fn pair_in_range<Q, D>(
    m: Model<Q, D>,
    w: Doubling,
    p: Problem<Q, D>,
    bh: int,
    q: int,
    k: int,
) -> bool {
    let (qr, kr) = ((q / 16) * 16, (k / 16) * 16);
    let i = (q % 16) * 16 + k % 16;
    &&& forall|c: int| 0 <= c < HEAD_DIM ==> (w.half_ok)(#[trigger] p.v_half(m, bh)(k, c))
    &&& cross_in_range(m, w, p.do_half(m, bh), qr, p.v_half(m, bh), kr, i)
    &&& (w.weight_ok)(p.p_value(m, bh, q, k, p.s_at(m, bh, q, k)))
    &&& (w.half_ok)(p.ds_at(m, bh, q, k))
}

/// What the key- and value-gradient kernel recomputes of a pair is in range.
pub open spec fn pair_in_range_t<Q, D>(
    m: Model<Q, D>,
    w: Doubling,
    p: Problem<Q, D>,
    bh: int,
    q: int,
    k: int,
) -> bool {
    let (qr, kr) = ((q / 16) * 16, (k / 16) * 16);
    let i = (k % 16) * 16 + q % 16;
    &&& forall|c: int| 0 <= c < HEAD_DIM ==> (w.half_ok)(#[trigger] p.v_half(m, bh)(k, c))
    &&& cross_in_range(m, w, p.v_half(m, bh), kr, p.do_half(m, bh), qr, i)
    &&& (w.weight_ok)(p.p_value(m, bh, q, k, p.st_at(m, bh, q, k)))
    &&& (w.half_ok)(p.pt_at(m, bh, q, k))
    &&& (w.half_ok)(p.dst_at(m, bh, q, k))
}

/// The score gradient of a pair doubles in the query-gradient kernel.
proof fn lemma_ds_doubles<Q, D>(
    m: Model<Q, D>,
    w: Doubling,
    a: Problem<Q, D>,
    b: Problem<Q, D>,
    bh: int,
    q: int,
    k: int,
)
    requires
        doubles(m, w, a.scale),
        same_attention(a, b),
        query_doubles(m, w, a, b, bh, q),
        pair_in_range(m, w, a, bh, q, k),
    ensures
        b.ds_at(m, bh, q, k) == (w.half)(a.ds_at(m, bh, q, k)),
{
    lemma_same_scores(m, a, b, bh, q, k);
    let (qr, kr) = ((q / 16) * 16, (k / 16) * 16);
    let i = (q % 16) * 16 + k % 16;
    assert(i / 16 == q % 16 && i % 16 == k % 16 && 0 <= i < 256);
    let (x, x2, y) = (a.do_half(m, bh), b.do_half(m, bh), a.v_half(m, bh));
    assert forall|c: int| 0 <= c < HEAD_DIM implies #[trigger] column_doubles(
        w,
        x,
        x2,
        qr + i / 16,
        y,
        y,
        kr + i % 16,
        true,
        c,
    ) by {
        assert((w.half_ok)(a.do_half(m, bh)(q, c)) && (w.half_ok)(a.v_half(m, bh)(k, c)));
    }
    lemma_cross_doubles(m, w, a.scale, x, x2, qr, y, y, kr, i, true, HD_TILES as nat);
    assert((w.full_ok)(m.cross_partial(x, qr, y, kr, HD_TILES as nat)[i]));
}

/// The score gradient of a pair doubles in the key- and value-gradient kernel,
/// and its softmax weight stays.
proof fn lemma_dst_doubles<Q, D>(
    m: Model<Q, D>,
    w: Doubling,
    a: Problem<Q, D>,
    b: Problem<Q, D>,
    bh: int,
    q: int,
    k: int,
)
    requires
        doubles(m, w, a.scale),
        same_attention(a, b),
        query_doubles(m, w, a, b, bh, q),
        pair_in_range_t(m, w, a, bh, q, k),
    ensures
        b.pt_at(m, bh, q, k) == a.pt_at(m, bh, q, k),
        b.dst_at(m, bh, q, k) == (w.half)(a.dst_at(m, bh, q, k)),
{
    lemma_same_scores(m, a, b, bh, q, k);
    let (qr, kr) = ((q / 16) * 16, (k / 16) * 16);
    let i = (k % 16) * 16 + q % 16;
    assert(i / 16 == k % 16 && i % 16 == q % 16 && 0 <= i < 256);
    let (x, x2, y) = (a.do_half(m, bh), b.do_half(m, bh), a.v_half(m, bh));
    assert forall|c: int| 0 <= c < HEAD_DIM implies #[trigger] column_doubles(
        w,
        y,
        y,
        kr + i / 16,
        x,
        x2,
        qr + i % 16,
        false,
        c,
    ) by {
        assert((w.half_ok)(a.do_half(m, bh)(q, c)) && (w.half_ok)(a.v_half(m, bh)(k, c)));
    }
    lemma_cross_doubles(m, w, a.scale, y, y, kr, x, x2, qr, i, false, HD_TILES as nat);
    assert((w.full_ok)(m.cross_partial(y, kr, x, qr, HD_TILES as nat)[i]));
}

/// The query gradient doubles, bit for bit, with the output gradients and the
/// row sums, as long as nothing overflows or underflows.
pub proof fn dq_doubles<Q, D>(
    m: Model<Q, D>,
    w: Doubling,
    a: Problem<Q, D>,
    b: Problem<Q, D>,
    bh: int,
    q: int,
    col: int,
)
    requires
        doubles(m, w, a.scale),
        same_attention(a, b),
        a.seq % 64 == 0,
        0 <= q < a.seq,
        0 <= col < HEAD_DIM,
        query_doubles(m, w, a, b, bh, q),
        forall|key: int|
            0 <= key < kv_end(a.causal, q / 64, a.seq) * BLOCK ==> #[trigger] pair_in_range(m, w, a, bh, q, key) && (w.half_ok)(
                a.k_half(m, bh)(key, col),
            ),
        sum_in_range(
            m,
            w,
            a.ds_tiles(m, bh, (q / 16) * 16),
            a.k_half(m, bh),
            col / 16,
            0,
            (kv_end(a.causal, q / 64, a.seq) * BLOCK_TILES) as nat,
            (q % 16) * 16 + col % 16,
        ),
    ensures
        b.dq_value(m, bh, q, col) == (w.full)(a.dq_value(m, bh, q, col)),
{
    let end = kv_end(a.causal, q / 64, a.seq);
    let n = (end * BLOCK_TILES) as nat;
    let i = (q % 16) * 16 + col % 16;
    let qr = (q / 16) * 16;
    let h = col / 16;
    assert(i / 16 == q % 16 && i % 16 == col % 16 && 0 <= i < 256);
    assert(0 <= end <= a.seq / 64 && n == end * 4);
    lemma_same_scores(m, a, b, bh, q, 0);
    let (x, x2, y) = (a.ds_tiles(m, bh, qr), b.ds_tiles(m, bh, qr), a.k_half(m, bh));
    assert forall|r: int, t: int| 0 <= r < 0 + n && 0 <= t < 16 implies #[trigger] term_doubles(
        w,
        x,
        y,
        x2,
        y,
        h,
        i,
        true,
        r,
        t,
    ) by {
        let key = r * 16 + t;
        assert(0 <= key < end * BLOCK);
        assert(pair_in_range(m, w, a, bh, q, key));
        lemma_ds_doubles(m, w, a, b, bh, q, key);
        lemma_tile_elements(m, a, bh, qr, r * 16, q, key);
        lemma_tile_elements(m, b, bh, qr, r * 16, q, key);
    }
    lemma_accumulate_doubles(m, w, a.scale, x, y, x2, y, h, 0, n, i, true);
}

/// The key and the value gradient double, bit for bit, with the output
/// gradients and the row sums, as long as nothing overflows or underflows.
pub proof fn dkdv_double<Q, D>(
    m: Model<Q, D>,
    w: Doubling,
    a: Problem<Q, D>,
    b: Problem<Q, D>,
    bh: int,
    key: int,
    col: int,
)
    requires
        doubles(m, w, a.scale),
        same_attention(a, b),
        a.seq % 64 == 0,
        0 <= key < a.seq,
        0 <= col < HEAD_DIM,
        forall|q: int|
            q_start(a.causal, key / 64) * BLOCK <= q < a.seq ==> #[trigger] query_doubles(
                m,
                w,
                a,
                b,
                bh,
                q,
            ),
        forall|q: int|
            q_start(a.causal, key / 64) * BLOCK <= q < a.seq ==> #[trigger] pair_in_range_t(m, w, a, bh, q, key) && (w.half_ok)(
                a.q_half(m, bh)(q, col),
            ),
        sum_in_range(
            m,
            w,
            a.dst_tiles(m, bh, (key / 16) * 16),
            a.q_half(m, bh),
            col / 16,
            a.first_q_tile(key),
            a.q_tiles(key),
            (key % 16) * 16 + col % 16,
        ),
        sum_in_range(
            m,
            w,
            a.pt_tiles(m, bh, (key / 16) * 16),
            a.do_half(m, bh),
            col / 16,
            a.first_q_tile(key),
            a.q_tiles(key),
            (key % 16) * 16 + col % 16,
        ),
    ensures
        b.dk_value(m, bh, key, col) == (w.full)(a.dk_value(m, bh, key, col)),
        b.dv_value(m, bh, key, col) == (w.full)(a.dv_value(m, bh, key, col)),
{
    let start = a.first_q_tile(key);
    let n = a.q_tiles(key);
    let i = (key % 16) * 16 + col % 16;
    let kr = (key / 16) * 16;
    let h = col / 16;
    let blocks = a.seq / 64;
    let first = q_start(a.causal, key / 64);
    assert(i / 16 == key % 16 && i % 16 == col % 16 && 0 <= i < 256);
    assert(a.seq == blocks * 64 && start == first * 4 && n == blocks * 4 - start && 0 <= first);
    lemma_same_scores(m, a, b, bh, 0, key);
    let (x, x2, y) = (a.dst_tiles(m, bh, kr), b.dst_tiles(m, bh, kr), a.q_half(m, bh));
    let (p, p2) = (a.pt_tiles(m, bh, kr), b.pt_tiles(m, bh, kr));
    let (z, z2) = (a.do_half(m, bh), b.do_half(m, bh));
    assert forall|r: int, t: int|
        start <= r < start + n && 0 <= t < 16 implies #[trigger] term_doubles(
        w,
        x,
        y,
        x2,
        y,
        h,
        i,
        true,
        r,
        t,
    ) by {
        let q = r * 16 + t;
        assert(first * BLOCK <= q < a.seq);
        assert(query_doubles(m, w, a, b, bh, q));
        assert(pair_in_range_t(m, w, a, bh, q, key));
        lemma_dst_doubles(m, w, a, b, bh, q, key);
        lemma_tile_elements(m, a, bh, r * 16, kr, q, key);
        lemma_tile_elements(m, b, bh, r * 16, kr, q, key);
    }
    assert forall|r: int, t: int|
        start <= r < start + n && 0 <= t < 16 implies #[trigger] term_doubles(
        w,
        p,
        z,
        p2,
        z2,
        h,
        i,
        false,
        r,
        t,
    ) by {
        let q = r * 16 + t;
        assert(first * BLOCK <= q < a.seq);
        assert(query_doubles(m, w, a, b, bh, q));
        assert(pair_in_range_t(m, w, a, bh, q, key));
        assert((w.half_ok)(a.do_half(m, bh)(q, col)));
        lemma_dst_doubles(m, w, a, b, bh, q, key);
        lemma_tile_elements(m, a, bh, r * 16, kr, q, key);
        lemma_tile_elements(m, b, bh, r * 16, kr, q, key);
    }
    lemma_accumulate_doubles(m, w, a.scale, x, y, x2, y, h, start, n, i, true);
    lemma_accumulate_doubles(m, w, a.scale, p, z, p2, z2, h, start, n, i, false);
}

} // verus!
