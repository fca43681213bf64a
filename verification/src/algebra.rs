//! The gradients as functions of the inputs, where the tile products do not
//! round: causality row by row, the order of keys and queries, linearity, and
//! the sums that the forward pass fixes.

use vstd::prelude::*;
use crate::attention::{lemma_tile_elements, Problem};
use crate::exact::{
    dk_is_product, dk_reads, dk_term, dq_is_product, dq_reads, dq_term, dv_is_product, dv_reads,
    dv_term, exact, masks, pair_reads, recomputed_tiles_are_products, row_product, Reading,
};
use crate::geometry::{element, sees, HEAD_DIM};
use crate::laws::{kernels_recompute_the_same_tiles, transposes};
use crate::locality::{
    a_pair_reads_its_rows, elementwise, same_key, same_keys, same_pair, same_queries, same_query,
    same_settings,
};
use crate::math::{Model, ZERO};
use crate::sums::{
    flip, lemma_combination_times, lemma_sum_agrees, lemma_sum_combines, lemma_sum_permutes,
    lemma_sum_scales, lemma_sum_swaps, permutes, row_sums, sum,
};

verus! {

/// A term of the query gradient depends on its query and its key alone.
proof fn lemma_dq_term_local<Q, D>(
    m: Model<Q, D>,
    e: Reading,
    a: Problem<Q, D>,
    ah: int,
    q: int,
    k: int,
    b: Problem<Q, D>,
    bh: int,
    q2: int,
    k2: int,
    col: int,
)
    requires
        elementwise(m),
        0 <= col < HEAD_DIM,
        same_pair(a, ah, q, k, b, bh, q2, k2),
    ensures
        dq_term(m, e, a, ah, q, col)(k) == dq_term(m, e, b, bh, q2, col)(k2),
{
    a_pair_reads_its_rows(m, a, ah, q, k, b, bh, q2, k2);
    assert(a.k[element(ah, a.seq, k, col)] == b.k[element(bh, a.seq, k2, col)]);
}

/// A term of the key or the value gradient depends on its query and its key
/// alone.
proof fn lemma_dkdv_term_local<Q, D>(
    m: Model<Q, D>,
    e: Reading,
    a: Problem<Q, D>,
    ah: int,
    q: int,
    k: int,
    b: Problem<Q, D>,
    bh: int,
    q2: int,
    k2: int,
    col: int,
)
    requires
        elementwise(m),
        0 <= col < HEAD_DIM,
        same_pair(a, ah, q, k, b, bh, q2, k2),
    ensures
        dk_term(m, e, a, ah, k, col)(q) == dk_term(m, e, b, bh, k2, col)(q2),
        dv_term(m, e, a, ah, k, col)(q) == dv_term(m, e, b, bh, k2, col)(q2),
{
    a_pair_reads_its_rows(m, a, ah, q, k, b, bh, q2, k2);
    assert(a.q[element(ah, a.seq, q, col)] == b.q[element(bh, a.seq, q2, col)]);
    assert(a.do_[element(ah, a.seq, q, col)] == b.do_[element(bh, a.seq, q2, col)]);
}

/// Under the causal mask, the gradient of a query does not depend on the keys
/// and values after it.
pub proof fn dq_ignores_later_keys<Q, D>(
    m: Model<Q, D>,
    e: Reading,
    a: Problem<Q, D>,
    b: Problem<Q, D>,
    bh: int,
    q: int,
    col: int,
)
    requires
        exact(m, e),
        masks(m, e),
        elementwise(m),
        a.causal,
        a.seq % 64 == 0,
        0 <= q < a.seq,
        0 <= col < HEAD_DIM,
        same_settings(a, b),
        same_query(a, bh, q, b, bh, q),
        same_keys(a, bh, b, bh, 0, q + 1),
        dq_reads(m, e, a, bh, q, col),
        dq_reads(m, e, b, bh, q, col),
    ensures
        (e.full_ok)(a.dq_value(m, bh, q, col)),
        (e.full_ok)(b.dq_value(m, bh, q, col)),
        (e.full)(a.dq_value(m, bh, q, col)) == (e.full)(b.dq_value(m, bh, q, col)),
{
    dq_is_product(m, e, a, bh, q, col);
    dq_is_product(m, e, b, bh, q, col);
    let (f, g) = (dq_term(m, e, a, bh, q, col), dq_term(m, e, b, bh, q, col));
    assert forall|key: int| 0 <= key < a.seq implies #[trigger] f(0 + key) == g(0 + key) by {
        if key <= q {
            assert(same_key(a, bh, key, b, bh, key));
            lemma_dq_term_local(m, e, a, bh, q, key, b, bh, q, key, col);
        }
    }
    lemma_sum_agrees(f, 0, g, 0, a.seq as nat);
}

/// Under the causal mask, the gradients of a key and its value do not depend
/// on the queries before it.
pub proof fn dkdv_ignore_earlier_queries<Q, D>(
    m: Model<Q, D>,
    e: Reading,
    a: Problem<Q, D>,
    b: Problem<Q, D>,
    bh: int,
    key: int,
    col: int,
)
    requires
        exact(m, e),
        masks(m, e),
        elementwise(m),
        a.causal,
        a.seq % 64 == 0,
        0 <= key < a.seq,
        0 <= col < HEAD_DIM,
        same_settings(a, b),
        same_key(a, bh, key, b, bh, key),
        same_queries(a, bh, b, bh, key, a.seq),
        dk_reads(m, e, a, bh, key, col),
        dk_reads(m, e, b, bh, key, col),
        dv_reads(m, e, a, bh, key, col),
        dv_reads(m, e, b, bh, key, col),
    ensures
        (e.full_ok)(a.dk_value(m, bh, key, col)),
        (e.full_ok)(b.dk_value(m, bh, key, col)),
        (e.full)(a.dk_value(m, bh, key, col)) == (e.full)(b.dk_value(m, bh, key, col)),
        (e.full_ok)(a.dv_value(m, bh, key, col)),
        (e.full_ok)(b.dv_value(m, bh, key, col)),
        (e.full)(a.dv_value(m, bh, key, col)) == (e.full)(b.dv_value(m, bh, key, col)),
{
    dk_is_product(m, e, a, bh, key, col);
    dk_is_product(m, e, b, bh, key, col);
    dv_is_product(m, e, a, bh, key, col);
    dv_is_product(m, e, b, bh, key, col);
    let (f, g) = (dk_term(m, e, a, bh, key, col), dk_term(m, e, b, bh, key, col));
    let (u, v) = (dv_term(m, e, a, bh, key, col), dv_term(m, e, b, bh, key, col));
    assert forall|q: int| 0 <= q < a.seq implies #[trigger] f(0 + q) == g(0 + q) by {
        if key <= q {
            assert(same_query(a, bh, q, b, bh, q));
            lemma_dkdv_term_local(m, e, a, bh, q, key, b, bh, q, key, col);
        }
    }
    assert forall|q: int| 0 <= q < a.seq implies #[trigger] u(0 + q) == v(0 + q) by {
        if key <= q {
            assert(same_query(a, bh, q, b, bh, q));
            lemma_dkdv_term_local(m, e, a, bh, q, key, b, bh, q, key, col);
        }
    }
    lemma_sum_agrees(f, 0, g, 0, a.seq as nat);
    lemma_sum_agrees(u, 0, v, 0, a.seq as nat);
}

/// Without the mask, the gradient of a query does not depend on the order of
/// the keys and their values.
pub proof fn dq_ignores_the_order_of_keys<Q, D>(
    m: Model<Q, D>,
    e: Reading,
    a: Problem<Q, D>,
    b: Problem<Q, D>,
    bh: int,
    to: spec_fn(int) -> int,
    from: spec_fn(int) -> int,
    q: int,
    col: int,
)
    requires
        exact(m, e),
        masks(m, e),
        elementwise(m),
        !a.causal,
        a.seq % 64 == 0,
        0 <= q < a.seq,
        0 <= col < HEAD_DIM,
        same_settings(a, b),
        same_query(a, bh, q, b, bh, q),
        permutes(to, from, a.seq),
        forall|key: int| 0 <= key < a.seq ==> #[trigger] same_key(a, bh, to(key), b, bh, key),
        dq_reads(m, e, a, bh, q, col),
        dq_reads(m, e, b, bh, q, col),
    ensures
        (e.full_ok)(a.dq_value(m, bh, q, col)),
        (e.full_ok)(b.dq_value(m, bh, q, col)),
        (e.full)(a.dq_value(m, bh, q, col)) == (e.full)(b.dq_value(m, bh, q, col)),
{
    dq_is_product(m, e, a, bh, q, col);
    dq_is_product(m, e, b, bh, q, col);
    let (f, g) = (dq_term(m, e, a, bh, q, col), dq_term(m, e, b, bh, q, col));
    assert forall|key: int| 0 <= key < a.seq implies #[trigger] g(key) == f(to(key)) by {
        assert(same_key(a, bh, to(key), b, bh, key));
        lemma_dq_term_local(m, e, a, bh, q, to(key), b, bh, q, key, col);
    }
    lemma_sum_permutes(f, g, to, from, a.seq as nat);
}

/// Without the mask, the gradients of a key and its value do not depend on the
/// order of the queries, their output gradients and their row statistics.
pub proof fn dkdv_ignore_the_order_of_queries<Q, D>(
    m: Model<Q, D>,
    e: Reading,
    a: Problem<Q, D>,
    b: Problem<Q, D>,
    bh: int,
    to: spec_fn(int) -> int,
    from: spec_fn(int) -> int,
    key: int,
    col: int,
)
    requires
        exact(m, e),
        masks(m, e),
        elementwise(m),
        !a.causal,
        a.seq % 64 == 0,
        0 <= key < a.seq,
        0 <= col < HEAD_DIM,
        same_settings(a, b),
        same_key(a, bh, key, b, bh, key),
        permutes(to, from, a.seq),
        forall|q: int| 0 <= q < a.seq ==> #[trigger] same_query(a, bh, to(q), b, bh, q),
        dk_reads(m, e, a, bh, key, col),
        dk_reads(m, e, b, bh, key, col),
        dv_reads(m, e, a, bh, key, col),
        dv_reads(m, e, b, bh, key, col),
    ensures
        (e.full_ok)(a.dk_value(m, bh, key, col)),
        (e.full_ok)(b.dk_value(m, bh, key, col)),
        (e.full)(a.dk_value(m, bh, key, col)) == (e.full)(b.dk_value(m, bh, key, col)),
        (e.full_ok)(a.dv_value(m, bh, key, col)),
        (e.full_ok)(b.dv_value(m, bh, key, col)),
        (e.full)(a.dv_value(m, bh, key, col)) == (e.full)(b.dv_value(m, bh, key, col)),
{
    dk_is_product(m, e, a, bh, key, col);
    dk_is_product(m, e, b, bh, key, col);
    dv_is_product(m, e, a, bh, key, col);
    dv_is_product(m, e, b, bh, key, col);
    let (f, g) = (dk_term(m, e, a, bh, key, col), dk_term(m, e, b, bh, key, col));
    let (u, v) = (dv_term(m, e, a, bh, key, col), dv_term(m, e, b, bh, key, col));
    assert forall|q: int| 0 <= q < a.seq implies #[trigger] g(q) == f(to(q)) by {
        assert(same_query(a, bh, to(q), b, bh, q));
        lemma_dkdv_term_local(m, e, a, bh, to(q), key, b, bh, q, key, col);
    }
    assert forall|q: int| 0 <= q < a.seq implies #[trigger] v(q) == u(to(q)) by {
        assert(same_query(a, bh, to(q), b, bh, q));
        lemma_dkdv_term_local(m, e, a, bh, to(q), key, b, bh, q, key, col);
    }
    lemma_sum_permutes(f, g, to, from, a.seq as nat);
    lemma_sum_permutes(u, v, to, from, a.seq as nat);
}

/// Both gradient kernels multiply the same score gradient.
proof fn lemma_one_score_gradient<Q, D>(m: Model<Q, D>, p: Problem<Q, D>, bh: int, q: int, k: int)
    requires
        transposes(m),
    ensures
        p.ds_at(m, bh, q, k) == p.dst_at(m, bh, q, k),
{
    let (qr, kr) = ((q / 16) * 16, (k / 16) * 16);
    let (i, j) = ((q % 16) * 16 + k % 16, (k % 16) * 16 + q % 16);
    kernels_recompute_the_same_tiles(m, p, bh, qr, kr);
    lemma_tile_elements(m, p, bh, qr, kr, q, k);
    assert(j / 16 == k % 16 && j % 16 == q % 16);
    assert(q - qr == q % 16 && k - kr == k % 16);
}

/// The query gradient of query `q`, times the query.
pub open spec fn query_moment<Q, D>(
    m: Model<Q, D>,
    e: Reading,
    p: Problem<Q, D>,
    bh: int,
) -> spec_fn(int, int) -> int {
    |q: int, col: int| (e.half)(p.q_half(m, bh)(q, col)) * (e.full)(p.dq_value(m, bh, q, col))
}

/// The key gradient of key `key`, times the key.
pub open spec fn key_moment<Q, D>(
    m: Model<Q, D>,
    e: Reading,
    p: Problem<Q, D>,
    bh: int,
) -> spec_fn(int, int) -> int {
    |key: int, col: int| (e.half)(p.k_half(m, bh)(key, col)) * (e.full)(p.dk_value(m, bh, key, col))
}

/// A query times its gradient and a key times its gradient have the same sum
/// over a head: both are the sum of the scores times their gradients.
pub proof fn query_and_key_moments_agree<Q, D>(m: Model<Q, D>, e: Reading, p: Problem<Q, D>, bh: int)
    requires
        exact(m, e),
        masks(m, e),
        transposes(m),
        0 <= p.seq,
        p.seq % 64 == 0,
        forall|q: int, col: int|
            0 <= q < p.seq && 0 <= col < HEAD_DIM ==> #[trigger] dq_reads(m, e, p, bh, q, col),
        forall|key: int, col: int|
            0 <= key < p.seq && 0 <= col < HEAD_DIM ==> #[trigger] dk_reads(m, e, p, bh, key, col),
    ensures
        sum(row_sums(query_moment(m, e, p, bh), HEAD_DIM as nat), 0, p.seq as nat) == sum(
            row_sums(key_moment(m, e, p, bh), HEAD_DIM as nat),
            0,
            p.seq as nat,
        ),
{
    let seq = p.seq as nat;
    let dim = HEAD_DIM as nat;
    let qm = query_moment(m, e, p, bh);
    let km = key_moment(m, e, p, bh);
    let qh = p.q_half(m, bh);
    let kh = p.k_half(m, bh);
    // The score gradient of a pair, times the product of its query and key.
    let pair = |q: int, key: int|
        sum(
            |c: int| (e.half)(qh(q, c)) * (e.half)(p.ds_at(m, bh, q, key)) * (e.half)(kh(key, c)),
            0,
            dim,
        );
    assert forall|q: int| 0 <= q < seq implies #[trigger] row_sums(qm, dim)(0 + q) == row_sums(
        pair,
        seq,
    )(0 + q) by {
        let f = |c: int, key: int|
            (e.half)(qh(q, c)) * (e.half)(p.ds_at(m, bh, q, key)) * (e.half)(kh(key, c));
        let row = |c: int| qm(q, c);
        assert forall|c: int| 0 <= c < dim implies #[trigger] row(0 + c) == row_sums(f, seq)(
            0 + c,
        ) by {
            assert(dq_reads(m, e, p, bh, q, c));
            dq_is_product(m, e, p, bh, q, c);
            let x = (e.half)(qh(q, c));
            let line = |key: int| f(c, key);
            let term = dq_term(m, e, p, bh, q, c);
            assert forall|key: int| 0 <= key < 0 + seq implies #[trigger] line(key) == x * term(
                key,
            ) by {
                let (y, z) = ((e.half)(p.ds_at(m, bh, q, key)), (e.half)(kh(key, c)));
                assert(x * y * z == x * (y * z)) by (nonlinear_arith);
            }
            lemma_sum_scales(term, x, line, 0, seq);
        }
        lemma_sum_agrees(row, 0, row_sums(f, seq), 0, dim);
        lemma_sum_swaps(f, dim, seq);
        let across = |key: int| pair(q, key);
        assert forall|key: int| 0 <= key < seq implies #[trigger] across(0 + key) == row_sums(
            flip(f),
            dim,
        )(0 + key) by {
            let u = |c: int| flip(f)(key, c);
            let w = |c: int|
                (e.half)(qh(q, c)) * (e.half)(p.ds_at(m, bh, q, key)) * (e.half)(kh(key, c));
            lemma_sum_agrees(u, 0, w, 0, dim);
        }
        lemma_sum_agrees(across, 0, row_sums(flip(f), dim), 0, seq);
    }
    lemma_sum_agrees(row_sums(qm, dim), 0, row_sums(pair, seq), 0, seq);
    lemma_sum_swaps(pair, seq, seq);
    assert forall|key: int| 0 <= key < seq implies #[trigger] row_sums(km, dim)(0 + key)
        == row_sums(flip(pair), seq)(0 + key) by {
        let f = |c: int, q: int|
            (e.half)(qh(q, c)) * (e.half)(p.ds_at(m, bh, q, key)) * (e.half)(kh(key, c));
        let row = |c: int| km(key, c);
        assert forall|c: int| 0 <= c < dim implies #[trigger] row(0 + c) == row_sums(f, seq)(
            0 + c,
        ) by {
            assert(dk_reads(m, e, p, bh, key, c));
            dk_is_product(m, e, p, bh, key, c);
            let x = (e.half)(kh(key, c));
            let line = |q: int| f(c, q);
            let term = dk_term(m, e, p, bh, key, c);
            assert forall|q: int| 0 <= q < 0 + seq implies #[trigger] line(q) == x * term(q) by {
                lemma_one_score_gradient(m, p, bh, q, key);
                let (y, z) = ((e.half)(p.ds_at(m, bh, q, key)), (e.half)(qh(q, c)));
                assert(z * y * x == x * (y * z)) by (nonlinear_arith);
            }
            lemma_sum_scales(term, x, line, 0, seq);
        }
        lemma_sum_agrees(row, 0, row_sums(f, seq), 0, dim);
        lemma_sum_swaps(f, dim, seq);
        let across = |q: int| flip(pair)(key, q);
        assert forall|q: int| 0 <= q < seq implies #[trigger] across(0 + q) == row_sums(
            flip(f),
            dim,
        )(0 + q) by {
            let u = |c: int| flip(f)(q, c);
            let w = |c: int|
                (e.half)(qh(q, c)) * (e.half)(p.ds_at(m, bh, q, key)) * (e.half)(kh(key, c));
            lemma_sum_agrees(u, 0, w, 0, dim);
        }
        lemma_sum_agrees(across, 0, row_sums(flip(f), dim), 0, seq);
    }
    lemma_sum_agrees(row_sums(km, dim), 0, row_sums(flip(pair), seq), 0, seq);
}

/// The value gradients of a head at column `col`, by key.
pub open spec fn dv_column<Q, D>(
    m: Model<Q, D>,
    e: Reading,
    p: Problem<Q, D>,
    bh: int,
    col: int,
) -> spec_fn(int) -> int {
    |key: int| (e.full)(p.dv_value(m, bh, key, col))
}

/// The key gradients of a head at column `col`, by key.
pub open spec fn dk_column<Q, D>(
    m: Model<Q, D>,
    e: Reading,
    p: Problem<Q, D>,
    bh: int,
    col: int,
) -> spec_fn(int) -> int {
    |key: int| (e.full)(p.dk_value(m, bh, key, col))
}

/// The output gradients of a head at column `col`, by query.
pub open spec fn do_column<Q, D>(
    m: Model<Q, D>,
    e: Reading,
    p: Problem<Q, D>,
    bh: int,
    col: int,
) -> spec_fn(int) -> int {
    |q: int| (e.half)(p.do_half(m, bh)(q, col))
}

/// The softmax weights of query `q`, by key, as the value gradient multiplies
/// them.
pub open spec fn pt_row<Q, D>(
    m: Model<Q, D>,
    e: Reading,
    p: Problem<Q, D>,
    bh: int,
    q: int,
) -> spec_fn(int) -> int {
    |key: int| (e.half)(p.pt_at(m, bh, q, key))
}

/// The score gradients of query `q`, by key, as the key gradient multiplies
/// them.
pub open spec fn dst_row<Q, D>(
    m: Model<Q, D>,
    e: Reading,
    p: Problem<Q, D>,
    bh: int,
    q: int,
) -> spec_fn(int) -> int {
    |key: int| (e.half)(p.dst_at(m, bh, q, key))
}

/// Where the softmax weights of every query sum to `one`, as they do with the
/// `lse` of the forward pass, the value gradients sum to the output gradients.
pub proof fn dv_sums_to_the_output_gradient<Q, D>(
    m: Model<Q, D>,
    e: Reading,
    p: Problem<Q, D>,
    bh: int,
    col: int,
    one: int,
)
    requires
        exact(m, e),
        masks(m, e),
        0 <= p.seq,
        p.seq % 64 == 0,
        0 <= col < HEAD_DIM,
        forall|key: int| 0 <= key < p.seq ==> #[trigger] dv_reads(m, e, p, bh, key, col),
        forall|q: int|
            0 <= q < p.seq ==> sum(#[trigger] pt_row(m, e, p, bh, q), 0, p.seq as nat) == one,
    ensures
        sum(dv_column(m, e, p, bh, col), 0, p.seq as nat) == one * sum(
            do_column(m, e, p, bh, col),
            0,
            p.seq as nat,
        ),
{
    let n = p.seq as nat;
    let f = |key: int, q: int|
        (e.half)(p.pt_at(m, bh, q, key)) * (e.half)(p.do_half(m, bh)(q, col));
    let column = dv_column(m, e, p, bh, col);
    assert forall|key: int| 0 <= key < n implies #[trigger] column(0 + key) == row_sums(f, n)(
        0 + key,
    ) by {
        assert(dv_reads(m, e, p, bh, key, col));
        dv_is_product(m, e, p, bh, key, col);
        let line = |q: int| f(key, q);
        lemma_sum_agrees(dv_term(m, e, p, bh, key, col), 0, line, 0, n);
    }
    lemma_sum_agrees(column, 0, row_sums(f, n), 0, n);
    lemma_sum_swaps(f, n, n);
    let dos = do_column(m, e, p, bh, col);
    assert forall|q: int| 0 <= q < 0 + n implies #[trigger] row_sums(flip(f), n)(q) == one * dos(
        q,
    ) by {
        let weights = pt_row(m, e, p, bh, q);
        let line = |key: int| flip(f)(q, key);
        let x = dos(q);
        assert forall|key: int| 0 <= key < 0 + n implies #[trigger] line(key) == x * weights(
            key,
        ) by {
            let w = weights(key);
            assert(w * x == x * w) by (nonlinear_arith);
        }
        lemma_sum_scales(weights, x, line, 0, n);
        assert(x * one == one * x) by (nonlinear_arith);
    }
    lemma_sum_scales(dos, one, row_sums(flip(f), n), 0, n);
}

/// Where the score gradients of every query sum to zero, so do the key
/// gradients.
proof fn lemma_dk_sums_to_zero<Q, D>(m: Model<Q, D>, e: Reading, p: Problem<Q, D>, bh: int, col: int)
    requires
        exact(m, e),
        masks(m, e),
        0 <= p.seq,
        p.seq % 64 == 0,
        0 <= col < HEAD_DIM,
        forall|key: int| 0 <= key < p.seq ==> #[trigger] dk_reads(m, e, p, bh, key, col),
        forall|q: int|
            0 <= q < p.seq ==> sum(#[trigger] dst_row(m, e, p, bh, q), 0, p.seq as nat) == 0,
    ensures
        sum(dk_column(m, e, p, bh, col), 0, p.seq as nat) == 0,
{
    let n = p.seq as nat;
    let f = |key: int, q: int|
        (e.half)(p.dst_at(m, bh, q, key)) * (e.half)(p.q_half(m, bh)(q, col));
    let column = dk_column(m, e, p, bh, col);
    assert forall|key: int| 0 <= key < n implies #[trigger] column(0 + key) == row_sums(f, n)(
        0 + key,
    ) by {
        assert(dk_reads(m, e, p, bh, key, col));
        dk_is_product(m, e, p, bh, key, col);
        let line = |q: int| f(key, q);
        lemma_sum_agrees(dk_term(m, e, p, bh, key, col), 0, line, 0, n);
    }
    lemma_sum_agrees(column, 0, row_sums(f, n), 0, n);
    lemma_sum_swaps(f, n, n);
    let qs = |q: int| (e.half)(p.q_half(m, bh)(q, col));
    assert forall|q: int| 0 <= q < 0 + n implies #[trigger] row_sums(flip(f), n)(q) == 0 * qs(
        q,
    ) by {
        let row = dst_row(m, e, p, bh, q);
        let line = |key: int| flip(f)(q, key);
        let x = qs(q);
        assert forall|key: int| 0 <= key < 0 + n implies #[trigger] line(key) == x * row(key) by {
            let w = row(key);
            assert(w * x == x * w) by (nonlinear_arith);
        }
        lemma_sum_scales(row, x, line, 0, n);
        assert(x * 0 == 0 * x) by (nonlinear_arith);
    }
    lemma_sum_scales(qs, 0, row_sums(flip(f), n), 0, n);
    assert(0 * sum(qs, 0, n) == 0) by (nonlinear_arith);
}

/// The integers that softmax weights and scales stand for, and where a score
/// gradient is exact.
pub ghost struct Factors {
    /// Whether an fp32 number stands for a weight.
    pub weight_ok: spec_fn(u32) -> bool,
    /// The weight that an fp32 number stands for.
    pub weight: spec_fn(u32) -> int,
    /// The scale that an fp32 number stands for.
    pub scale: spec_fn(u32) -> int,
    /// What one step of a bf16 score gradient is worth in a product of a
    /// weight, a weight gradient and a scale.
    pub unit: int,
    /// Whether such a product can be rounded to bf16 without loss.
    pub fits: spec_fn(int) -> bool,
}

/// The product `p · (dp - d) · scale` under a reading.
pub open spec fn grad_product(e: Reading, f: Factors, p: u32, dp: u32, d: u32, scale: u32) -> int {
    (f.weight)(p) * ((e.full)(dp) - (e.full)(d)) * (f.scale)(scale)
}

/// Score gradients that fit are exact.
pub open spec fn grads_exact<Q, D>(m: Model<Q, D>, e: Reading, f: Factors) -> bool {
    &&& f.unit != 0
    &&& (f.weight)(ZERO) == 0
    &&& forall|p: u32, dp: u32, d: u32, scale: u32|
        (f.weight_ok)(p) && (e.full_ok)(dp) && (e.full_ok)(d) && (f.fits)(
            grad_product(e, f, p, dp, d, scale),
        ) ==> f.unit * (e.half)((m.narrow)(#[trigger] m.grad(p, dp, d, scale))) == grad_product(
            e,
            f,
            p,
            dp,
            d,
            scale,
        )
}

/// The score gradient that `ds` bits are narrowed from is exact.
pub open spec fn grad_fits(e: Reading, f: Factors, p: u32, dp: u32, d: u32, scale: u32) -> bool {
    &&& (f.weight_ok)(p)
    &&& (e.full_ok)(dp)
    &&& (e.full_ok)(d)
    &&& (f.fits)(grad_product(e, f, p, dp, d, scale))
}

/// The softmax weight of query `q` for key `k` in fp32, as the key- and
/// value-gradient kernel recomputes it.
pub open spec fn p_at<Q, D>(m: Model<Q, D>, p: Problem<Q, D>, bh: int, q: int, k: int) -> u32 {
    p.p_value(m, bh, q, k, p.st_at(m, bh, q, k))
}

/// The weights of query `q`, by key.
pub open spec fn weight_row<Q, D>(
    m: Model<Q, D>,
    f: Factors,
    p: Problem<Q, D>,
    bh: int,
    q: int,
) -> spec_fn(int) -> int {
    |key: int| (f.weight)(p_at(m, p, bh, q, key))
}

/// The weights of query `q` times their gradients, by key.
pub open spec fn weighted_dp_row<Q, D>(
    m: Model<Q, D>,
    e: Reading,
    f: Factors,
    p: Problem<Q, D>,
    bh: int,
    q: int,
) -> spec_fn(int) -> int {
    |key: int| (f.weight)(p_at(m, p, bh, q, key)) * (e.full)(p.dpt_at(m, bh, q, key))
}

/// The row statistics of query `q` are those of the forward pass: its weights
/// sum to `one`, and its row sum is the sum of its weights times their
/// gradients.
pub open spec fn forward_statistics<Q, D>(
    m: Model<Q, D>,
    e: Reading,
    f: Factors,
    p: Problem<Q, D>,
    bh: int,
    q: int,
    one: int,
) -> bool {
    &&& sum(weight_row(m, f, p, bh, q), 0, p.seq as nat) == one
    &&& sum(weighted_dp_row(m, e, f, p, bh, q), 0, p.seq as nat) == one * (e.full)(
        p.d[bh * p.seq + q],
    )
}

/// The score gradient of query `q` for key `k` is exact in the query-gradient
/// kernel.
pub open spec fn ds_fits<Q, D>(
    m: Model<Q, D>,
    e: Reading,
    f: Factors,
    p: Problem<Q, D>,
    bh: int,
    q: int,
    k: int,
) -> bool {
    grad_fits(
        e,
        f,
        p.p_value(m, bh, q, k, p.s_at(m, bh, q, k)),
        p.dp_at(m, bh, q, k),
        p.d[bh * p.seq + q],
        p.scale,
    )
}

/// The score gradient of query `q` for key `k` is exact in the key- and
/// value-gradient kernel.
pub open spec fn dst_fits<Q, D>(
    m: Model<Q, D>,
    e: Reading,
    f: Factors,
    p: Problem<Q, D>,
    bh: int,
    q: int,
    k: int,
) -> bool {
    grad_fits(
        e,
        f,
        p_at(m, p, bh, q, k),
        p.dpt_at(m, bh, q, k),
        p.d[bh * p.seq + q],
        p.scale,
    )
}

/// With the row statistics of the forward pass, the score gradients of a query
/// sum to zero.
pub proof fn score_gradients_sum_to_zero<Q, D>(
    m: Model<Q, D>,
    e: Reading,
    f: Factors,
    p: Problem<Q, D>,
    bh: int,
    q: int,
    one: int,
)
    requires
        grads_exact(m, e, f),
        0 <= p.seq,
        forward_statistics(m, e, f, p, bh, q, one),
        forall|key: int|
            0 <= key < p.seq ==> #[trigger] dst_fits(m, e, f, p, bh, q, key),
    ensures
        sum(dst_row(m, e, p, bh, q), 0, p.seq as nat) == 0,
{
    let n = p.seq as nat;
    let d = (e.full)(p.d[bh * p.seq + q]);
    let sc = (f.scale)(p.scale);
    let weights = weight_row(m, f, p, bh, q);
    let weighted = weighted_dp_row(m, e, f, p, bh, q);
    let row = dst_row(m, e, p, bh, q);
    let product = |key: int| f.unit * row(key);
    assert forall|key: int| 0 <= key < 0 + n implies #[trigger] product(key) == sc * weighted(key)
        + (-(d * sc)) * weights(key) by {
        assert(dst_fits(m, e, f, p, bh, q, key));
        let w = (f.weight)(p_at(m, p, bh, q, key));
        let dp = (e.full)(p.dpt_at(m, bh, q, key));
        assert(product(key) == grad_product(
            e,
            f,
            p_at(m, p, bh, q, key),
            p.dpt_at(m, bh, q, key),
            p.d[bh * p.seq + q],
            p.scale,
        ));
        assert(w * (dp - d) * sc == sc * (w * dp) + (-(d * sc)) * w) by (nonlinear_arith);
    }
    lemma_sum_combines(weighted, sc, weights, -(d * sc), product, 0, n);
    lemma_sum_scales(row, f.unit, product, 0, n);
    assert(sc * (one * d) + (-(d * sc)) * one == 0) by (nonlinear_arith);
    let total = sum(row, 0, n);
    assert(total == 0) by (nonlinear_arith)
        requires
            f.unit * total == 0,
            f.unit != 0,
    ;
}

/// With the row statistics of the forward pass, the key gradients of a head
/// sum to zero: a vector that is added to all keys leaves the softmax as it is.
pub proof fn dk_sums_to_zero<Q, D>(
    m: Model<Q, D>,
    e: Reading,
    f: Factors,
    p: Problem<Q, D>,
    bh: int,
    col: int,
    one: int,
)
    requires
        exact(m, e),
        masks(m, e),
        grads_exact(m, e, f),
        0 <= p.seq,
        p.seq % 64 == 0,
        0 <= col < HEAD_DIM,
        forall|key: int| 0 <= key < p.seq ==> #[trigger] dk_reads(m, e, p, bh, key, col),
        forall|q: int| 0 <= q < p.seq ==> #[trigger] forward_statistics(m, e, f, p, bh, q, one),
        forall|q: int, key: int|
            0 <= q < p.seq && 0 <= key < p.seq ==> #[trigger] dst_fits(
                m,
                e,
                f,
                p,
                bh,
                q,
                key,
            ),
    ensures
        sum(dk_column(m, e, p, bh, col), 0, p.seq as nat) == 0,
{
    assert forall|q: int| 0 <= q < p.seq implies sum(
        #[trigger] dst_row(m, e, p, bh, q),
        0,
        p.seq as nat,
    ) == 0 by {
        assert(forward_statistics(m, e, f, p, bh, q, one));
        score_gradients_sum_to_zero(m, e, f, p, bh, q, one);
    }
    lemma_dk_sums_to_zero(m, e, p, bh, col);
}

/// `c` is the combination `x · a + y · b` of numbers.
pub open spec fn combines(a: int, x: int, b: int, y: int, c: int) -> bool {
    c == x * a + y * b
}

/// Two problems that differ in the output gradients and the row sums alone.
pub open spec fn same_attention<Q, D>(a: Problem<Q, D>, b: Problem<Q, D>) -> bool {
    same_settings(a, b) && a.q == b.q && a.k == b.k && a.v == b.v && a.lse == b.lse
}

/// Row `q` of the output gradients and row sums of `c` is the combination
/// `x · a + y · b` of those of `a` and `b`.
pub open spec fn query_combines<Q, D>(
    m: Model<Q, D>,
    e: Reading,
    a: Problem<Q, D>,
    x: int,
    b: Problem<Q, D>,
    y: int,
    c: Problem<Q, D>,
    bh: int,
    q: int,
) -> bool {
    &&& forall|col: int|
        0 <= col < HEAD_DIM ==> (e.half)(#[trigger] c.do_half(m, bh)(q, col)) == x * (e.half)(
            a.do_half(m, bh)(q, col),
        ) + y * (e.half)(b.do_half(m, bh)(q, col))
    &&& combines(
        (e.full)(a.d[bh * a.seq + q]),
        x,
        (e.full)(b.d[bh * a.seq + q]),
        y,
        (e.full)(c.d[bh * a.seq + q]),
    )
}

/// Problems with the same queries, keys and values recompute the same scores.
pub proof fn lemma_same_scores<Q, D>(
    m: Model<Q, D>,
    a: Problem<Q, D>,
    b: Problem<Q, D>,
    bh: int,
    q: int,
    k: int,
)
    requires
        same_attention(a, b),
    ensures
        a.q_half(m, bh) == b.q_half(m, bh),
        a.k_half(m, bh) == b.k_half(m, bh),
        a.v_half(m, bh) == b.v_half(m, bh),
        a.s_at(m, bh, q, k) == b.s_at(m, bh, q, k),
        a.st_at(m, bh, q, k) == b.st_at(m, bh, q, k),
        a.pt_at(m, bh, q, k) == b.pt_at(m, bh, q, k),
        p_at(m, a, bh, q, k) == p_at(m, b, bh, q, k),
{
    assert(a.q_half(m, bh) =~= b.q_half(m, bh));
    assert(a.k_half(m, bh) =~= b.k_half(m, bh));
    assert(a.v_half(m, bh) =~= b.v_half(m, bh));
}

/// The weight gradients of a combination are the combination of the weight
/// gradients, in both kernels.
proof fn lemma_dp_combines<Q, D>(
    m: Model<Q, D>,
    e: Reading,
    a: Problem<Q, D>,
    x: int,
    b: Problem<Q, D>,
    y: int,
    c: Problem<Q, D>,
    bh: int,
    q: int,
    k: int,
)
    requires
        exact(m, e),
        same_attention(a, b),
        same_attention(a, c),
        query_combines(m, e, a, x, b, y, c, bh, q),
        pair_reads(m, e, a, bh, q, k),
        pair_reads(m, e, b, bh, q, k),
        pair_reads(m, e, c, bh, q, k),
    ensures
        combines(
            (e.full)(a.dp_at(m, bh, q, k)),
            x,
            (e.full)(b.dp_at(m, bh, q, k)),
            y,
            (e.full)(c.dp_at(m, bh, q, k)),
        ),
        combines(
            (e.full)(a.dpt_at(m, bh, q, k)),
            x,
            (e.full)(b.dpt_at(m, bh, q, k)),
            y,
            (e.full)(c.dpt_at(m, bh, q, k)),
        ),
{
    recomputed_tiles_are_products(m, e, a, bh, q, k);
    recomputed_tiles_are_products(m, e, b, bh, q, k);
    recomputed_tiles_are_products(m, e, c, bh, q, k);
    lemma_same_scores(m, a, b, bh, q, k);
    lemma_same_scores(m, a, c, bh, q, k);
    let v = a.v_half(m, bh);
    let f = row_product(e, a.do_half(m, bh), q, v, k);
    let g = row_product(e, b.do_half(m, bh), q, v, k);
    let h = row_product(e, c.do_half(m, bh), q, v, k);
    assert forall|col: int| 0 <= col < 0 + HEAD_DIM implies #[trigger] h(col) == x * f(col) + y * g(
        col,
    ) by {
        let (s, t) = (
            (e.half)(a.do_half(m, bh)(q, col)),
            (e.half)(b.do_half(m, bh)(q, col)),
        );
        let w = (e.half)(v(k, col));
        assert((e.half)(c.do_half(m, bh)(q, col)) == x * s + y * t);
        lemma_combination_times(x, s, y, t, w);
    }
    lemma_sum_combines(f, x, g, y, h, 0, HEAD_DIM as nat);
}

/// Exact score gradients of the same weight combine.
proof fn lemma_grad_combines<Q, D>(
    m: Model<Q, D>,
    e: Reading,
    f: Factors,
    p: u32,
    scale: u32,
    a: (u32, u32),
    x: int,
    b: (u32, u32),
    y: int,
    c: (u32, u32),
)
    requires
        grads_exact(m, e, f),
        grad_fits(e, f, p, a.0, a.1, scale),
        grad_fits(e, f, p, b.0, b.1, scale),
        grad_fits(e, f, p, c.0, c.1, scale),
        combines((e.full)(a.0), x, (e.full)(b.0), y, (e.full)(c.0)),
        combines((e.full)(a.1), x, (e.full)(b.1), y, (e.full)(c.1)),
    ensures
        combines(
            (e.half)((m.narrow)(m.grad(p, a.0, a.1, scale))),
            x,
            (e.half)((m.narrow)(m.grad(p, b.0, b.1, scale))),
            y,
            (e.half)((m.narrow)(m.grad(p, c.0, c.1, scale))),
        ),
{
    let (w, sc, unit) = ((f.weight)(p), (f.scale)(scale), f.unit);
    let ga = (e.half)((m.narrow)(m.grad(p, a.0, a.1, scale)));
    let gb = (e.half)((m.narrow)(m.grad(p, b.0, b.1, scale)));
    let gc = (e.half)((m.narrow)(m.grad(p, c.0, c.1, scale)));
    let da = (e.full)(a.0) - (e.full)(a.1);
    let db = (e.full)(b.0) - (e.full)(b.1);
    let dc = (e.full)(c.0) - (e.full)(c.1);
    assert(dc == x * da + y * db) by (nonlinear_arith)
        requires
            da == (e.full)(a.0) - (e.full)(a.1),
            db == (e.full)(b.0) - (e.full)(b.1),
            dc == (x * (e.full)(a.0) + y * (e.full)(b.0)) - (x * (e.full)(a.1) + y * (e.full)(
                b.1,
            )),
    ;
    let (ta, tb) = (w * da, w * db);
    lemma_combination_times(x, da, y, db, w);
    lemma_combination_times(x, ta, y, tb, sc);
    lemma_combination_times(x, ga, y, gb, unit);
    assert(gc == x * ga + y * gb) by (nonlinear_arith)
        requires
            unit * gc == unit * (x * ga + y * gb),
            unit != 0,
    ;
}

/// The query gradient is linear in the output gradients and the row sums: that
/// of a combination `x · a + y · b` is the combination of those of `a` and `b`.
pub proof fn dq_is_linear<Q, D>(
    m: Model<Q, D>,
    e: Reading,
    f: Factors,
    a: Problem<Q, D>,
    x: int,
    b: Problem<Q, D>,
    y: int,
    c: Problem<Q, D>,
    bh: int,
    q: int,
    col: int,
)
    requires
        exact(m, e),
        masks(m, e),
        grads_exact(m, e, f),
        a.seq % 64 == 0,
        0 <= q < a.seq,
        0 <= col < HEAD_DIM,
        same_attention(a, b),
        same_attention(a, c),
        query_combines(m, e, a, x, b, y, c, bh, q),
        dq_reads(m, e, a, bh, q, col),
        dq_reads(m, e, b, bh, q, col),
        dq_reads(m, e, c, bh, q, col),
        forall|key: int|
            0 <= key < a.seq && sees(a.causal, q, key) ==> {
                &&& #[trigger] pair_reads(m, e, a, bh, q, key)
                &&& pair_reads(m, e, b, bh, q, key)
                &&& pair_reads(m, e, c, bh, q, key)
                &&& ds_fits(m, e, f, a, bh, q, key)
                &&& ds_fits(m, e, f, b, bh, q, key)
                &&& ds_fits(m, e, f, c, bh, q, key)
            },
    ensures
        (e.full)(c.dq_value(m, bh, q, col)) == x * (e.full)(a.dq_value(m, bh, q, col)) + y * (
        e.full)(b.dq_value(m, bh, q, col)),
{
    dq_is_product(m, e, a, bh, q, col);
    dq_is_product(m, e, b, bh, q, col);
    dq_is_product(m, e, c, bh, q, col);
    let (u, v) = (dq_term(m, e, a, bh, q, col), dq_term(m, e, b, bh, q, col));
    let w = dq_term(m, e, c, bh, q, col);
    assert forall|key: int| 0 <= key < 0 + a.seq implies #[trigger] w(key) == x * u(key) + y * v(
        key,
    ) by {
        if sees(a.causal, q, key) {
            assert(pair_reads(m, e, a, bh, q, key));
            lemma_same_scores(m, a, b, bh, q, key);
            lemma_same_scores(m, a, c, bh, q, key);
            lemma_dp_combines(m, e, a, x, b, y, c, bh, q, key);
            let row = bh * a.seq + q;
            lemma_grad_combines(
                m,
                e,
                f,
                a.p_value(m, bh, q, key, a.s_at(m, bh, q, key)),
                a.scale,
                (a.dp_at(m, bh, q, key), a.d[row]),
                x,
                (b.dp_at(m, bh, q, key), b.d[row]),
                y,
                (c.dp_at(m, bh, q, key), c.d[row]),
            );
            let (s, t) = ((e.half)(a.ds_at(m, bh, q, key)), (e.half)(b.ds_at(m, bh, q, key)));
            let k = (e.half)(a.k_half(m, bh)(key, col));
            lemma_combination_times(x, s, y, t, k);
        } else {
            assert(u(key) == 0 && v(key) == 0 && w(key) == 0);
            assert(x * 0 + y * 0 == 0) by (nonlinear_arith);
        }
    }
    lemma_sum_combines(u, x, v, y, w, 0, a.seq as nat);
}

/// The key gradient is linear in the output gradients and the row sums: that of
/// a combination `x · a + y · b` is the combination of those of `a` and `b`.
pub proof fn dk_is_linear<Q, D>(
    m: Model<Q, D>,
    e: Reading,
    f: Factors,
    a: Problem<Q, D>,
    x: int,
    b: Problem<Q, D>,
    y: int,
    c: Problem<Q, D>,
    bh: int,
    key: int,
    col: int,
)
    requires
        exact(m, e),
        masks(m, e),
        grads_exact(m, e, f),
        a.seq % 64 == 0,
        0 <= key < a.seq,
        0 <= col < HEAD_DIM,
        same_attention(a, b),
        same_attention(a, c),
        forall|q: int|
            0 <= q < a.seq ==> #[trigger] query_combines(m, e, a, x, b, y, c, bh, q),
        dk_reads(m, e, a, bh, key, col),
        dk_reads(m, e, b, bh, key, col),
        dk_reads(m, e, c, bh, key, col),
        forall|q: int|
            0 <= q < a.seq && sees(a.causal, q, key) ==> {
                &&& #[trigger] pair_reads(m, e, a, bh, q, key)
                &&& pair_reads(m, e, b, bh, q, key)
                &&& pair_reads(m, e, c, bh, q, key)
                &&& dst_fits(m, e, f, a, bh, q, key)
                &&& dst_fits(m, e, f, b, bh, q, key)
                &&& dst_fits(m, e, f, c, bh, q, key)
            },
    ensures
        (e.full)(c.dk_value(m, bh, key, col)) == x * (e.full)(a.dk_value(m, bh, key, col)) + y * (
        e.full)(b.dk_value(m, bh, key, col)),
{
    dk_is_product(m, e, a, bh, key, col);
    dk_is_product(m, e, b, bh, key, col);
    dk_is_product(m, e, c, bh, key, col);
    let (u, v) = (dk_term(m, e, a, bh, key, col), dk_term(m, e, b, bh, key, col));
    let w = dk_term(m, e, c, bh, key, col);
    assert forall|q: int| 0 <= q < 0 + a.seq implies #[trigger] w(q) == x * u(q) + y * v(q) by {
        if sees(a.causal, q, key) {
            assert(pair_reads(m, e, a, bh, q, key));
            assert(query_combines(m, e, a, x, b, y, c, bh, q));
            lemma_same_scores(m, a, b, bh, q, key);
            lemma_same_scores(m, a, c, bh, q, key);
            lemma_dp_combines(m, e, a, x, b, y, c, bh, q, key);
            let row = bh * a.seq + q;
            lemma_grad_combines(
                m,
                e,
                f,
                p_at(m, a, bh, q, key),
                a.scale,
                (a.dpt_at(m, bh, q, key), a.d[row]),
                x,
                (b.dpt_at(m, bh, q, key), b.d[row]),
                y,
                (c.dpt_at(m, bh, q, key), c.d[row]),
            );
            let (s, t) = ((e.half)(a.dst_at(m, bh, q, key)), (e.half)(b.dst_at(m, bh, q, key)));
            let k = (e.half)(a.q_half(m, bh)(q, col));
            lemma_combination_times(x, s, y, t, k);
        } else {
            assert(u(q) == 0 && v(q) == 0 && w(q) == 0);
            assert(x * 0 + y * 0 == 0) by (nonlinear_arith);
        }
    }
    lemma_sum_combines(u, x, v, y, w, 0, a.seq as nat);
}

/// The value gradient is linear in the output gradients: that of a combination
/// `x · a + y · b` is the combination of those of `a` and `b`.
pub proof fn dv_is_linear<Q, D>(
    m: Model<Q, D>,
    e: Reading,
    a: Problem<Q, D>,
    x: int,
    b: Problem<Q, D>,
    y: int,
    c: Problem<Q, D>,
    bh: int,
    key: int,
    col: int,
)
    requires
        exact(m, e),
        masks(m, e),
        a.seq % 64 == 0,
        0 <= key < a.seq,
        0 <= col < HEAD_DIM,
        same_attention(a, b),
        same_attention(a, c),
        forall|q: int|
            0 <= q < a.seq ==> #[trigger] query_combines(m, e, a, x, b, y, c, bh, q),
        dv_reads(m, e, a, bh, key, col),
        dv_reads(m, e, b, bh, key, col),
        dv_reads(m, e, c, bh, key, col),
    ensures
        (e.full)(c.dv_value(m, bh, key, col)) == x * (e.full)(a.dv_value(m, bh, key, col)) + y * (
        e.full)(b.dv_value(m, bh, key, col)),
{
    dv_is_product(m, e, a, bh, key, col);
    dv_is_product(m, e, b, bh, key, col);
    dv_is_product(m, e, c, bh, key, col);
    let (u, v) = (dv_term(m, e, a, bh, key, col), dv_term(m, e, b, bh, key, col));
    let w = dv_term(m, e, c, bh, key, col);
    assert forall|q: int| 0 <= q < 0 + a.seq implies #[trigger] w(q) == x * u(q) + y * v(q) by {
        assert(query_combines(m, e, a, x, b, y, c, bh, q));
        lemma_same_scores(m, a, b, bh, q, key);
        lemma_same_scores(m, a, c, bh, q, key);
        let k = (e.half)(a.pt_at(m, bh, q, key));
        let (s, t) = ((e.half)(a.do_half(m, bh)(q, col)), (e.half)(b.do_half(m, bh)(q, col)));
        assert((e.half)(c.do_half(m, bh)(q, col)) == x * s + y * t);
        lemma_combination_times(x, s, y, t, k);
    }
    lemma_sum_combines(u, x, v, y, w, 0, a.seq as nat);
}

} // verus!
