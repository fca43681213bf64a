//! Staging: the threads of a block copy rows of the inputs to shared memory.
//!
//! Thread `tid` of the 128 takes the slots `tid`, `tid + 128`, `tid + 256`
//! and so on, so no two threads write the same slot and the order in which
//! they run does not matter.

use vstd::prelude::*;
use crate::geometry::{BLOCK, BLOCK_ELEMS, HEAD_DIM, THREADS};
use crate::math::{Arithmetic, Model};

verus! {

/// The position in a tensor of the element that shared-memory slot `i` holds
/// when the block from row `row0` of the head at `base` is staged.
pub open spec fn source(base: int, row0: int, i: int) -> int {
    base + (row0 + i / 64) * HEAD_DIM + i % 64
}

/// Whether slot `i` is thread `tid`'s.
pub open spec fn thread_owns(tid: int, i: int) -> bool {
    i % 128 == tid
}

/// Thread `tid` has filled its slots below `bound` with what `want` names.
pub open spec fn filled<T>(smem: Seq<T>, tid: int, bound: int, want: spec_fn(int) -> T) -> bool {
    forall|i: int|
        0 <= i < smem.len() && i < bound && thread_owns(tid, i) ==> #[trigger] smem[i] == want(i)
}

/// No slot but those of thread `tid` has changed.
pub open spec fn kept<T>(before: Seq<T>, smem: Seq<T>, tid: int) -> bool {
    &&& smem.len() == before.len()
    &&& forall|i: int|
        0 <= i < smem.len() && !thread_owns(tid, i) ==> #[trigger] smem[i] == before[i]
}

/// A thread that fills its next slot has filled all its slots below the one
/// after.
proof fn lemma_filled_next<T>(before: Seq<T>, tid: int, index: int, want: spec_fn(int) -> T)
    requires
        0 <= index < before.len(),
        thread_owns(tid, index),
        filled(before, tid, index, want),
    ensures
        filled(before.update(index, want(index)), tid, index + 128, want),
{
}

/// The threads before `tid` have filled their slots with what `want` names.
pub open spec fn filled_before<T>(smem: Seq<T>, tid: int, want: spec_fn(int) -> T) -> bool {
    forall|i: int| 0 <= i < smem.len() && i % 128 < tid ==> #[trigger] smem[i] == want(i)
}

/// Every slot holds what `want` names.
pub open spec fn staged<T>(smem: Seq<T>, want: spec_fn(int) -> T) -> bool {
    forall|i: int| 0 <= i < smem.len() ==> #[trigger] smem[i] == want(i)
}

/// What the slots hold once elements of `x` are staged through `narrow`.
pub open spec fn narrowed<T>(narrow: spec_fn(T) -> u16, x: Seq<T>, base: int, row0: int) -> spec_fn(
    int,
) -> u16 {
    |i: int| narrow(x[source(base, row0, i)])
}

/// What the slots hold once the numbers of `x` from `start` are staged.
pub open spec fn copied(x: Seq<u32>, start: int) -> spec_fn(int) -> u32 {
    |i: int| x[start + i]
}

/// Whether `f` rounds every element as `narrow` names.
pub open spec fn rounds<X, F: Fn(X) -> u16>(f: F, narrow: spec_fn(X) -> u16) -> bool {
    forall|x: X, r: u16| #[trigger] call_ensures(f, (x,), r) ==> r == narrow(x)
}

/// Thread `tid`'s share of the staging of a block of two operands, each rounded
/// in its own way.
fn stage_pair_thread<X: Copy, Y: Copy, F: Fn(X) -> u16, G: Fn(Y) -> u16>(
    round_x: &F,
    x: &Vec<X>,
    round_y: &G,
    y: &Vec<Y>,
    base: usize,
    row0: usize,
    x_smem: &mut Vec<u16>,
    y_smem: &mut Vec<u16>,
    tid: usize,
)
    requires
        forall|e: X| #[trigger] call_requires(*round_x, (e,)),
        forall|e: Y| #[trigger] call_requires(*round_y, (e,)),
        tid < THREADS,
        base + (row0 + BLOCK) * HEAD_DIM <= x.len(),
        base + (row0 + BLOCK) * HEAD_DIM <= y.len(),
        old(x_smem).len() == BLOCK_ELEMS,
        old(y_smem).len() == BLOCK_ELEMS,
    ensures
        kept(old(x_smem)@, final(x_smem)@, tid as int),
        kept(old(y_smem)@, final(y_smem)@, tid as int),
        forall|narrow: spec_fn(X) -> u16| #[trigger]
            rounds(*round_x, narrow) ==> filled(
                final(x_smem)@,
                tid as int,
                BLOCK_ELEMS as int,
                narrowed(narrow, x@, base as int, row0 as int),
            ),
        forall|narrow: spec_fn(Y) -> u16| #[trigger]
            rounds(*round_y, narrow) ==> filled(
                final(y_smem)@,
                tid as int,
                BLOCK_ELEMS as int,
                narrowed(narrow, y@, base as int, row0 as int),
            ),
{
    let ghost x_before = x_smem@;
    let ghost y_before = y_smem@;
    let mut index: usize = tid;
    while index < BLOCK_ELEMS
        invariant
            forall|e: X| #[trigger] call_requires(*round_x, (e,)),
            forall|e: Y| #[trigger] call_requires(*round_y, (e,)),
            tid < THREADS,
            base + (row0 + BLOCK) * HEAD_DIM <= x.len(),
            base + (row0 + BLOCK) * HEAD_DIM <= y.len(),
            x_smem.len() == BLOCK_ELEMS,
            y_smem.len() == BLOCK_ELEMS,
            index % 128 == tid,
            index < BLOCK_ELEMS + THREADS,
            kept(x_before, x_smem@, tid as int),
            kept(y_before, y_smem@, tid as int),
            forall|narrow: spec_fn(X) -> u16| #[trigger]
                rounds(*round_x, narrow) ==> filled(
                    x_smem@,
                    tid as int,
                    index as int,
                    narrowed(narrow, x@, base as int, row0 as int),
                ),
            forall|narrow: spec_fn(Y) -> u16| #[trigger]
                rounds(*round_y, narrow) ==> filled(
                    y_smem@,
                    tid as int,
                    index as int,
                    narrowed(narrow, y@, base as int, row0 as int),
                ),
        decreases BLOCK_ELEMS + THREADS - index,
    {
        let row: usize = index / HEAD_DIM;
        let col: usize = index % HEAD_DIM;
        let global: usize = base + (row0 + row) * HEAD_DIM + col;
        let ghost x_last = x_smem@;
        let ghost y_last = y_smem@;
        assert(global == source(base as int, row0 as int, index as int));
        let x_half: u16 = round_x(x[global]);
        let y_half: u16 = round_y(y[global]);
        x_smem[index] = x_half;
        y_smem[index] = y_half;
        proof {
            assert forall|narrow: spec_fn(X) -> u16| #[trigger]
                rounds(*round_x, narrow) implies filled(
                x_smem@,
                tid as int,
                index + THREADS,
                narrowed(narrow, x@, base as int, row0 as int),
            ) by {
                let want = narrowed(narrow, x@, base as int, row0 as int);
                assert(x_half == want(index as int));
                lemma_filled_next(x_last, tid as int, index as int, want);
            }
            assert forall|narrow: spec_fn(Y) -> u16| #[trigger]
                rounds(*round_y, narrow) implies filled(
                y_smem@,
                tid as int,
                index + THREADS,
                narrowed(narrow, y@, base as int, row0 as int),
            ) by {
                let want = narrowed(narrow, y@, base as int, row0 as int);
                assert(y_half == want(index as int));
                lemma_filled_next(y_last, tid as int, index as int, want);
            }
        }
        index += THREADS;
    }
}

/// Thread `tid`'s share of the staging of a block of keys and values.
pub fn stage_kv_thread<Q: Copy, D, A: Arithmetic<Q, D>>(
    math: &A,
    k: &Vec<Q>,
    v: &Vec<Q>,
    base: usize,
    kv0: usize,
    k_smem: &mut Vec<u16>,
    v_smem: &mut Vec<u16>,
    tid: usize,
)
    requires
        math.ready(),
        tid < THREADS,
        base + (kv0 + BLOCK) * HEAD_DIM <= k.len(),
        base + (kv0 + BLOCK) * HEAD_DIM <= v.len(),
        old(k_smem).len() == BLOCK_ELEMS,
        old(v_smem).len() == BLOCK_ELEMS,
    ensures
        kept(old(k_smem)@, final(k_smem)@, tid as int),
        kept(old(v_smem)@, final(v_smem)@, tid as int),
        forall|m: Model<Q, D>| #[trigger]
            math.computes(m) ==> {
                &&& filled(
                    final(k_smem)@,
                    tid as int,
                    BLOCK_ELEMS as int,
                    narrowed(m.narrow_q, k@, base as int, kv0 as int),
                )
                &&& filled(
                    final(v_smem)@,
                    tid as int,
                    BLOCK_ELEMS as int,
                    narrowed(m.narrow_q, v@, base as int, kv0 as int),
                )
            },
{
    let round_k = |x: Q| -> (r: u16)
        requires
            math.ready(),
        ensures
            forall|m: Model<Q, D>| #[trigger] math.computes(m) ==> r == (m.narrow_q)(x),
        { math.narrow_q(x) };
    let round_v = |x: Q| -> (r: u16)
        requires
            math.ready(),
        ensures
            forall|m: Model<Q, D>| #[trigger] math.computes(m) ==> r == (m.narrow_q)(x),
        { math.narrow_q(x) };
    stage_pair_thread(&round_k, k, &round_v, v, base, kv0, k_smem, v_smem, tid);
    proof {
        assert forall|m: Model<Q, D>| #[trigger] math.computes(m) implies rounds(round_k, m.narrow_q)
            && rounds(round_v, m.narrow_q) by {}
    }
}

/// Stages a block of keys and values, thread after thread.
pub fn stage_kv<Q: Copy, D, A: Arithmetic<Q, D>>(
    math: &A,
    k: &Vec<Q>,
    v: &Vec<Q>,
    base: usize,
    kv0: usize,
    k_smem: &mut Vec<u16>,
    v_smem: &mut Vec<u16>,
)
    requires
        math.ready(),
        base + (kv0 + BLOCK) * HEAD_DIM <= k.len(),
        base + (kv0 + BLOCK) * HEAD_DIM <= v.len(),
        old(k_smem).len() == BLOCK_ELEMS,
        old(v_smem).len() == BLOCK_ELEMS,
    ensures
        final(k_smem).len() == BLOCK_ELEMS,
        final(v_smem).len() == BLOCK_ELEMS,
        forall|m: Model<Q, D>| #[trigger]
            math.computes(m) ==> {
                &&& staged(final(k_smem)@, narrowed(m.narrow_q, k@, base as int, kv0 as int))
                &&& staged(final(v_smem)@, narrowed(m.narrow_q, v@, base as int, kv0 as int))
            },
{
    for tid in 0..THREADS
        invariant
            math.ready(),
            base + (kv0 + BLOCK) * HEAD_DIM <= k.len(),
            base + (kv0 + BLOCK) * HEAD_DIM <= v.len(),
            k_smem.len() == BLOCK_ELEMS,
            v_smem.len() == BLOCK_ELEMS,
            forall|m: Model<Q, D>| #[trigger]
                math.computes(m) ==> {
                    &&& filled_before(
                        k_smem@,
                        tid as int,
                        narrowed(m.narrow_q, k@, base as int, kv0 as int),
                    )
                    &&& filled_before(
                        v_smem@,
                        tid as int,
                        narrowed(m.narrow_q, v@, base as int, kv0 as int),
                    )
                },
    {
        stage_kv_thread(math, k, v, base, kv0, k_smem, v_smem, tid);
    }
}

/// Thread `tid`'s share of the staging of a block of queries and output gradients.
pub fn stage_q_do_thread<Q: Copy, D: Copy, A: Arithmetic<Q, D>>(
    math: &A,
    q: &Vec<Q>,
    do_: &Vec<D>,
    base: usize,
    q0: usize,
    q_smem: &mut Vec<u16>,
    do_smem: &mut Vec<u16>,
    tid: usize,
)
    requires
        math.ready(),
        tid < THREADS,
        base + (q0 + BLOCK) * HEAD_DIM <= q.len(),
        base + (q0 + BLOCK) * HEAD_DIM <= do_.len(),
        old(q_smem).len() == BLOCK_ELEMS,
        old(do_smem).len() == BLOCK_ELEMS,
    ensures
        kept(old(q_smem)@, final(q_smem)@, tid as int),
        kept(old(do_smem)@, final(do_smem)@, tid as int),
        forall|m: Model<Q, D>| #[trigger]
            math.computes(m) ==> {
                &&& filled(
                    final(q_smem)@,
                    tid as int,
                    BLOCK_ELEMS as int,
                    narrowed(m.narrow_q, q@, base as int, q0 as int),
                )
                &&& filled(
                    final(do_smem)@,
                    tid as int,
                    BLOCK_ELEMS as int,
                    narrowed(m.narrow_do, do_@, base as int, q0 as int),
                )
            },
{
    let round_q = |x: Q| -> (r: u16)
        requires
            math.ready(),
        ensures
            forall|m: Model<Q, D>| #[trigger] math.computes(m) ==> r == (m.narrow_q)(x),
        { math.narrow_q(x) };
    let round_do_ = |x: D| -> (r: u16)
        requires
            math.ready(),
        ensures
            forall|m: Model<Q, D>| #[trigger] math.computes(m) ==> r == (m.narrow_do)(x),
        { math.narrow_do(x) };
    stage_pair_thread(&round_q, q, &round_do_, do_, base, q0, q_smem, do_smem, tid);
    proof {
        assert forall|m: Model<Q, D>| #[trigger] math.computes(m) implies rounds(round_q, m.narrow_q)
            && rounds(round_do_, m.narrow_do) by {}
    }
}

/// Stages a block of queries and output gradients, thread after thread.
pub fn stage_q_do<Q: Copy, D: Copy, A: Arithmetic<Q, D>>(
    math: &A,
    q: &Vec<Q>,
    do_: &Vec<D>,
    base: usize,
    q0: usize,
    q_smem: &mut Vec<u16>,
    do_smem: &mut Vec<u16>,
)
    requires
        math.ready(),
        base + (q0 + BLOCK) * HEAD_DIM <= q.len(),
        base + (q0 + BLOCK) * HEAD_DIM <= do_.len(),
        old(q_smem).len() == BLOCK_ELEMS,
        old(do_smem).len() == BLOCK_ELEMS,
    ensures
        final(q_smem).len() == BLOCK_ELEMS,
        final(do_smem).len() == BLOCK_ELEMS,
        forall|m: Model<Q, D>| #[trigger]
            math.computes(m) ==> {
                &&& staged(final(q_smem)@, narrowed(m.narrow_q, q@, base as int, q0 as int))
                &&& staged(final(do_smem)@, narrowed(m.narrow_do, do_@, base as int, q0 as int))
            },
{
    for tid in 0..THREADS
        invariant
            math.ready(),
            base + (q0 + BLOCK) * HEAD_DIM <= q.len(),
            base + (q0 + BLOCK) * HEAD_DIM <= do_.len(),
            q_smem.len() == BLOCK_ELEMS,
            do_smem.len() == BLOCK_ELEMS,
            forall|m: Model<Q, D>| #[trigger]
                math.computes(m) ==> {
                    &&& filled_before(
                        q_smem@,
                        tid as int,
                        narrowed(m.narrow_q, q@, base as int, q0 as int),
                    )
                    &&& filled_before(
                        do_smem@,
                        tid as int,
                        narrowed(m.narrow_do, do_@, base as int, q0 as int),
                    )
                },
    {
        stage_q_do_thread(math, q, do_, base, q0, q_smem, do_smem, tid);
    }
}

/// Thread `tid`'s share of the staging of a block of row statistics.
pub fn stage_rows_thread(
    lse: &Vec<u32>,
    d: &Vec<u32>,
    start: usize,
    lse_smem: &mut Vec<u32>,
    d_smem: &mut Vec<u32>,
    tid: usize,
)
    requires
        tid < THREADS,
        start + BLOCK <= lse.len(),
        start + BLOCK <= d.len(),
        old(lse_smem).len() == BLOCK,
        old(d_smem).len() == BLOCK,
    ensures
        kept(old(lse_smem)@, final(lse_smem)@, tid as int),
        kept(old(d_smem)@, final(d_smem)@, tid as int),
        filled(final(lse_smem)@, tid as int, BLOCK as int, copied(lse@, start as int)),
        filled(final(d_smem)@, tid as int, BLOCK as int, copied(d@, start as int)),
{
    let ghost lse_before = lse_smem@;
    let ghost d_before = d_smem@;
    let mut index: usize = tid;
    while index < BLOCK
        invariant
            tid < THREADS,
            start + BLOCK <= lse.len(),
            start + BLOCK <= d.len(),
            lse_smem.len() == BLOCK,
            d_smem.len() == BLOCK,
            index % 128 == tid,
            index < BLOCK + THREADS,
            kept(lse_before, lse_smem@, tid as int),
            kept(d_before, d_smem@, tid as int),
            filled(lse_smem@, tid as int, index as int, copied(lse@, start as int)),
            filled(d_smem@, tid as int, index as int, copied(d@, start as int)),
        decreases BLOCK + THREADS - index,
    {
        lse_smem[index] = lse[start + index];
        d_smem[index] = d[start + index];
        index += THREADS;
    }
}

/// Stages a block of row statistics, thread after thread.
pub fn stage_rows(
    lse: &Vec<u32>,
    d: &Vec<u32>,
    start: usize,
    lse_smem: &mut Vec<u32>,
    d_smem: &mut Vec<u32>,
)
    requires
        start + BLOCK <= lse.len(),
        start + BLOCK <= d.len(),
        old(lse_smem).len() == BLOCK,
        old(d_smem).len() == BLOCK,
    ensures
        final(lse_smem).len() == BLOCK,
        final(d_smem).len() == BLOCK,
        staged(final(lse_smem)@, copied(lse@, start as int)),
        staged(final(d_smem)@, copied(d@, start as int)),
{
    for tid in 0..THREADS
        invariant
            start + BLOCK <= lse.len(),
            start + BLOCK <= d.len(),
            lse_smem.len() == BLOCK,
            d_smem.len() == BLOCK,
            filled_before(lse_smem@, tid as int, copied(lse@, start as int)),
            filled_before(d_smem@, tid as int, copied(d@, start as int)),
    {
        stage_rows_thread(lse, d, start, lse_smem, d_smem, tid);
    }
}

} // verus!
