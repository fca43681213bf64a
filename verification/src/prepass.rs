//! The row sums `D = rowsum(dO ⊙ O)` that precede the gradients.

use vstd::prelude::*;
use crate::math::{row_step, Arithmetic, Model, ZERO};

verus! {

/// The sum of the first `n` products of a row of `o` and `do_` at `base`.
pub open spec fn row_sum<Q, D>(m: Model<Q, D>, o: Seq<Q>, do_: Seq<D>, base: int, n: nat) -> u32
    decreases n,
{
    if n == 0 {
        ZERO
    } else {
        m.row_step(
            row_sum(m, o, do_, base, (n - 1) as nat),
            o[base + n - 1],
            do_[base + n - 1],
        )
    }
}

/// The row-sum kernel for the thread at `absolute_pos`: writes row
/// `absolute_pos` of `d`, and nothing if there is no such row.
pub fn flash_backward_prepass_kernel<Q: Copy, D: Copy, A: Arithmetic<Q, D>>(
    math: &A,
    o: &Vec<Q>,
    do_: &Vec<D>,
    d: &mut Vec<u32>,
    total_rows: u32,
    head_dim: usize,
    absolute_pos: u64,
)
    requires
        math.ready(),
        absolute_pos < total_rows ==> {
            &&& (absolute_pos + 1) * head_dim <= o.len()
            &&& (absolute_pos + 1) * head_dim <= do_.len()
            &&& absolute_pos < old(d).len()
        },
    ensures
        absolute_pos >= total_rows ==> final(d)@ == old(d)@,
        absolute_pos < total_rows ==> final(d)@ == old(d)@.update(
            absolute_pos as int,
            final(d)@[absolute_pos as int],
        ),
        forall|m: Model<Q, D>| #[trigger]
            math.computes(m) && absolute_pos < total_rows ==> final(d)@[absolute_pos as int]
                == row_sum(m, o@, do_@, absolute_pos * head_dim, head_dim as nat),
{
    if absolute_pos < total_rows as u64 {
        let row: usize = absolute_pos as usize;
        assert((row + 1) * head_dim == row * head_dim + head_dim) by (nonlinear_arith);
        assert(row * head_dim >= 0) by (nonlinear_arith);
        let base: usize = row * head_dim;
        let mut sum: u32 = ZERO;
        for i in 0..head_dim
            invariant
                math.ready(),
                base + head_dim <= o.len(),
                base + head_dim <= do_.len(),
                forall|m: Model<Q, D>| #[trigger]
                    math.computes(m) ==> sum == row_sum(m, o@, do_@, base as int, i as nat),
        {
            sum = row_step(math, sum, o[base + i], do_[base + i]);
        }
        d[row] = sum;
    }
}

/// Runs the row-sum kernel on `cubes` cubes of `units` threads.
pub fn launch_prepass<Q: Copy, D: Copy, A: Arithmetic<Q, D>>(
    math: &A,
    o: &Vec<Q>,
    do_: &Vec<D>,
    d: &mut Vec<u32>,
    total_rows: u32,
    head_dim: usize,
    cubes: u32,
    units: u32,
)
    requires
        math.ready(),
        total_rows <= cubes * units,
        total_rows * head_dim <= o.len(),
        total_rows * head_dim <= do_.len(),
        total_rows <= old(d).len(),
    ensures
        final(d).len() == old(d).len(),
        forall|row: int|
            total_rows <= row < old(d).len() ==> #[trigger] final(d)@[row] == old(d)@[row],
        forall|m: Model<Q, D>, row: int|
            #![trigger math.computes(m), final(d)@[row]]
            math.computes(m) && 0 <= row < total_rows ==> final(d)@[row] == row_sum(
                m,
                o@,
                do_@,
                row * head_dim,
                head_dim as nat,
            ),
{
    let ghost before = d@;
    for cube in 0..cubes
        invariant
            math.ready(),
            total_rows * head_dim <= o.len(),
            total_rows * head_dim <= do_.len(),
            total_rows <= d.len(),
            d.len() == before.len(),
            forall|row: int| total_rows <= row < before.len() ==> #[trigger] d@[row] == before[row],
            forall|m: Model<Q, D>, row: int|
                #![trigger math.computes(m), d@[row]]
                math.computes(m) && 0 <= row < total_rows && row < cube * units ==> d@[row]
                    == row_sum(m, o@, do_@, row * head_dim, head_dim as nat),
    {
        assert(cube * units + units == (cube + 1) * units) by (nonlinear_arith);
        assert(0 <= cube * units <= 0xffff_fffe * 0xffff_ffff) by (nonlinear_arith)
            requires
                cube <= 0xffff_fffe,
                units <= 0xffff_ffff,
        ;
        let first: u64 = cube as u64 * units as u64;
        for unit in 0..units
            invariant
                math.ready(),
                total_rows * head_dim <= o.len(),
                total_rows * head_dim <= do_.len(),
                total_rows <= d.len(),
                d.len() == before.len(),
                first == cube * units,
                first <= 0xffff_fffe * 0xffff_ffff,
                forall|row: int|
                    total_rows <= row < before.len() ==> #[trigger] d@[row] == before[row],
                forall|m: Model<Q, D>, row: int|
                    #![trigger math.computes(m), d@[row]]
                    math.computes(m) && 0 <= row < total_rows && row < first + unit ==> d@[row]
                        == row_sum(m, o@, do_@, row * head_dim, head_dim as nat),
        {
            let absolute_pos: u64 = first + unit as u64;
            assert(absolute_pos < total_rows ==> (absolute_pos + 1) * head_dim <= total_rows
                * head_dim) by (nonlinear_arith)
                requires
                    head_dim >= 0,
            ;
            flash_backward_prepass_kernel(math, o, do_, d, total_rows, head_dim, absolute_pos);
        }
    }
}

} // verus!
