//! The launch: validation of the shapes, the grids, and the three kernels one
//! after the other.

use vstd::prelude::*;
use vstd::string::StringExecFns;
use crate::attention::problem;
use crate::blocks::{lemma_block_before, lemma_element_block, lemma_element_in, lemma_heads_ordered};
use crate::device::{cube_dim_1d, cube_dim_2d};
use crate::dkdv::flash_backward_dkdv_kernel;
use crate::dq::flash_backward_dq_kernel;
use crate::error::{append_decimal, decimal, AttentionSetupError};
use crate::geometry::{element, BLOCK, HEAD_DIM, NUM_PLANES, PLANE_DIM};
use crate::math::{Arithmetic, Model};
use crate::prepass::{launch_prepass, row_sum};

verus! {

/// Threads in a cube of the row-sum kernel.
pub const PREPASS_THREADS: u32 = 128;

/// A contiguous tensor.
pub struct TensorBinding<T> {
    /// The size of each dimension.
    pub shape: Vec<usize>,
    /// The elements; those of the last dimension lie side by side.
    pub data: Vec<T>,
}

impl<T> TensorBinding<T> {
    /// The data hold every element of the shape.
    pub open spec fn wf(self) -> bool {
        volume(self.shape@) <= self.data.len()
    }
}

/// The product of the sizes of some dimensions.
pub open spec fn volume(dims: Seq<usize>) -> int
    decreases dims.len(),
{
    if dims.len() == 0 {
        1
    } else {
        volume(dims.drop_last()) * dims.last()
    }
}

/// The number of batch·heads of a `[.., seq, head_dim]` shape.
pub open spec fn batch_heads(shape: Seq<usize>) -> int {
    volume(shape.take(shape.len() - 2))
}

/// The sequence length of a `[.., seq, head_dim]` shape.
pub open spec fn seq_len(shape: Seq<usize>) -> int {
    shape[shape.len() - 2] as int
}

/// The head dimension of a `[.., seq, head_dim]` shape.
pub open spec fn head_dim(shape: Seq<usize>) -> int {
    shape[shape.len() - 1] as int
}

/// The number of rows can be counted in a machine word, dimension by
/// dimension.
pub open spec fn rows_fit(shape: Seq<usize>) -> bool {
    &&& forall|n: int|
        0 <= n <= shape.len() - 2 ==> #[trigger] volume(shape.take(n)) <= usize::MAX
    &&& batch_heads(shape) * seq_len(shape) <= usize::MAX
}

/// Why the kernels do not support queries, keys and values of the given
/// shapes, if they do not.
pub open spec fn setup_error(q: Seq<usize>, k: Seq<usize>, v: Seq<usize>) -> Option<Seq<char>> {
    if q.len() < 2 {
        Some("tiled attention backward requires rank >= 2, got "@ + decimal(q.len()))
    } else if head_dim(q) != HEAD_DIM {
        Some(
            "tiled attention backward requires head_dim == 64, got "@ + decimal(head_dim(q) as nat),
        )
    } else if seq_len(q) % 64 != 0 || seq_len(q) == 0 {
        Some("tiled attention backward requires seq % 64 == 0, got "@ + decimal(seq_len(q) as nat))
    } else if k != q || v != q {
        Some("tiled attention backward requires square self-attention"@)
    } else {
        None
    }
}

/// Why the kernels do not support outputs, output gradients, row statistics and
/// gradients of the given shapes, if they do not, for queries of a shape that
/// they do support.
pub open spec fn operand_error(
    q: Seq<usize>,
    o: Seq<usize>,
    do_: Seq<usize>,
    lse: Seq<usize>,
    d: Seq<usize>,
    dq: Seq<usize>,
    dk: Seq<usize>,
    dv: Seq<usize>,
) -> Option<Seq<char>> {
    if o != q || do_ != q {
        Some("tiled attention backward requires o and do_ of the shape of q"@)
    } else if !(lse.len() == 2 && lse[0] == batch_heads(q) && lse[1] == seq_len(q)) {
        Some("tiled attention backward requires lse of shape [B*H, N]"@)
    } else if volume(d) < batch_heads(q) * seq_len(q) {
        Some("tiled attention backward requires d to hold an element for each row"@)
    } else if volume(dq) != volume(q) || volume(dk) != volume(q) || volume(dv) != volume(q) {
        Some("tiled attention backward requires dq, dk and dv of the size of q"@)
    } else {
        None
    }
}

/// Why the kernels do not support tensors of the given shapes, if they do not.
pub open spec fn launch_error(
    q: Seq<usize>,
    k: Seq<usize>,
    v: Seq<usize>,
    o: Seq<usize>,
    do_: Seq<usize>,
    lse: Seq<usize>,
    d: Seq<usize>,
    dq: Seq<usize>,
    dk: Seq<usize>,
    dv: Seq<usize>,
) -> Option<Seq<char>> {
    if setup_error(q, k, v) is Some {
        setup_error(q, k, v)
    } else {
        operand_error(q, o, do_, lse, d, dq, dk, dv)
    }
}

/// The low 32 bits of a number.
pub open spec fn low_bits(n: int) -> int {
    n % 0x1_0000_0000
}

/// How the three kernels are launched.
#[derive(Debug, PartialEq, Eq, Clone, Copy)]
pub struct LaunchPlan {
    /// The rows of the row-sum kernel.
    pub total_rows: u32,
    /// The head dimension of the row-sum kernel.
    pub head_dim: usize,
    /// The cubes of the row-sum kernel along each axis.
    pub prepass_count: (u32, u32, u32),
    /// The threads of a cube of the row-sum kernel along each axis.
    pub prepass_dim: (u32, u32, u32),
    /// The cubes of the gradient kernels along each axis: batch·heads, blocks
    /// and one.
    pub gradient_count: (u32, u32, u32),
    /// The threads of a cube of the gradient kernels along each axis: lanes,
    /// planes and one.
    pub gradient_dim: (u32, u32, u32),
    /// The sequence length of the gradient kernels.
    pub seq: u32,
}

impl LaunchPlan {
    /// The plan is that of queries of the given shape.
    pub open spec fn of(self, shape: Seq<usize>) -> bool {
        &&& self.total_rows == low_bits(batch_heads(shape) * seq_len(shape))
        &&& self.head_dim == HEAD_DIM
        &&& self.prepass_count.0 == (self.total_rows + PREPASS_THREADS - 1)
            / PREPASS_THREADS as int
        &&& self.prepass_count.1 == 1
        &&& self.prepass_count.2 == 1
        &&& self.prepass_dim == (PREPASS_THREADS, 1u32, 1u32)
        &&& self.gradient_count.0 == low_bits(batch_heads(shape))
        &&& self.gradient_count.1 == low_bits(seq_len(shape) / BLOCK as int)
        &&& self.gradient_count.2 == 1
        &&& self.gradient_dim == (PLANE_DIM, NUM_PLANES, 1u32)
        &&& self.seq == low_bits(seq_len(shape))
    }
}

/// The low 32 bits of `n`.
fn truncate(n: usize) -> (r: u32)
    ensures
        r == low_bits(n as int),
{
    let wide: u64 = n as u64;
    assert(wide as u32 == wide % 0x1_0000_0000u64) by (bit_vector);
    #[verifier::truncate]
    (wide as u32)
}

/// The number of groups of `size` that hold `n` items.
fn group_count(n: u32, size: u32) -> (r: u32)
    requires
        size > 0,
    ensures
        r == (n + size - 1) / size as int,
{
    let full: u32 = n / size;
    let ghost s = size as int;
    proof {
        vstd::arithmetic::div_mod::lemma_fundamental_div_mod(n as int, s);
    }
    if n % size == 0 {
        proof {
            assert(n + s - 1 == full * s + (s - 1)) by (nonlinear_arith)
                requires
                    n == s * full,
            ;
            vstd::arithmetic::div_mod::lemma_fundamental_div_mod_converse(
                n + s - 1,
                s,
                full as int,
                s - 1,
            );
        }
        full
    } else {
        let ghost rest = n as int % s;
        proof {
            assert(n + s - 1 == (full + 1) * s + (rest - 1)) by (nonlinear_arith)
                requires
                    n == s * full + rest,
            ;
            vstd::arithmetic::div_mod::lemma_fundamental_div_mod_converse(
                n + s - 1,
                s,
                full + 1,
                rest - 1,
            );
            assert(full < n) by (nonlinear_arith)
                requires
                    n == s * full + rest,
                    s >= 1,
                    full >= 0,
                    rest >= 1,
            ;
        }
        full + 1
    }
}

/// Whether two shapes are the same.
fn same_shape(a: &Vec<usize>, b: &Vec<usize>) -> (r: bool)
    ensures
        r == (a@ == b@),
{
    if a.len() != b.len() {
        return false;
    }
    for i in 0..a.len()
        invariant
            a.len() == b.len(),
            forall|j: int| 0 <= j < i ==> a@[j] == b@[j],
    {
        if a[i] != b[i] {
            return false;
        }
    }
    assert(a@ =~= b@);
    true
}

/// The number of batch·heads of a shape.
fn count_heads(shape: &Vec<usize>) -> (r: usize)
    requires
        shape.len() >= 2,
        rows_fit(shape@),
    ensures
        r == batch_heads(shape@),
{
    let mut r: usize = 1;
    for n in 0..shape.len() - 2
        invariant
            shape.len() >= 2,
            rows_fit(shape@),
            r == volume(shape@.take(n as int)),
    {
        assert(shape@.take(n + 1).drop_last() =~= shape@.take(n as int));
        assert(volume(shape@.take(n + 1)) <= usize::MAX);
        r = r * shape[n];
    }
    r
}

/// Checks that the kernels support queries, keys and values of the given
/// shapes.
pub fn check_shapes(q: &Vec<usize>, k: &Vec<usize>, v: &Vec<usize>) -> (r: Result<
    (),
    AttentionSetupError,
>)
    ensures
        match r {
            Ok(()) => setup_error(q@, k@, v@) is None,
            Err(e) => setup_error(q@, k@, v@) == Some(e.reason()),
        },
        r is Ok <==> {
            &&& q@.len() >= 2
            &&& q@[q@.len() - 1] == 64
            &&& q@[q@.len() - 2] > 0
            &&& q@[q@.len() - 2] % 64 == 0
            &&& k@ == q@
            &&& v@ == q@
        },
{
    let rank: usize = q.len();
    if rank < 2 {
        let mut text = String::from_str("tiled attention backward requires rank >= 2, got ");
        append_decimal(&mut text, rank);
        return Err(AttentionSetupError::InvalidConfig(text));
    }
    let seq: usize = q[rank - 2];
    let head_dim: usize = q[rank - 1];

    if head_dim != HEAD_DIM {
        let mut text = String::from_str("tiled attention backward requires head_dim == 64, got ");
        append_decimal(&mut text, head_dim);
        return Err(AttentionSetupError::InvalidConfig(text));
    }
    if seq % BLOCK != 0 || seq == 0 {
        let mut text = String::from_str("tiled attention backward requires seq % 64 == 0, got ");
        append_decimal(&mut text, seq);
        return Err(AttentionSetupError::InvalidConfig(text));
    }
    if !same_shape(k, q) || !same_shape(v, q) {
        let text = String::from_str("tiled attention backward requires square self-attention");
        return Err(AttentionSetupError::InvalidConfig(text));
    }
    Ok(())
}

/// A product of sizes one of which is zero is zero.
proof fn lemma_volume_zero(dims: Seq<usize>, i: int)
    requires
        0 <= i < dims.len(),
        dims[i] == 0,
    ensures
        volume(dims) == 0,
    decreases dims.len(),
{
    if i < dims.len() - 1 {
        lemma_volume_zero(dims.drop_last(), i);
        assert(0 * dims.last() == 0) by (nonlinear_arith);
    } else {
        assert(volume(dims.drop_last()) * 0 == 0) by (nonlinear_arith);
    }
}

/// A product of sizes none of which is zero only grows.
proof fn lemma_volume_grows(dims: Seq<usize>, i: int)
    requires
        0 <= i <= dims.len(),
        forall|j: int| 0 <= j < dims.len() ==> #[trigger] dims[j] >= 1,
    ensures
        1 <= volume(dims.take(i)) <= volume(dims),
    decreases dims.len(),
{
    if i == dims.len() {
        assert(dims.take(i) =~= dims);
        if dims.len() > 0 {
            lemma_volume_grows(dims.drop_last(), dims.len() - 1);
            assert(dims.drop_last().take(dims.len() - 1) =~= dims.drop_last());
            let (a, b) = (volume(dims.drop_last()), dims.last() as int);
            assert(a * b >= 1) by (nonlinear_arith)
                requires
                    a >= 1,
                    b >= 1,
            ;
        }
    } else {
        lemma_volume_grows(dims.drop_last(), i);
        assert(dims.drop_last().take(i) =~= dims.take(i));
        let (a, b) = (volume(dims.drop_last()), dims.last() as int);
        assert(a * b >= a) by (nonlinear_arith)
            requires
                a >= 1,
                b >= 1,
        ;
    }
}

/// The product of the first `n` sizes of a shape, or `cap` if it is larger.
fn capped_volume(shape: &Vec<usize>, n: usize, cap: u128) -> (r: u128)
    requires
        n <= shape.len(),
    ensures
        volume(shape@.take(n as int)) <= cap ==> r == volume(shape@.take(n as int)),
        volume(shape@.take(n as int)) > cap ==> r == cap,
{
    let ghost dims = shape@.take(n as int);
    for i in 0..n
        invariant
            n <= shape.len(),
            dims == shape@.take(n as int),
            forall|j: int| 0 <= j < i ==> #[trigger] dims[j] >= 1,
    {
        assert(dims[i as int] == shape@[i as int]);
        if shape[i] == 0 {
            proof {
                lemma_volume_zero(dims, i as int);
            }
            return 0;
        }
    }
    proof {
        lemma_volume_grows(dims, 0);
    }
    if cap == 0 {
        return 0;
    }
    let mut product: u128 = 1;
    for i in 0..n
        invariant
            n <= shape.len(),
            dims == shape@.take(n as int),
            forall|j: int| 0 <= j < n ==> #[trigger] dims[j] >= 1,
            product == volume(dims.take(i as int)),
            1 <= product <= cap,
    {
        let size: u128 = shape[i] as u128;
        assert(dims[i as int] == size);
        assert(dims.take(i + 1).drop_last() =~= dims.take(i as int));
        assert(volume(dims.take(i + 1)) == product * size);
        proof {
            vstd::arithmetic::div_mod::lemma_fundamental_div_mod(cap as int, size as int);
            vstd::arithmetic::div_mod::lemma_mod_bound(cap as int, size as int);
        }
        let ghost most = cap as int / size as int;
        let ghost rest = cap as int % size as int;
        if product > cap / size {
            proof {
                lemma_volume_grows(dims, i + 1);
                assert(product * size > cap) by (nonlinear_arith)
                    requires
                        product >= most + 1,
                        cap == size * most + rest,
                        rest < size,
                        size >= 1,
                ;
            }
            return cap;
        }
        assert(1 <= product * size <= cap) by (nonlinear_arith)
            requires
                1 <= product <= most,
                cap == size * most + rest,
                rest >= 0,
                size >= 1,
        ;
        product = product * size;
    }
    assert(dims.take(n as int) =~= dims);
    product
}

/// Whether a shape holds exactly `total` elements.
fn holds_exactly(shape: &Vec<usize>, total: u128) -> (r: bool)
    requires
        total < u128::MAX,
    ensures
        r == (volume(shape@) == total),
{
    assert(shape@.take(shape.len() as int) =~= shape@);
    capped_volume(shape, shape.len(), total + 1) == total
}

/// Whether a shape holds at least `total` elements.
fn holds_at_least(shape: &Vec<usize>, total: u128) -> (r: bool)
    ensures
        r == (volume(shape@) >= total),
{
    assert(shape@.take(shape.len() as int) =~= shape@);
    capped_volume(shape, shape.len(), total) == total
}

/// Checks that the kernels support outputs, output gradients, row statistics
/// and gradients of the given shapes, for queries of a shape that they support.
pub fn check_operands(
    q: &Vec<usize>,
    o: &Vec<usize>,
    do_: &Vec<usize>,
    lse: &Vec<usize>,
    d: &Vec<usize>,
    dq: &Vec<usize>,
    dk: &Vec<usize>,
    dv: &Vec<usize>,
) -> (r: Result<(), AttentionSetupError>)
    requires
        q.len() >= 2,
        head_dim(q@) == HEAD_DIM,
        batch_heads(q@) * seq_len(q@) <= usize::MAX,
    ensures
        match r {
            Ok(()) => operand_error(q@, o@, do_@, lse@, d@, dq@, dk@, dv@) is None,
            Err(e) => operand_error(q@, o@, do_@, lse@, d@, dq@, dk@, dv@) == Some(e.reason()),
        },
        r is Ok <==> {
            &&& o@ == q@
            &&& do_@ == q@
            &&& lse@.len() == 2
            &&& lse@[0] == volume(q@.take(q@.len() - 2))
            &&& lse@[1] == q@[q@.len() - 2]
            &&& volume(d@) >= volume(q@.take(q@.len() - 2)) * q@[q@.len() - 2]
            &&& volume(dq@) == volume(q@)
            &&& volume(dk@) == volume(q@)
            &&& volume(dv@) == volume(q@)
        },
{
    let seq: usize = q[q.len() - 2];
    if !same_shape(o, q) || !same_shape(do_, q) {
        let text = String::from_str("tiled attention backward requires o and do_ of the shape of q");
        return Err(AttentionSetupError::InvalidConfig(text));
    }
    if lse.len() != 2 || lse[1] != seq || capped_volume(q, q.len() - 2, lse[0] as u128 + 1)
        != lse[0] as u128 {
        let text = String::from_str("tiled attention backward requires lse of shape [B*H, N]");
        return Err(AttentionSetupError::InvalidConfig(text));
    }
    assert(lse[0] * seq >= 0) by (nonlinear_arith);
    let rows: u128 = lse[0] as u128 * seq as u128;
    assert(rows == batch_heads(q@) * seq_len(q@) && rows <= 0xffff_ffff_ffff_ffff);
    if !holds_at_least(d, rows) {
        let text = String::from_str(
            "tiled attention backward requires d to hold an element for each row",
        );
        return Err(AttentionSetupError::InvalidConfig(text));
    }
    assert(rows * HEAD_DIM == rows * 64) by (nonlinear_arith)
        requires
            HEAD_DIM == 64,
    ;
    let size: u128 = rows * HEAD_DIM as u128;
    proof {
        lemma_shape_volume(q@);
    }
    if !holds_exactly(dq, size) || !holds_exactly(dk, size) || !holds_exactly(dv, size) {
        let text = String::from_str(
            "tiled attention backward requires dq, dk and dv of the size of q",
        );
        return Err(AttentionSetupError::InvalidConfig(text));
    }
    Ok(())
}

/// Plans the launch for queries of the given shape.
pub fn plan_launch(shape: &Vec<usize>) -> (plan: LaunchPlan)
    requires
        shape.len() >= 2,
        rows_fit(shape@),
    ensures
        plan.of(shape@),
{
    let seq: usize = shape[shape.len() - 2];
    let heads: usize = count_heads(shape);
    assert(heads * seq >= 0) by (nonlinear_arith);
    let total_rows: u32 = truncate(heads * seq);
    LaunchPlan {
        total_rows,
        head_dim: HEAD_DIM,
        prepass_count: (group_count(total_rows, PREPASS_THREADS), 1, 1),
        prepass_dim: cube_dim_1d(PREPASS_THREADS),
        gradient_count: (truncate(heads), truncate(seq / BLOCK), 1),
        gradient_dim: cube_dim_2d(PLANE_DIM, NUM_PLANES),
        seq: truncate(seq),
    }
}

/// A product of sizes is not negative.
proof fn lemma_volume_nonnegative(dims: Seq<usize>)
    ensures
        volume(dims) >= 0,
    decreases dims.len(),
{
    if dims.len() > 0 {
        lemma_volume_nonnegative(dims.drop_last());
        assert(volume(dims.drop_last()) * dims.last() >= 0) by (nonlinear_arith)
            requires
                volume(dims.drop_last()) >= 0,
                dims.last() >= 0,
        ;
    }
}

/// Runs the query-gradient kernel on `heads` times `blocks` cubes.
pub fn launch_dq<Q: Copy, D: Copy, A: Arithmetic<Q, D>>(
    math: &A,
    q: &Vec<Q>,
    k: &Vec<Q>,
    v: &Vec<Q>,
    do_: &Vec<D>,
    lse: &Vec<u32>,
    d: &Vec<u32>,
    dq: &mut Vec<u32>,
    seq: u32,
    scale: u32,
    causal: bool,
    heads: u32,
    blocks: u32,
)
    requires
        math.ready(),
        heads > 0 ==> blocks * BLOCK == seq,
        element(heads as int, seq as int, 0, 0) <= q.len(),
        element(heads as int, seq as int, 0, 0) <= k.len(),
        element(heads as int, seq as int, 0, 0) <= v.len(),
        element(heads as int, seq as int, 0, 0) <= do_.len(),
        element(heads as int, seq as int, 0, 0) <= old(dq).len(),
        heads * seq <= lse.len(),
        heads * seq <= d.len(),
    ensures
        final(dq).len() == old(dq).len(),
        forall|j: int|
            element(heads as int, seq as int, 0, 0) <= j < old(dq).len() ==> #[trigger] final(
                dq)@[j] == old(dq)@[j],
        forall|m: Model<Q, D>| #[trigger]
            math.computes(m) ==> problem(q@, k@, v@, do_@, lse@, d@, seq, scale, causal).dq_written(
                m,
                heads as int,
                final(dq)@,
            ),
{
    let ghost p = problem(q@, k@, v@, do_@, lse@, d@, seq, scale, causal);
    let ghost dq_before = dq@;
    for bh in 0..heads
        invariant
            math.ready(),
            heads > 0 ==> blocks * BLOCK == seq,
            p == problem(q@, k@, v@, do_@, lse@, d@, seq, scale, causal),
            element(heads as int, seq as int, 0, 0) <= q.len(),
            element(heads as int, seq as int, 0, 0) <= k.len(),
            element(heads as int, seq as int, 0, 0) <= v.len(),
            element(heads as int, seq as int, 0, 0) <= do_.len(),
            heads * seq <= lse.len(),
            heads * seq <= d.len(),
            element(heads as int, seq as int, 0, 0) <= dq.len(),
            dq.len() == dq_before.len(),
            forall|j: int|
                element(heads as int, seq as int, 0, 0) <= j < dq_before.len() ==> #[trigger] dq@[j]
                    == dq_before[j],
            forall|m: Model<Q, D>, b: int, row: int, col: int|
                #![trigger math.computes(m), element(b, seq as int, row, col)]
                math.computes(m) && 0 <= b && b < bh && 0 <= row < seq && 0 <= col < HEAD_DIM
                    ==> dq@[element(b, seq as int, row, col)] == p.dq_value(m, b, row, col),
    {
        proof {
            lemma_heads_ordered(bh + 1, heads as int, seq as int);
        }
        for block in 0..blocks
            invariant
                math.ready(),
                blocks * BLOCK == seq,
                p == problem(q@, k@, v@, do_@, lse@, d@, seq, scale, causal),
                element(heads as int, seq as int, 0, 0) <= q.len(),
                element(heads as int, seq as int, 0, 0) <= k.len(),
                element(heads as int, seq as int, 0, 0) <= v.len(),
                element(heads as int, seq as int, 0, 0) <= do_.len(),
                heads * seq <= lse.len(),
                heads * seq <= d.len(),
                bh < heads,
                element(bh + 1, seq as int, 0, 0) <= element(heads as int, seq as int, 0, 0),
                (bh + 1) * seq <= heads * seq,
                element(heads as int, seq as int, 0, 0) <= dq.len(),
                dq.len() == dq_before.len(),
                forall|j: int|
                    element(heads as int, seq as int, 0, 0) <= j < dq_before.len() ==> #[trigger] dq@[j]
                        == dq_before[j],
                forall|m: Model<Q, D>, b: int, row: int, col: int|
                    #![trigger math.computes(m), element(b, seq as int, row, col)]
                    math.computes(m) && 0 <= b && (b < bh || b == bh && row < block * BLOCK) && 0 <= row
                        < seq && 0 <= col < HEAD_DIM
                        ==> dq@[element(b, seq as int, row, col)] == p.dq_value(m, b, row, col),
        {
            flash_backward_dq_kernel(
                math, q, k, v, do_, lse, d, dq, seq, scale, causal, bh, block,
            );
            proof {
                lemma_block_before(bh as int, heads as int, seq as int, (block + 1) * BLOCK);
                assert forall|m: Model<Q, D>, b: int, row: int, col: int|
                    #![trigger math.computes(m), element(b, seq as int, row, col)]
                    math.computes(m) && 0 <= b && (b < bh || b == bh && row < (block + 1) * BLOCK)
                        && 0 <= row < seq && 0 <= col < HEAD_DIM implies dq@[element(
                    b,
                    seq as int,
                    row,
                    col,
                )] == p.dq_value(m, b, row, col) by {
                    lemma_element_block(
                        b,
                        bh as int,
                        seq as int,
                        row,
                        col,
                        block * BLOCK,
                        (block + 1) * BLOCK,
                    );
                    lemma_element_in(b, heads as int, seq as int, row, col);
                }
            }
        }
    }
}

/// Runs the key- and value-gradient kernel on `heads` times `blocks` cubes.
pub fn launch_dkdv<Q: Copy, D: Copy, A: Arithmetic<Q, D>>(
    math: &A,
    q: &Vec<Q>,
    k: &Vec<Q>,
    v: &Vec<Q>,
    do_: &Vec<D>,
    lse: &Vec<u32>,
    d: &Vec<u32>,
    dk: &mut Vec<u32>,
    dv: &mut Vec<u32>,
    seq: u32,
    scale: u32,
    causal: bool,
    heads: u32,
    blocks: u32,
)
    requires
        math.ready(),
        heads > 0 ==> blocks * BLOCK == seq,
        element(heads as int, seq as int, 0, 0) <= q.len(),
        element(heads as int, seq as int, 0, 0) <= k.len(),
        element(heads as int, seq as int, 0, 0) <= v.len(),
        element(heads as int, seq as int, 0, 0) <= do_.len(),
        element(heads as int, seq as int, 0, 0) <= old(dk).len(),
        element(heads as int, seq as int, 0, 0) <= old(dv).len(),
        heads * seq <= lse.len(),
        heads * seq <= d.len(),
    ensures
        final(dk).len() == old(dk).len(),
        forall|j: int|
            element(heads as int, seq as int, 0, 0) <= j < old(dk).len() ==> #[trigger] final(
                dk)@[j] == old(dk)@[j],
        forall|m: Model<Q, D>| #[trigger]
            math.computes(m) ==> problem(q@, k@, v@, do_@, lse@, d@, seq, scale, causal).dk_written(
                m,
                heads as int,
                final(dk)@,
            ),
        final(dv).len() == old(dv).len(),
        forall|j: int|
            element(heads as int, seq as int, 0, 0) <= j < old(dv).len() ==> #[trigger] final(
                dv)@[j] == old(dv)@[j],
        forall|m: Model<Q, D>| #[trigger]
            math.computes(m) ==> problem(q@, k@, v@, do_@, lse@, d@, seq, scale, causal).dv_written(
                m,
                heads as int,
                final(dv)@,
            ),
{
    let ghost p = problem(q@, k@, v@, do_@, lse@, d@, seq, scale, causal);
    let ghost dk_before = dk@;
    let ghost dv_before = dv@;
    for bh in 0..heads
        invariant
            math.ready(),
            heads > 0 ==> blocks * BLOCK == seq,
            p == problem(q@, k@, v@, do_@, lse@, d@, seq, scale, causal),
            element(heads as int, seq as int, 0, 0) <= q.len(),
            element(heads as int, seq as int, 0, 0) <= k.len(),
            element(heads as int, seq as int, 0, 0) <= v.len(),
            element(heads as int, seq as int, 0, 0) <= do_.len(),
            heads * seq <= lse.len(),
            heads * seq <= d.len(),
            element(heads as int, seq as int, 0, 0) <= dk.len(),
            dk.len() == dk_before.len(),
            forall|j: int|
                element(heads as int, seq as int, 0, 0) <= j < dk_before.len() ==> #[trigger] dk@[j]
                    == dk_before[j],
            forall|m: Model<Q, D>, b: int, row: int, col: int|
                #![trigger math.computes(m), element(b, seq as int, row, col)]
                math.computes(m) && 0 <= b && b < bh && 0 <= row < seq && 0 <= col < HEAD_DIM
                    ==> dk@[element(b, seq as int, row, col)] == p.dk_value(m, b, row, col),
            element(heads as int, seq as int, 0, 0) <= dv.len(),
            dv.len() == dv_before.len(),
            forall|j: int|
                element(heads as int, seq as int, 0, 0) <= j < dv_before.len() ==> #[trigger] dv@[j]
                    == dv_before[j],
            forall|m: Model<Q, D>, b: int, row: int, col: int|
                #![trigger math.computes(m), element(b, seq as int, row, col)]
                math.computes(m) && 0 <= b && b < bh && 0 <= row < seq && 0 <= col < HEAD_DIM
                    ==> dv@[element(b, seq as int, row, col)] == p.dv_value(m, b, row, col),
    {
        proof {
            lemma_heads_ordered(bh + 1, heads as int, seq as int);
        }
        for block in 0..blocks
            invariant
                math.ready(),
                blocks * BLOCK == seq,
                p == problem(q@, k@, v@, do_@, lse@, d@, seq, scale, causal),
                element(heads as int, seq as int, 0, 0) <= q.len(),
                element(heads as int, seq as int, 0, 0) <= k.len(),
                element(heads as int, seq as int, 0, 0) <= v.len(),
                element(heads as int, seq as int, 0, 0) <= do_.len(),
                heads * seq <= lse.len(),
                heads * seq <= d.len(),
                bh < heads,
                element(bh + 1, seq as int, 0, 0) <= element(heads as int, seq as int, 0, 0),
                (bh + 1) * seq <= heads * seq,
                element(heads as int, seq as int, 0, 0) <= dk.len(),
                dk.len() == dk_before.len(),
                forall|j: int|
                    element(heads as int, seq as int, 0, 0) <= j < dk_before.len() ==> #[trigger] dk@[j]
                        == dk_before[j],
                forall|m: Model<Q, D>, b: int, row: int, col: int|
                    #![trigger math.computes(m), element(b, seq as int, row, col)]
                    math.computes(m) && 0 <= b && (b < bh || b == bh && row < block * BLOCK) && 0 <= row
                        < seq && 0 <= col < HEAD_DIM
                        ==> dk@[element(b, seq as int, row, col)] == p.dk_value(m, b, row, col),
                element(heads as int, seq as int, 0, 0) <= dv.len(),
                dv.len() == dv_before.len(),
                forall|j: int|
                    element(heads as int, seq as int, 0, 0) <= j < dv_before.len() ==> #[trigger] dv@[j]
                        == dv_before[j],
                forall|m: Model<Q, D>, b: int, row: int, col: int|
                    #![trigger math.computes(m), element(b, seq as int, row, col)]
                    math.computes(m) && 0 <= b && (b < bh || b == bh && row < block * BLOCK) && 0 <= row
                        < seq && 0 <= col < HEAD_DIM
                        ==> dv@[element(b, seq as int, row, col)] == p.dv_value(m, b, row, col),
        {
            flash_backward_dkdv_kernel(
                math, q, k, v, do_, lse, d, dk, dv, seq, scale, causal, bh, block,
            );
            proof {
                lemma_block_before(bh as int, heads as int, seq as int, (block + 1) * BLOCK);
                assert forall|m: Model<Q, D>, b: int, row: int, col: int|
                    #![trigger math.computes(m), element(b, seq as int, row, col)]
                    math.computes(m) && 0 <= b && (b < bh || b == bh && row < (block + 1) * BLOCK)
                        && 0 <= row < seq && 0 <= col < HEAD_DIM implies dk@[element(
                    b,
                    seq as int,
                    row,
                    col,
                )] == p.dk_value(m, b, row, col) by {
                    lemma_element_block(
                        b,
                        bh as int,
                        seq as int,
                        row,
                        col,
                        block * BLOCK,
                        (block + 1) * BLOCK,
                    );
                    lemma_element_in(b, heads as int, seq as int, row, col);
                }
                assert forall|m: Model<Q, D>, b: int, row: int, col: int|
                    #![trigger math.computes(m), element(b, seq as int, row, col)]
                    math.computes(m) && 0 <= b && (b < bh || b == bh && row < (block + 1) * BLOCK)
                        && 0 <= row < seq && 0 <= col < HEAD_DIM implies dv@[element(
                    b,
                    seq as int,
                    row,
                    col,
                )] == p.dv_value(m, b, row, col) by {
                    lemma_element_block(
                        b,
                        bh as int,
                        seq as int,
                        row,
                        col,
                        block * BLOCK,
                        (block + 1) * BLOCK,
                    );
                    lemma_element_in(b, heads as int, seq as int, row, col);
                }
            }
        }
    }
}

/// The volume of a supported shape is the number of its rows times the head
/// dimension.
proof fn lemma_shape_volume(shape: Seq<usize>)
    requires
        shape.len() >= 2,
        head_dim(shape) == HEAD_DIM,
    ensures
        volume(shape) == batch_heads(shape) * seq_len(shape) * HEAD_DIM,
{
    let n = shape.len() as int;
    assert(shape.drop_last().drop_last() =~= shape.take(n - 2));
    assert(shape.drop_last().last() == shape[n - 2]);
    assert(volume(shape.drop_last()) == batch_heads(shape) * seq_len(shape));
    assert(volume(shape) == volume(shape.drop_last()) * head_dim(shape));
}

/// The volume of the shape of row statistics is the number of rows.
proof fn lemma_stats_volume(shape: Seq<usize>)
    requires
        shape.len() == 2,
    ensures
        volume(shape) == shape[0] * shape[1],
{
    assert(shape.drop_last().last() == shape[0]);
    assert(volume(shape.drop_last().drop_last()) == 1);
    assert(volume(shape.drop_last()) == shape[0]);
}

/// The tensor-core backward pass: row sums, then query gradients, then key and
/// value gradients.
///
/// The inputs are `[B, H, N, 64]` with `N` a multiple of 64 and all of the shape
/// of the queries; `lse` is `[B·H, N]`. `d` holds an element for each row, or
/// more, and `dq`, `dk` and `dv` as many as the queries, in whatever shape; they
/// are written whatever they held. Unsupported shapes are an error and leave
/// them as they were.
///
/// Any number of dimensions may precede the last two. The kernels count rows in
/// 32 bits, so that there are no more of them than that.
pub fn flash_attention_backward_tiled<Q: Copy, D: Copy, A: Arithmetic<Q, D>>(
    math: &A,
    q: &TensorBinding<Q>,
    k: &TensorBinding<Q>,
    v: &TensorBinding<Q>,
    o: &TensorBinding<Q>,
    do_: &TensorBinding<D>,
    lse: &TensorBinding<u32>,
    d: &mut TensorBinding<u32>,
    dq: &mut TensorBinding<u32>,
    dk: &mut TensorBinding<u32>,
    dv: &mut TensorBinding<u32>,
    scale: u32,
    causal: bool,
) -> (r: Result<(), AttentionSetupError>)
    requires
        math.ready(),
        setup_error(q.shape@, k.shape@, v.shape@) is None ==> batch_heads(q.shape@) * seq_len(
            q.shape@,
        ) <= usize::MAX,
        launch_error(
            q.shape@,
            k.shape@,
            v.shape@,
            o.shape@,
            do_.shape@,
            lse.shape@,
            old(d).shape@,
            old(dq).shape@,
            old(dk).shape@,
            old(dv).shape@,
        ) is None ==> {
            &&& q.wf()
            &&& k.wf()
            &&& v.wf()
            &&& o.wf()
            &&& do_.wf()
            &&& lse.wf()
            &&& old(d).wf()
            &&& old(dq).wf()
            &&& old(dk).wf()
            &&& old(dv).wf()
            &&& rows_fit(q.shape@)
            &&& batch_heads(q.shape@) * seq_len(q.shape@) <= u32::MAX
        },
    ensures
        final(d).shape == old(d).shape,
        final(dq).shape == old(dq).shape,
        final(dk).shape == old(dk).shape,
        final(dv).shape == old(dv).shape,
        final(d).data.len() == old(d).data.len(),
        final(dq).data.len() == old(dq).data.len(),
        final(dk).data.len() == old(dk).data.len(),
        final(dv).data.len() == old(dv).data.len(),
        match r {
            Ok(()) => launch_error(
                q.shape@,
                k.shape@,
                v.shape@,
                o.shape@,
                do_.shape@,
                lse.shape@,
                old(d).shape@,
                old(dq).shape@,
                old(dk).shape@,
                old(dv).shape@,
            ) is None,
            Err(e) => launch_error(
                q.shape@,
                k.shape@,
                v.shape@,
                o.shape@,
                do_.shape@,
                lse.shape@,
                old(d).shape@,
                old(dq).shape@,
                old(dk).shape@,
                old(dv).shape@,
            ) == Some(e.reason()),
        },
        r is Ok ==> {
            &&& q.shape@.len() >= 2
            &&& q.shape@[q.shape@.len() - 1] == 64
            &&& q.shape@[q.shape@.len() - 2] > 0
            &&& q.shape@[q.shape@.len() - 2] % 64 == 0
            &&& k.shape@ == q.shape@
            &&& v.shape@ == q.shape@
        },
        r is Err ==> {
            &&& *final(d) == *old(d)
            &&& *final(dq) == *old(dq)
            &&& *final(dk) == *old(dk)
            &&& *final(dv) == *old(dv)
        },
        r is Ok ==> forall|row: int|
            batch_heads(q.shape@) * seq_len(q.shape@) <= row < old(d).data.len()
                ==> #[trigger] final(d).data@[row] == old(d).data@[row],
        forall|m: Model<Q, D>, row: int|
            #![trigger math.computes(m), final(d).data@[row]]
            r is Ok && math.computes(m) && 0 <= row < batch_heads(q.shape@) * seq_len(q.shape@)
                ==> final(d).data@[row] == row_sum(
                m,
                o.data@,
                do_.data@,
                row * HEAD_DIM,
                HEAD_DIM as nat,
            ),
        forall|m: Model<Q, D>| #[trigger]
            math.computes(m) && r is Ok ==> {
                let p = problem(
                    q.data@,
                    k.data@,
                    v.data@,
                    do_.data@,
                    lse.data@,
                    final(d).data@,
                    seq_len(q.shape@) as u32,
                    scale,
                    causal,
                );
                &&& p.dq_written(m, batch_heads(q.shape@), final(dq).data@)
                &&& p.dk_written(m, batch_heads(q.shape@), final(dk).data@)
                &&& p.dv_written(m, batch_heads(q.shape@), final(dv).data@)
            },
        r is Ok ==> forall|j: int|
            volume(q.shape@) <= j < old(dq).data.len() ==> #[trigger] final(dq).data@[j] == old(
                dq).data@[j],
        r is Ok ==> forall|j: int|
            volume(q.shape@) <= j < old(dk).data.len() ==> #[trigger] final(dk).data@[j] == old(
                dk).data@[j],
        r is Ok ==> forall|j: int|
            volume(q.shape@) <= j < old(dv).data.len() ==> #[trigger] final(dv).data@[j] == old(
                dv).data@[j],
{
    if let Err(e) = check_shapes(&q.shape, &k.shape, &v.shape) {
        return Err(e);
    }
    if let Err(e) = check_operands(
        &q.shape,
        &o.shape,
        &do_.shape,
        &lse.shape,
        &d.shape,
        &dq.shape,
        &dk.shape,
        &dv.shape,
    ) {
        return Err(e);
    }
    let plan = plan_launch(&q.shape);
    let ghost all = batch_heads(q.shape@);
    let ghost seq = seq_len(q.shape@);
    proof {
        lemma_volume_nonnegative(q.shape@.take(q.shape@.len() - 2));
        lemma_shape_volume(q.shape@);
        lemma_stats_volume(lse.shape@);
        assert(all * seq >= 0) by (nonlinear_arith)
            requires
                all >= 0,
                seq >= 0,
        ;
        assert(all <= all * seq) by (nonlinear_arith)
            requires
                all >= 0,
                seq >= 1,
        ;
        assert(all > 0 ==> seq <= all * seq) by (nonlinear_arith)
            requires
                all >= 0,
                seq >= 0,
        ;
        assert(all == 0 ==> all * seq == 0) by (nonlinear_arith);
        assert(all == 0 ==> plan.gradient_count.0 * plan.seq == 0) by (nonlinear_arith)
            requires
                plan.gradient_count.0 == all,
        ;
        assert(plan.gradient_count.0 * plan.seq == all * seq);
        assert(plan.total_rows <= plan.prepass_count.0 * plan.prepass_dim.0);
    }

    launch_prepass(
        math,
        &o.data,
        &do_.data,
        &mut d.data,
        plan.total_rows,
        plan.head_dim,
        plan.prepass_count.0,
        plan.prepass_dim.0,
    );
    launch_dq(
        math,
        &q.data,
        &k.data,
        &v.data,
        &do_.data,
        &lse.data,
        &d.data,
        &mut dq.data,
        plan.seq,
        scale,
        causal,
        plan.gradient_count.0,
        plan.gradient_count.1,
    );
    launch_dkdv(
        math,
        &q.data,
        &k.data,
        &v.data,
        &do_.data,
        &lse.data,
        &d.data,
        &mut dk.data,
        &mut dv.data,
        plan.seq,
        scale,
        causal,
        plan.gradient_count.0,
        plan.gradient_count.1,
    );
    Ok(())
}

} // verus!
