//! Which shapes are accepted, what is said of the others, and how the kernels
//! are launched.

use vstd::prelude::*;
use crate::error::{decimal, AttentionSetupError};
use crate::launch::{
    batch_heads, head_dim, launch_error, operand_error, rows_fit, seq_len, setup_error, volume,
    LaunchPlan, TensorBinding,
};

verus! {

/// A shape without dimensions holds one element, and every further dimension
/// multiplies the elements.
pub proof fn dimensions_multiply(dims: Seq<usize>, n: usize)
    ensures
        volume(Seq::<usize>::empty()) == 1,
        volume(dims.push(n)) == volume(dims) * n,
{
    assert(dims.push(n).drop_last() =~= dims);
}

/// The last two dimensions of a shape are the sequence and the head dimension,
/// and those before them count the heads.
pub proof fn a_shape_counts_heads_and_rows(lead: Seq<usize>, n: usize, dim: usize)
    ensures
        batch_heads(lead.push(n).push(dim)) == volume(lead),
        seq_len(lead.push(n).push(dim)) == n,
        head_dim(lead.push(n).push(dim)) == dim,
{
    assert(lead.push(n).push(dim).take(lead.len() as int) =~= lead);
}

/// Queries, keys and values are supported if and only if they have the same
/// shape of at least two dimensions, the last of which is 64 and the one before
/// a positive multiple of 64, however long the sequence is and however many
/// heads there are.
pub proof fn supported_shapes(q: Seq<usize>, k: Seq<usize>, v: Seq<usize>)
    ensures
        setup_error(q, k, v) is None <==> {
            &&& q.len() >= 2
            &&& q[q.len() - 1] == 64
            &&& q[q.len() - 2] > 0
            &&& q[q.len() - 2] % 64 == 0
            &&& k == q
            &&& v == q
        },
{
}

/// Why queries, keys and values are not supported: the first requirement that
/// they do not meet, with the number that does not meet it.
pub proof fn reasons_for_shapes(q: Seq<usize>, k: Seq<usize>, v: Seq<usize>)
    ensures
        q.len() < 2 ==> setup_error(q, k, v) == Some(
            "tiled attention backward requires rank >= 2, got "@ + decimal(q.len()),
        ),
        q.len() >= 2 && q[q.len() - 1] != 64 ==> setup_error(q, k, v) == Some(
            "tiled attention backward requires head_dim == 64, got "@ + decimal(
                q[q.len() - 1] as nat,
            ),
        ),
        q.len() >= 2 && q[q.len() - 1] == 64 && (q[q.len() - 2] == 0 || q[q.len() - 2] % 64 != 0)
            ==> setup_error(q, k, v) == Some(
            "tiled attention backward requires seq % 64 == 0, got "@ + decimal(
                q[q.len() - 2] as nat,
            ),
        ),
        q.len() >= 2 && q[q.len() - 1] == 64 && q[q.len() - 2] > 0 && q[q.len() - 2] % 64 == 0 && (k
            != q || v != q) ==> setup_error(q, k, v) == Some(
            "tiled attention backward requires square self-attention"@,
        ),
{
}

/// The other tensors are supported if and only if the outputs and output
/// gradients have the shape of the queries, the log-sum-exps are `[B·H, N]`,
/// there is a row sum for every row, and the gradients have as many elements as
/// the queries.
pub proof fn supported_operands(
    q: Seq<usize>,
    o: Seq<usize>,
    do_: Seq<usize>,
    lse: Seq<usize>,
    d: Seq<usize>,
    dq: Seq<usize>,
    dk: Seq<usize>,
    dv: Seq<usize>,
)
    ensures
        operand_error(q, o, do_, lse, d, dq, dk, dv) is None <==> {
            &&& o == q
            &&& do_ == q
            &&& lse.len() == 2
            &&& lse[0] == volume(q.take(q.len() - 2))
            &&& lse[1] == q[q.len() - 2]
            &&& volume(d) >= volume(q.take(q.len() - 2)) * q[q.len() - 2]
            &&& volume(dq) == volume(q)
            &&& volume(dk) == volume(q)
            &&& volume(dv) == volume(q)
        },
{
}

/// Why the other tensors are not supported: the first requirement that they do
/// not meet.
pub proof fn reasons_for_operands(
    q: Seq<usize>,
    o: Seq<usize>,
    do_: Seq<usize>,
    lse: Seq<usize>,
    d: Seq<usize>,
    dq: Seq<usize>,
    dk: Seq<usize>,
    dv: Seq<usize>,
)
    ensures
        ({
            let heads = volume(q.take(q.len() - 2));
            let n = q[q.len() - 2];
            let same = o == q && do_ == q;
            let stats = lse.len() == 2 && lse[0] == heads && lse[1] == n;
            let sums = volume(d) >= heads * n;
            let sizes = volume(dq) == volume(q) && volume(dk) == volume(q) && volume(dv) == volume(
                q,
            );
            let error = operand_error(q, o, do_, lse, d, dq, dk, dv);
            &&& !same ==> error == Some(
                "tiled attention backward requires o and do_ of the shape of q"@,
            )
            &&& same && !stats ==> error == Some(
                "tiled attention backward requires lse of shape [B*H, N]"@,
            )
            &&& same && stats && !sums ==> error == Some(
                "tiled attention backward requires d to hold an element for each row"@,
            )
            &&& same && stats && sums && !sizes ==> error == Some(
                "tiled attention backward requires dq, dk and dv of the size of q"@,
            )
        }),
{
}

/// A launch is refused for its queries, keys and values first, and then for the
/// other tensors.
pub proof fn refusals_come_in_order(
    q: Seq<usize>,
    k: Seq<usize>,
    v: Seq<usize>,
    o: Seq<usize>,
    do_: Seq<usize>,
    lse: Seq<usize>,
    d: Seq<usize>,
    dq: Seq<usize>,
    dk: Seq<usize>,
    dv: Seq<usize>,
)
    ensures
        setup_error(q, k, v) is Some ==> launch_error(q, k, v, o, do_, lse, d, dq, dk, dv)
            == setup_error(q, k, v),
        setup_error(q, k, v) is None ==> launch_error(q, k, v, o, do_, lse, d, dq, dk, dv)
            == operand_error(q, o, do_, lse, d, dq, dk, dv),
{
}

/// What a launch asks of its tensors beyond their shapes: data for every
/// element, and rows that a machine word can count.
pub proof fn demands_of_a_launch<T>(t: TensorBinding<T>, shape: Seq<usize>)
    ensures
        t.wf() <==> volume(t.shape@) <= t.data@.len(),
        (forall|n: int|
            0 <= n <= shape.len() - 2 ==> #[trigger] volume(shape.take(n)) <= usize::MAX) && volume(
            shape.take(shape.len() - 2),
        ) * shape[shape.len() - 2] <= usize::MAX ==> rows_fit(shape),
{
}

/// The plan of a launch: 128 threads of the row-sum kernel to a cube, as few
/// cubes as hold a thread for each row, and for the gradient kernels a cube of
/// four planes of 32 lanes for each head and block of 64 rows. Everything is
/// counted in 32 bits.
pub proof fn a_plan_counts_its_cubes(plan: LaunchPlan, shape: Seq<usize>)
    requires
        plan.of(shape),
        0 <= volume(shape.take(shape.len() - 2)) * shape[shape.len() - 2],
    ensures
        plan.total_rows == (volume(shape.take(shape.len() - 2)) * shape[shape.len() - 2])
            % 0x1_0000_0000,
        plan.head_dim == 64,
        plan.total_rows <= plan.prepass_count.0 * 128 < plan.total_rows + 128,
        plan.prepass_count.1 == 1 && plan.prepass_count.2 == 1,
        plan.prepass_dim.0 == 128 && plan.prepass_dim.1 == 1 && plan.prepass_dim.2 == 1,
        plan.gradient_count.0 == volume(shape.take(shape.len() - 2)) % 0x1_0000_0000,
        plan.gradient_count.1 == (shape[shape.len() - 2] as int / 64) % 0x1_0000_0000,
        plan.gradient_count.2 == 1,
        plan.gradient_dim.0 == 32 && plan.gradient_dim.1 == 4 && plan.gradient_dim.2 == 1,
        plan.seq == shape[shape.len() - 2] as int % 0x1_0000_0000,
{
}

/// The decimal notation of a number consists of digits, starts with `0` only
/// for zero, and reads as the number: `value` is what the digits read so far
/// are worth.
pub proof fn decimals_read_as_their_number(n: nat, value: spec_fn(int) -> int)
    requires
        value(0) == 0,
        forall|i: int|
            0 <= i < decimal(n).len() ==> #[trigger] value(i + 1) == value(i) * 10 + (decimal(
                n,
            )[i] as int - 48),
    ensures
        decimal(n).len() >= 1,
        forall|i: int| 0 <= i < decimal(n).len() ==> '0' <= #[trigger] decimal(n)[i] <= '9',
        n > 0 ==> decimal(n)[0] != '0',
        n == 0 ==> decimal(n).len() == 1,
        value(decimal(n).len() as int) == n,
    decreases n,
{
    if n < 10 {
        assert(value(0int + 1) == value(0) * 10 + (decimal(n)[0] as int - 48));
    } else {
        let rest = decimal(n / 10);
        let last = decimal(n).len() - 1;
        assert(decimal(n) =~= rest.push(decimal(n)[last]));
        assert forall|i: int| 0 <= i < rest.len() implies #[trigger] value(i + 1) == value(i) * 10 + (
        rest[i] as int - 48) by {
            assert(decimal(n)[i] == rest[i]);
        }
        decimals_read_as_their_number(n / 10, value);
        assert(value(last + 1) == value(last) * 10 + (decimal(n)[last] as int - 48));
        assert(rest.len() == last);
        assert forall|i: int| 0 <= i < decimal(n).len() implies '0' <= #[trigger] decimal(n)[i]
            <= '9' by {
            if i < last {
                assert(decimal(n)[i] == rest[i]);
            }
        }
        assert(decimal(n)[0] == rest[0]);
    }
}

/// The reason of an error is the text that it was made of.
pub proof fn an_error_keeps_its_reason(text: String)
    ensures
        AttentionSetupError::InvalidConfig(text).reason() == text@,
{
}

} // verus!
