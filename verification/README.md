# cubek_attention

Tensor-core FlashAttention backward: row sums, query gradients, and key and
value gradients for `[B, H, N, 64]` inputs with `N` a multiple of 64.

`src/` holds the three kernels, the causal sweeps, the launch plan and the
shape checks, with their contracts. The kernels are written over the bits of
fp32 and bf16 numbers and are parametric in the operations on them
(`math::Arithmetic`), so what they promise holds whatever the device's rounding
is. `laws` states that threads, lanes, planes and cubes can run in any order and
that the sweeps skip only masked pairs, and `locality` what each gradient depends
on: a head stands alone, and the causal mask takes nothing from the last query
and the first key. `exact` states what the gradients are where the tile products
do not round; `algebra` draws the consequences (causality row by row, the order
of keys and queries, linearity, the sums that the forward pass fixes), and
`rounding` states what remains of them where they do.

`app/` holds the device kernels in the `cubecl` device language and the function
that launches them after the checks and with the grids of `src/`.
