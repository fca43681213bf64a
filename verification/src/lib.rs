//! Tensor-core FlashAttention backward.
//!
//! For `head_dim == val_dim == 64`, a sequence that is a multiple of 64, and
//! square self-attention. Two kernels — the query gradient (query-outer) and
//! the key and value gradients (key-outer) — recompute score and
//! weight-gradient tiles and never hold a `[seq, seq]` matrix. A row-sum
//! kernel runs before them.
//!
//! The kernels here are the block programs of the device kernels, thread by
//! thread: a cube is one call, and within it threads, lanes and planes take
//! their turns between the points where the device synchronizes. [`laws`]
//! shows that their order does not matter.
//!
//! - [`math`]: the operations on numbers, which the kernels are parametric in;
//! - [`geometry`]: tile sizes, tensor indices, the causal mask and the sweeps;
//! - [`attention`]: what the gradients are, tile by tile;
//! - [`tile`], [`stage`], [`lanes`], [`blocks`], [`sweep`]: tiles in memory,
//!   staging, the share of each thread and lane, and the progress of a sweep;
//! - [`prepass`], [`dq`], [`dkdv`]: the three kernels;
//! - [`launch`]: the checks, the grids and the whole backward pass;
//! - [`meaning`], [`memory`], [`shapes`]: what the gradients, the blocks in
//!   memory and the checks are, written out over arrays and numbers;
//! - [`laws`]: who writes what, in which order, and what the sweeps skip;
//! - [`locality`]: what a gradient depends on, bit for bit;
//! - [`exact`], [`algebra`], [`sums`]: what the gradients are, and how they
//!   change with the inputs, where the tile products do not round;
//! - [`rounding`]: what holds of the gradients although they do.

mod device;

pub mod algebra;
pub mod attention;
pub mod blocks;
pub mod dkdv;
pub mod dq;
pub mod error;
pub mod exact;
pub mod geometry;
pub mod lanes;
pub mod launch;
pub mod laws;
pub mod locality;
pub mod math;
pub mod meaning;
pub mod memory;
pub mod prepass;
pub mod rounding;
pub mod shapes;
pub mod stage;
pub mod sums;
pub mod sweep;
pub mod tile;
