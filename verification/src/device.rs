//! The shapes of a cube, from `cubecl`.

use vstd::prelude::*;

verus! {

/// Calls `cubecl::CubeDim::new_1d`, which puts `x` threads along the first
/// axis of a cube and one along each of the others.
#[verifier::external_body]
pub(crate) fn cube_dim_1d(x: u32) -> (r: (u32, u32, u32))
    ensures
        r == (x, 1u32, 1u32),
{
    cubecl::CubeDim::new_1d(x).into()
}

/// Calls `cubecl::CubeDim::new_2d`, which puts `x` threads along the first
/// axis of a cube, `y` along the second and one along the third.
#[verifier::external_body]
pub(crate) fn cube_dim_2d(x: u32, y: u32) -> (r: (u32, u32, u32))
    ensures
        r == (x, y, 1u32),
{
    cubecl::CubeDim::new_2d(x, y).into()
}

} // verus!
