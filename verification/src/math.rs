//! The element arithmetic that the kernels are parametric in.
//!
//! The kernels move data and decide what is combined with what; how two
//! numbers are added, multiplied, rounded or exponentiated is up to the device.
//! An fp32 number is held as its 32 bits and a bf16 number as its 16 bits, and
//! whoever runs a kernel hands in the operations on them. Everything the
//! kernels promise holds for every choice of these operations.

use vstd::prelude::*;

verus! {

/// The bits of the fp32 number `0.0`.
pub const ZERO: u32 = 0;

/// What the operations of an [`Arithmetic`] compute, as total functions.
///
/// `Q` is the element type of the queries, keys, values and outputs, `D` that
/// of the output gradient.
#[verifier::reject_recursive_types(Q)]
#[verifier::reject_recursive_types(D)]
pub ghost struct Model<Q, D> {
    /// An input element in fp32.
    pub widen_q: spec_fn(Q) -> u32,
    /// An output-gradient element in fp32.
    pub widen_do: spec_fn(D) -> u32,
    /// An input element, rounded to bf16.
    pub narrow_q: spec_fn(Q) -> u16,
    /// An output-gradient element, rounded to bf16.
    pub narrow_do: spec_fn(D) -> u16,
    /// An fp32 number, rounded to bf16.
    pub narrow: spec_fn(u32) -> u16,
    /// The sum of two fp32 numbers.
    pub plus: spec_fn(u32, u32) -> u32,
    /// The difference of two fp32 numbers.
    pub minus: spec_fn(u32, u32) -> u32,
    /// The product of two fp32 numbers.
    pub times: spec_fn(u32, u32) -> u32,
    /// The exponential of an fp32 number.
    pub exp: spec_fn(u32) -> u32,
    /// `(a, b, c) -> a · b + c` on 16×16 tiles in row-major order.
    pub mma: spec_fn(Seq<u16>, Seq<u16>, Seq<u32>) -> Seq<u32>,
}

impl<Q, D> Model<Q, D> {
    /// One term of a row sum: `sum + o · do_`.
    pub open spec fn row_step(self, sum: u32, o: Q, do_: D) -> u32 {
        (self.plus)(sum, (self.times)((self.widen_q)(o), (self.widen_do)(do_)))
    }

    /// The softmax weight `exp(s · scale - lse)`.
    pub open spec fn prob(self, s: u32, scale: u32, lse: u32) -> u32 {
        (self.exp)((self.minus)((self.times)(s, scale), lse))
    }

    /// The score gradient `p · (dp - d) · scale`.
    pub open spec fn grad(self, p: u32, dp: u32, d: u32, scale: u32) -> u32 {
        (self.times)((self.times)(p, (self.minus)(dp, d)), scale)
    }
}

/// The operations on numbers that the kernels call.
pub trait Arithmetic<Q, D> {
    /// Whether every operation can be called on every argument.
    spec fn ready(&self) -> bool;

    /// Whether every result of every operation is the one that `m` names.
    spec fn computes(&self, m: Model<Q, D>) -> bool;

    /// An input element in fp32.
    fn widen_q(&self, x: Q) -> (r: u32)
        requires
            self.ready(),
        ensures
            forall|m: Model<Q, D>| #[trigger] self.computes(m) ==> r == (m.widen_q)(x),
    ;

    /// An output-gradient element in fp32.
    fn widen_do(&self, x: D) -> (r: u32)
        requires
            self.ready(),
        ensures
            forall|m: Model<Q, D>| #[trigger] self.computes(m) ==> r == (m.widen_do)(x),
    ;

    /// Rounds an input element to bf16.
    fn narrow_q(&self, x: Q) -> (r: u16)
        requires
            self.ready(),
        ensures
            forall|m: Model<Q, D>| #[trigger] self.computes(m) ==> r == (m.narrow_q)(x),
    ;

    /// Rounds an output-gradient element to bf16.
    fn narrow_do(&self, x: D) -> (r: u16)
        requires
            self.ready(),
        ensures
            forall|m: Model<Q, D>| #[trigger] self.computes(m) ==> r == (m.narrow_do)(x),
    ;

    /// Rounds an fp32 number to bf16.
    fn narrow(&self, x: u32) -> (r: u16)
        requires
            self.ready(),
        ensures
            forall|m: Model<Q, D>| #[trigger] self.computes(m) ==> r == (m.narrow)(x),
    ;

    /// The sum `x + y` of two fp32 numbers.
    fn plus(&self, x: u32, y: u32) -> (r: u32)
        requires
            self.ready(),
        ensures
            forall|m: Model<Q, D>| #[trigger] self.computes(m) ==> r == (m.plus)(x, y),
    ;

    /// The difference `x - y` of two fp32 numbers.
    fn minus(&self, x: u32, y: u32) -> (r: u32)
        requires
            self.ready(),
        ensures
            forall|m: Model<Q, D>| #[trigger] self.computes(m) ==> r == (m.minus)(x, y),
    ;

    /// The product `x · y` of two fp32 numbers.
    fn times(&self, x: u32, y: u32) -> (r: u32)
        requires
            self.ready(),
        ensures
            forall|m: Model<Q, D>| #[trigger] self.computes(m) ==> r == (m.times)(x, y),
    ;

    /// The exponential of an fp32 number.
    fn exp(&self, x: u32) -> (r: u32)
        requires
            self.ready(),
        ensures
            forall|m: Model<Q, D>| #[trigger] self.computes(m) ==> r == (m.exp)(x),
    ;

    /// The cooperative tile product `a · b + c`.
    fn mma(&self, a: &[u16; 256], b: &[u16; 256], c: &[u32; 256]) -> (r: [u32; 256])
        requires
            self.ready(),
        ensures
            forall|m: Model<Q, D>| #[trigger] self.computes(m) ==> r@ == (m.mma)(a@, b@, c@),
    ;
}

/// One term of a row sum: `sum + o · do_`.
pub fn row_step<Q, D, A: Arithmetic<Q, D>>(math: &A, sum: u32, o: Q, do_: D) -> (r: u32)
    requires
        math.ready(),
    ensures
        forall|m: Model<Q, D>| #[trigger] math.computes(m) ==> r == m.row_step(sum, o, do_),
        forall|m: Model<Q, D>| #[trigger]
            math.computes(m) ==> r == (m.plus)(
                sum,
                (m.times)((m.widen_q)(o), (m.widen_do)(do_)),
            ),
{
    math.plus(sum, math.times(math.widen_q(o), math.widen_do(do_)))
}

/// The softmax weight `exp(s · scale - lse)`.
pub fn prob<Q, D, A: Arithmetic<Q, D>>(math: &A, s: u32, scale: u32, lse: u32) -> (r: u32)
    requires
        math.ready(),
    ensures
        forall|m: Model<Q, D>| #[trigger] math.computes(m) ==> r == m.prob(s, scale, lse),
        forall|m: Model<Q, D>| #[trigger]
            math.computes(m) ==> r == (m.exp)((m.minus)((m.times)(s, scale), lse)),
{
    math.exp(math.minus(math.times(s, scale), lse))
}

/// The score gradient `p · (dp - d) · scale`.
pub fn grad<Q, D, A: Arithmetic<Q, D>>(math: &A, p: u32, dp: u32, d: u32, scale: u32) -> (r: u32)
    requires
        math.ready(),
    ensures
        forall|m: Model<Q, D>| #[trigger] math.computes(m) ==> r == m.grad(p, dp, d, scale),
        forall|m: Model<Q, D>| #[trigger]
            math.computes(m) ==> r == (m.times)((m.times)(p, (m.minus)(dp, d)), scale),
{
    math.times(math.times(p, math.minus(dp, d)), scale)
}

/// An [`Arithmetic`] made of a closure for each operation.
pub struct Closures<WQ, WD, NQ, ND, N, P, S, T, E, M> {
    pub widen_q: WQ,
    pub widen_do: WD,
    pub narrow_q: NQ,
    pub narrow_do: ND,
    pub narrow: N,
    pub plus: P,
    pub minus: S,
    pub times: T,
    pub exp: E,
    pub mma: M,
}

/// Every closure can be called on every argument.
pub open spec fn closures_ready<Q, D, WQ, WD, NQ, ND, N, P, S, T, E, M>(
    ops: Closures<WQ, WD, NQ, ND, N, P, S, T, E, M>,
) -> bool where
    WQ: Fn(Q) -> u32,
    WD: Fn(D) -> u32,
    NQ: Fn(Q) -> u16,
    ND: Fn(D) -> u16,
    N: Fn(u32) -> u16,
    P: Fn(u32, u32) -> u32,
    S: Fn(u32, u32) -> u32,
    T: Fn(u32, u32) -> u32,
    E: Fn(u32) -> u32,
    M: Fn(&[u16; 256], &[u16; 256], &[u32; 256]) -> [u32; 256],
 {
    &&& forall|x: Q| #[trigger] call_requires(ops.widen_q, (x,))
    &&& forall|x: D| #[trigger] call_requires(ops.widen_do, (x,))
    &&& forall|x: Q| #[trigger] call_requires(ops.narrow_q, (x,))
    &&& forall|x: D| #[trigger] call_requires(ops.narrow_do, (x,))
    &&& forall|x: u32| #[trigger] call_requires(ops.narrow, (x,))
    &&& forall|x: u32, y: u32| #[trigger] call_requires(ops.plus, (x, y))
    &&& forall|x: u32, y: u32| #[trigger] call_requires(ops.minus, (x, y))
    &&& forall|x: u32, y: u32| #[trigger] call_requires(ops.times, (x, y))
    &&& forall|x: u32| #[trigger] call_requires(ops.exp, (x,))
    &&& forall|a: &[u16; 256], b: &[u16; 256], c: &[u32; 256]| #[trigger] call_requires(ops.mma, (a, b, c))
}

/// Every result of every closure is the one that `m` names.
pub open spec fn closures_compute<Q, D, WQ, WD, NQ, ND, N, P, S, T, E, M>(
    ops: Closures<WQ, WD, NQ, ND, N, P, S, T, E, M>,
    m: Model<Q, D>,
) -> bool where
    WQ: Fn(Q) -> u32,
    WD: Fn(D) -> u32,
    NQ: Fn(Q) -> u16,
    ND: Fn(D) -> u16,
    N: Fn(u32) -> u16,
    P: Fn(u32, u32) -> u32,
    S: Fn(u32, u32) -> u32,
    T: Fn(u32, u32) -> u32,
    E: Fn(u32) -> u32,
    M: Fn(&[u16; 256], &[u16; 256], &[u32; 256]) -> [u32; 256],
 {
    &&& forall|x: Q, r: u32| #[trigger]
        call_ensures(ops.widen_q, (x,), r) ==> r == (m.widen_q)(x)
    &&& forall|x: D, r: u32| #[trigger]
        call_ensures(ops.widen_do, (x,), r) ==> r == (m.widen_do)(x)
    &&& forall|x: Q, r: u16| #[trigger]
        call_ensures(ops.narrow_q, (x,), r) ==> r == (m.narrow_q)(x)
    &&& forall|x: D, r: u16| #[trigger]
        call_ensures(ops.narrow_do, (x,), r) ==> r == (m.narrow_do)(x)
    &&& forall|x: u32, r: u16| #[trigger]
        call_ensures(ops.narrow, (x,), r) ==> r == (m.narrow)(x)
    &&& forall|x: u32, y: u32, r: u32| #[trigger]
        call_ensures(ops.plus, (x, y), r) ==> r == (m.plus)(x, y)
    &&& forall|x: u32, y: u32, r: u32| #[trigger]
        call_ensures(ops.minus, (x, y), r) ==> r == (m.minus)(x, y)
    &&& forall|x: u32, y: u32, r: u32| #[trigger]
        call_ensures(ops.times, (x, y), r) ==> r == (m.times)(x, y)
    &&& forall|x: u32, r: u32| #[trigger]
        call_ensures(ops.exp, (x,), r) ==> r == (m.exp)(x)
    &&& forall|a: &[u16; 256], b: &[u16; 256], c: &[u32; 256], r: [u32; 256]| #[trigger]
        call_ensures(ops.mma, (a, b, c), r) ==> r@ == (m.mma)(a@, b@, c@)
}

impl<Q, D, WQ, WD, NQ, ND, N, P, S, T, E, M> Arithmetic<Q, D> for Closures<WQ, WD, NQ, ND, N, P, S, T, E, M> where
    WQ: Fn(Q) -> u32,
    WD: Fn(D) -> u32,
    NQ: Fn(Q) -> u16,
    ND: Fn(D) -> u16,
    N: Fn(u32) -> u16,
    P: Fn(u32, u32) -> u32,
    S: Fn(u32, u32) -> u32,
    T: Fn(u32, u32) -> u32,
    E: Fn(u32) -> u32,
    M: Fn(&[u16; 256], &[u16; 256], &[u32; 256]) -> [u32; 256],
 {
    open spec fn ready(&self) -> bool {
        closures_ready::<Q, D, WQ, WD, NQ, ND, N, P, S, T, E, M>(*self)
    }

    open spec fn computes(&self, m: Model<Q, D>) -> bool {
        closures_compute(*self, m)
    }

    fn widen_q(&self, x: Q) -> (r: u32) {
        (self.widen_q)(x)
    }

    fn widen_do(&self, x: D) -> (r: u32) {
        (self.widen_do)(x)
    }

    fn narrow_q(&self, x: Q) -> (r: u16) {
        (self.narrow_q)(x)
    }

    fn narrow_do(&self, x: D) -> (r: u16) {
        (self.narrow_do)(x)
    }

    fn narrow(&self, x: u32) -> (r: u16) {
        (self.narrow)(x)
    }

    fn plus(&self, x: u32, y: u32) -> (r: u32) {
        (self.plus)(x, y)
    }

    fn minus(&self, x: u32, y: u32) -> (r: u32) {
        (self.minus)(x, y)
    }

    fn times(&self, x: u32, y: u32) -> (r: u32) {
        (self.times)(x, y)
    }

    fn exp(&self, x: u32) -> (r: u32) {
        (self.exp)(x)
    }

    fn mma(&self, a: &[u16; 256], b: &[u16; 256], c: &[u32; 256]) -> (r: [u32; 256]) {
        (self.mma)(a, b, c)
    }
}

/// Closures that can be called on every argument make an [`Arithmetic`] whose
/// operations can, and what they compute is what its operations compute.
pub proof fn closures_are_arithmetic<Q, D, WQ, WD, NQ, ND, N, P, S, T, E, M>(
    ops: Closures<WQ, WD, NQ, ND, N, P, S, T, E, M>,
    m: Model<Q, D>,
) where
    WQ: Fn(Q) -> u32,
    WD: Fn(D) -> u32,
    NQ: Fn(Q) -> u16,
    ND: Fn(D) -> u16,
    N: Fn(u32) -> u16,
    P: Fn(u32, u32) -> u32,
    S: Fn(u32, u32) -> u32,
    T: Fn(u32, u32) -> u32,
    E: Fn(u32) -> u32,
    M: Fn(&[u16; 256], &[u16; 256], &[u32; 256]) -> [u32; 256],

    ensures
        Arithmetic::<Q, D>::ready(&ops) == closures_ready::<Q, D, WQ, WD, NQ, ND, N, P, S, T, E, M>(ops),
        Arithmetic::<Q, D>::computes(&ops, m) == closures_compute(ops, m),
        Arithmetic::<Q, D>::ready(&ops) <==> {
            &&& forall|x: Q| #[trigger] call_requires(ops.widen_q, (x,))
            &&& forall|x: D| #[trigger] call_requires(ops.widen_do, (x,))
            &&& forall|x: Q| #[trigger] call_requires(ops.narrow_q, (x,))
            &&& forall|x: D| #[trigger] call_requires(ops.narrow_do, (x,))
            &&& forall|x: u32| #[trigger] call_requires(ops.narrow, (x,))
            &&& forall|x: u32, y: u32| #[trigger] call_requires(ops.plus, (x, y))
            &&& forall|x: u32, y: u32| #[trigger] call_requires(ops.minus, (x, y))
            &&& forall|x: u32, y: u32| #[trigger] call_requires(ops.times, (x, y))
            &&& forall|x: u32| #[trigger] call_requires(ops.exp, (x,))
            &&& forall|a: &[u16; 256], b: &[u16; 256], c: &[u32; 256]| #[trigger]
                call_requires(ops.mma, (a, b, c))
        },
        Arithmetic::<Q, D>::computes(&ops, m) <==> {
            &&& forall|x: Q, r: u32| #[trigger]
                call_ensures(ops.widen_q, (x,), r) ==> r == (m.widen_q)(x)
            &&& forall|x: D, r: u32| #[trigger]
                call_ensures(ops.widen_do, (x,), r) ==> r == (m.widen_do)(x)
            &&& forall|x: Q, r: u16| #[trigger]
                call_ensures(ops.narrow_q, (x,), r) ==> r == (m.narrow_q)(x)
            &&& forall|x: D, r: u16| #[trigger]
                call_ensures(ops.narrow_do, (x,), r) ==> r == (m.narrow_do)(x)
            &&& forall|x: u32, r: u16| #[trigger]
                call_ensures(ops.narrow, (x,), r) ==> r == (m.narrow)(x)
            &&& forall|x: u32, y: u32, r: u32| #[trigger]
                call_ensures(ops.plus, (x, y), r) ==> r == (m.plus)(x, y)
            &&& forall|x: u32, y: u32, r: u32| #[trigger]
                call_ensures(ops.minus, (x, y), r) ==> r == (m.minus)(x, y)
            &&& forall|x: u32, y: u32, r: u32| #[trigger]
                call_ensures(ops.times, (x, y), r) ==> r == (m.times)(x, y)
            &&& forall|x: u32, r: u32| #[trigger]
                call_ensures(ops.exp, (x,), r) ==> r == (m.exp)(x)
            &&& forall|a: &[u16; 256], b: &[u16; 256], c: &[u32; 256], r: [u32; 256]| #[trigger]
                call_ensures(ops.mma, (a, b, c), r) ==> r@ == (m.mma)(a@, b@, c@)
        },
{
}

} // verus!
