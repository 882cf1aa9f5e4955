//! The arithmetic that the network needs from its numbers.
use vstd::prelude::*;

verus! {

/// A number the network computes with.
///
/// Each operation has a spec function that names its result; an
/// implementation defines those and returns what they name. (Compiled
/// without verification, the spec functions are ordinary methods, so an
/// implementation outside verified code writes them as plain functions.) Nothing more is
/// assumed of them: no algebraic law is stated, since floating point keeps
/// few of them.
pub trait Scalar: Copy + Sized {
    spec fn zero_spec() -> Self;

    spec fn one_spec() -> Self;

    spec fn from_count_spec(n: usize) -> Self;

    spec fn plus_spec(self, o: Self) -> Self;

    spec fn minus_spec(self, o: Self) -> Self;

    spec fn times_spec(self, o: Self) -> Self;

    spec fn divide_spec(self, o: Self) -> Self;

    spec fn negate_spec(self) -> Self;

    spec fn exp_spec(self) -> Self;

    /// The additive identity.
    fn zero() -> (r: Self)
        ensures
            r == Self::zero_spec(),
    ;

    /// The multiplicative identity, also the value of a bias unit.
    fn one() -> (r: Self)
        ensures
            r == Self::one_spec(),
    ;

    /// The number `n`, used to average over `n` examples.
    fn from_count(n: usize) -> (r: Self)
        ensures
            r == Self::from_count_spec(n),
    ;

    fn plus(self, o: Self) -> (r: Self)
        ensures
            r == self.plus_spec(o),
    ;

    fn minus(self, o: Self) -> (r: Self)
        ensures
            r == self.minus_spec(o),
    ;

    fn times(self, o: Self) -> (r: Self)
        ensures
            r == self.times_spec(o),
    ;

    fn divide(self, o: Self) -> (r: Self)
        ensures
            r == self.divide_spec(o),
    ;

    fn negate(self) -> (r: Self)
        ensures
            r == self.negate_spec(),
    ;

    /// The exponential function.
    fn exp(self) -> (r: Self)
        ensures
            r == self.exp_spec(),
    ;

    /// A freshly drawn value for an initial weight.
    fn random() -> Self;
}

/// The logistic function `1 / (1 + e^(-x))`.
pub open spec fn sigmoid_spec<T: Scalar>(x: T) -> T {
    T::one_spec().divide_spec(T::one_spec().plus_spec(x.negate_spec().exp_spec()))
}

/// Its derivative `s * (1 - s)` with `s = sigmoid(x)`.
pub open spec fn sigmoid_derivative_spec<T: Scalar>(x: T) -> T {
    sigmoid_spec(x).times_spec(T::one_spec().minus_spec(sigmoid_spec(x)))
}

/// The logistic function `1 / (1 + e^(-x))`.
pub fn sigmoid<T: Scalar>(x: T) -> (r: T)
    ensures
        r == sigmoid_spec(x),
{
    T::one().divide(T::one().plus(x.negate().exp()))
}

/// The derivative of the logistic function, `s * (1 - s)` with `s = sigmoid(x)`.
pub fn sigmoid_derivative<T: Scalar>(x: T) -> (r: T)
    ensures
        r == sigmoid_derivative_spec(x),
{
    let s = sigmoid(x);
    s.times(T::one().minus(s))
}

} // verus!
