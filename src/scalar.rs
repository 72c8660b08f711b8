use vstd::prelude::*;

verus! {

/// The number type that a graph computes with.
///
/// Each operation is stated by a spec function of its arguments alone; the
/// contracts of the graph speak of values through these.
pub trait Scalar: Copy + Sized {
    spec fn spec_zero() -> Self;

    spec fn spec_one() -> Self;

    spec fn spec_minus_one() -> Self;

    spec fn spec_plus(a: Self, b: Self) -> Self;

    spec fn spec_minus(a: Self, b: Self) -> Self;

    spec fn spec_times(a: Self, b: Self) -> Self;

    spec fn spec_tanh(a: Self) -> Self;

    spec fn spec_exp(a: Self) -> Self;

    spec fn spec_powf(a: Self, exponent: Self) -> Self;

    spec fn spec_relu(a: Self) -> Self;

    spec fn spec_is_positive(a: Self) -> bool;

    /// The additive identity; every gradient starts from it.
    fn zero() -> (r: Self)
        ensures
            r == Self::spec_zero(),
    ;

    /// The multiplicative identity; the seed of a backward pass.
    fn one() -> (r: Self)
        ensures
            r == Self::spec_one(),
    ;

    /// The constant minus one, used to express subtraction and division.
    fn minus_one() -> (r: Self)
        ensures
            r == Self::spec_minus_one(),
    ;

    fn plus(&self, other: &Self) -> (r: Self)
        ensures
            r == Self::spec_plus(*self, *other),
    ;

    fn minus(&self, other: &Self) -> (r: Self)
        ensures
            r == Self::spec_minus(*self, *other),
    ;

    fn times(&self, other: &Self) -> (r: Self)
        ensures
            r == Self::spec_times(*self, *other),
    ;

    fn tanh(&self) -> (r: Self)
        ensures
            r == Self::spec_tanh(*self),
    ;

    fn exp(&self) -> (r: Self)
        ensures
            r == Self::spec_exp(*self),
    ;

    /// `self` raised to the power `exponent`.
    fn powf(&self, exponent: &Self) -> (r: Self)
        ensures
            r == Self::spec_powf(*self, *exponent),
    ;

    /// The larger of `self` and zero.
    fn relu(&self) -> (r: Self)
        ensures
            r == Self::spec_relu(*self),
    ;

    /// Whether `self` is strictly greater than zero.
    fn is_positive(&self) -> (r: bool)
        ensures
            r == Self::spec_is_positive(*self),
    ;
}

} // verus!
