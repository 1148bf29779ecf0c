//! The number type that the model computes with.

use rand::rngs::SmallRng;
use vstd::prelude::*;

verus! {

/// A number type.
///
/// The methods carry no promises: rounding, overflow and the treatment of values that are not
/// numbers are the implementing type's own business. What the library states is which of these
/// methods it called, on which values, and in which order.
pub trait Real: Copy + Send + Sync {
    /// The number zero.
    fn zero() -> Self;

    /// The number one.
    fn one() -> Self;

    /// The number below every other.
    fn negative_infinity() -> Self;

    /// The number nearest to `n`.
    fn from_count(n: usize) -> Self;

    /// The number nearest to `digits` divided by ten to the power `places`.
    fn decimal(digits: u32, places: u32) -> Self;

    /// The sum of the two numbers.
    fn plus(self, rhs: Self) -> Self;

    /// The first number less the second.
    fn minus(self, rhs: Self) -> Self;

    /// The product of the two numbers.
    fn times(self, rhs: Self) -> Self;

    /// The first number divided by the second.
    fn over(self, rhs: Self) -> Self;

    /// The number with its sign changed.
    fn negate(self) -> Self;

    /// The square root.
    fn sqrt(self) -> Self;

    /// The exponential.
    fn exp(self) -> Self;

    /// The natural logarithm.
    fn ln(self) -> Self;

    /// The larger of the two numbers.
    fn larger(self, rhs: Self) -> Self;

    /// Is the first number smaller than the second?
    fn less(self, rhs: Self) -> bool;

    /// Is the first number no larger than the second?
    fn at_most(self, rhs: Self) -> bool;

    /// Are the two numbers equal?
    fn equals(self, rhs: Self) -> bool;

    /// A number drawn uniformly from zero (included) to one (excluded), and the generator after
    /// the draw.
    fn uniform(rng: &SmallRng) -> (Self, SmallRng);

    /// An index of `weights`, drawn with the weights as probabilities, and the generator after
    /// the draw. `None` where the weights are no distribution.
    fn pick(weights: &Vec<Self>, rng: &SmallRng) -> (Option<usize>, SmallRng);
}

/// `r` is what `T::zero()` returned.
#[verifier::inline]
pub open spec fn zero_gives<T: Real>(r: T) -> bool {
    call_ensures(T::zero, (), r)
}

/// `r` is what `T::one()` returned.
#[verifier::inline]
pub open spec fn one_gives<T: Real>(r: T) -> bool {
    call_ensures(T::one, (), r)
}

/// `r` is what `T::negative_infinity()` returned.
#[verifier::inline]
pub open spec fn negative_infinity_gives<T: Real>(r: T) -> bool {
    call_ensures(T::negative_infinity, (), r)
}

/// `r` is what `T::from_count(n)` returned.
#[verifier::inline]
pub open spec fn count_gives<T: Real>(n: usize, r: T) -> bool {
    call_ensures(T::from_count, (n,), r)
}

/// `r` is what `T::decimal(digits, places)` returned.
#[verifier::inline]
pub open spec fn decimal_gives<T: Real>(digits: u32, places: u32, r: T) -> bool {
    call_ensures(T::decimal, (digits, places), r)
}

/// `r` is what `a.plus(b)` returned.
#[verifier::inline]
pub open spec fn plus_gives<T: Real>(a: T, b: T, r: T) -> bool {
    call_ensures(T::plus, (a, b), r)
}

/// `r` is what `a.minus(b)` returned.
#[verifier::inline]
pub open spec fn minus_gives<T: Real>(a: T, b: T, r: T) -> bool {
    call_ensures(T::minus, (a, b), r)
}

/// `r` is what `a.times(b)` returned.
#[verifier::inline]
pub open spec fn times_gives<T: Real>(a: T, b: T, r: T) -> bool {
    call_ensures(T::times, (a, b), r)
}

/// `r` is what `a.over(b)` returned.
#[verifier::inline]
pub open spec fn over_gives<T: Real>(a: T, b: T, r: T) -> bool {
    call_ensures(T::over, (a, b), r)
}

/// `r` is what `a.negate()` returned.
#[verifier::inline]
pub open spec fn negate_gives<T: Real>(a: T, r: T) -> bool {
    call_ensures(T::negate, (a,), r)
}

/// `r` is what `a.sqrt()` returned.
#[verifier::inline]
pub open spec fn sqrt_gives<T: Real>(a: T, r: T) -> bool {
    call_ensures(T::sqrt, (a,), r)
}

/// `r` is what `a.exp()` returned.
#[verifier::inline]
pub open spec fn exp_gives<T: Real>(a: T, r: T) -> bool {
    call_ensures(T::exp, (a,), r)
}

/// `r` is what `a.ln()` returned.
#[verifier::inline]
pub open spec fn ln_gives<T: Real>(a: T, r: T) -> bool {
    call_ensures(T::ln, (a,), r)
}

/// `r` is what `a.larger(b)` returned.
#[verifier::inline]
pub open spec fn larger_gives<T: Real>(a: T, b: T, r: T) -> bool {
    call_ensures(T::larger, (a, b), r)
}

/// `r` is what `a.less(b)` returned.
#[verifier::inline]
pub open spec fn less_gives<T: Real>(a: T, b: T, r: bool) -> bool {
    call_ensures(T::less, (a, b), r)
}

/// `r` is what `a.at_most(b)` returned.
#[verifier::inline]
pub open spec fn at_most_gives<T: Real>(a: T, b: T, r: bool) -> bool {
    call_ensures(T::at_most, (a, b), r)
}

/// `r` is what `a.equals(b)` returned.
#[verifier::inline]
pub open spec fn equals_gives<T: Real>(a: T, b: T, r: bool) -> bool {
    call_ensures(T::equals, (a, b), r)
}

/// Drawing from `rng` gave `r` and left the generator in the state `next`.
#[verifier::inline]
pub open spec fn uniform_gives<T: Real>(rng: SmallRng, r: T, next: SmallRng) -> bool {
    call_ensures(T::uniform, (&rng,), (r, next))
}

/// Drawing an index of `weights` from `rng` gave `r` and left the generator in the state `next`.
#[verifier::inline]
pub open spec fn pick_gives<T: Real>(
    weights: Vec<T>,
    rng: SmallRng,
    r: Option<usize>,
    next: SmallRng,
) -> bool {
    call_ensures(T::pick, (&weights, &rng), (r, next))
}

} // verus!
