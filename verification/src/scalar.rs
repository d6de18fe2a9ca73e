//! The arithmetic that the solver needs from its number type.

use vstd::prelude::*;

verus! {

/// The operations of a number type, as mathematical functions.
///
/// Nothing is asked of them: they need not be associative, exact or defined
/// in any particular way where a divisor is zero. Contracts in this crate
/// name results by these functions, so that they say which operations are
/// applied to which operands, in which order.
pub trait Arithmetic: Sized {
    /// The number that stands for the count `n`.
    spec fn of_count(n: usize) -> Self;

    /// The sum `self + rhs`.
    spec fn plus(self, rhs: Self) -> Self;

    /// The difference `self - rhs`.
    spec fn minus(self, rhs: Self) -> Self;

    /// The product `self * rhs`.
    spec fn times(self, rhs: Self) -> Self;

    /// The quotient `self / rhs`.
    spec fn over(self, rhs: Self) -> Self;

    /// The opposite `-self`.
    spec fn negated(self) -> Self;
}

/// A number type that can be computed with: each method returns what the
/// function of the same meaning in [`Arithmetic`] gives for its operands.
///
/// The methods are total. A type whose division can fail gives a value of its
/// own for the quotient by zero, as floating-point types do.
pub trait Scalar: Arithmetic + Copy {
    fn from_count(n: usize) -> (r: Self)
        ensures
            r == Self::of_count(n),
    ;

    fn add(self, rhs: Self) -> (r: Self)
        ensures
            r == self.plus(rhs),
    ;

    fn sub(self, rhs: Self) -> (r: Self)
        ensures
            r == self.minus(rhs),
    ;

    fn mul(self, rhs: Self) -> (r: Self)
        ensures
            r == self.times(rhs),
    ;

    fn div(self, rhs: Self) -> (r: Self)
        ensures
            r == self.over(rhs),
    ;

    fn neg(self) -> (r: Self)
        ensures
            r == self.negated(),
    ;
}

/// The real numbers, with their own arithmetic. They exist in specifications
/// and proofs only; the laws of this crate are stated over them.
impl Arithmetic for real {
    open spec fn of_count(n: usize) -> real {
        n as real
    }

    open spec fn plus(self, rhs: real) -> real {
        self + rhs
    }

    open spec fn minus(self, rhs: real) -> real {
        self - rhs
    }

    open spec fn times(self, rhs: real) -> real {
        self * rhs
    }

    open spec fn over(self, rhs: real) -> real {
        self / rhs
    }

    open spec fn negated(self) -> real {
        -self
    }
}

} // verus!
