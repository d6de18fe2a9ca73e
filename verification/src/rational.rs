//! Exact fractions of machine integers: a number type with which the solver
//! computes without rounding.

use crate::algebra::{
    lemma_difference_of_quotients, lemma_cross_quotients, lemma_negated_quotient,
    lemma_product_of_quotients, lemma_quotient_of_quotients, lemma_real_of_product,
    lemma_sum_of_quotients,
};
use crate::scalar::{Arithmetic, Scalar};
use vstd::arithmetic::div_mod::{lemma_div_multiples_vanish, lemma_fundamental_div_mod};
use vstd::prelude::*;

verus! {

/// A fraction `num / den` in lowest terms with a positive denominator, or,
/// where `den` is not positive, the mark of a result that is no such
/// fraction: a quotient by zero, or a fraction whose terms do not fit.
///
/// The mark spreads: an operation with it as an operand gives it back.
#[derive(Clone, Copy, Debug, PartialEq, Eq, Structural)]
pub struct Rational {
    /// The numerator.
    pub num: i64,
    /// The denominator: positive in a fraction, zero in the mark.
    pub den: i64,
}

/// The absolute value of `x`.
pub open spec fn magnitude(x: int) -> nat {
    if x < 0 {
        (-x) as nat
    } else {
        x as nat
    }
}

/// The greatest common divisor of `a` and `b`, by Euclid's algorithm.
pub open spec fn gcd(a: nat, b: nat) -> nat
    decreases b,
{
    if b == 0 {
        a
    } else {
        gcd(b, a % b)
    }
}

proof fn lemma_gcd_positive(a: nat, b: nat)
    requires
        b > 0,
    ensures
        gcd(a, b) > 0,
    decreases b,
{
    if a % b != 0 {
        lemma_gcd_positive(b, a % b);
    } else {
        assert(gcd(b, 0) == b);
    }
}

fn gcd_of(a: u128, b: u128) -> (g: u128)
    ensures
        g == gcd(a as nat, b as nat),
{
    let mut x = a;
    let mut y = b;
    while y != 0
        invariant
            gcd(x as nat, y as nat) == gcd(a as nat, b as nat),
        decreases y,
    {
        let r = x % y;
        x = y;
        y = r;
    }
    x
}

fn magnitude_of(x: i128) -> (m: u128)
    ensures
        m == magnitude(x as int),
{
    if x >= 0 {
        x as u128
    } else if x == i128::MIN {
        0x8000_0000_0000_0000_0000_0000_0000_0000u128
    } else {
        (-x) as u128
    }
}

/// The product of a numerator and a positive denominator.
fn scaled(num: i64, den: i64) -> (p: i128)
    requires
        den > 0,
    ensures
        p == num * den,
        -0x3fff_ffff_ffff_ffff_8000_0000_0000_0000 <= p <= 0x3fff_ffff_ffff_ffff_8000_0000_0000_0000,
{
    assert(-0x3fff_ffff_ffff_ffff_8000_0000_0000_0000 <= num * den
        <= 0x3fff_ffff_ffff_ffff_8000_0000_0000_0000) by (nonlinear_arith)
        requires
            -0x8000_0000_0000_0000 <= num <= 0x7fff_ffff_ffff_ffff,
            0 < den <= 0x7fff_ffff_ffff_ffff,
    ;
    (num as i128) * (den as i128)
}

/// The product of two numerators.
fn product(a: i64, b: i64) -> (p: i128)
    ensures
        p == a * b,
{
    assert(-0x4000_0000_0000_0000_0000_0000_0000_0000 <= a * b
        <= 0x4000_0000_0000_0000_0000_0000_0000_0000) by (nonlinear_arith)
        requires
            -0x8000_0000_0000_0000 <= a <= 0x7fff_ffff_ffff_ffff,
            -0x8000_0000_0000_0000 <= b <= 0x7fff_ffff_ffff_ffff,
    ;
    (a as i128) * (b as i128)
}

impl Rational {
    /// The value is a fraction.
    pub open spec fn defined(self) -> bool {
        self.den > 0
    }

    /// The mark of a result that is no fraction.
    pub open spec fn undefined() -> Rational {
        Rational { num: 0, den: 0 }
    }

    /// The real number that a fraction stands for.
    pub open spec fn value(self) -> real {
        self.num as real / self.den as real
    }

    /// `n / d` in lowest terms with a positive denominator, where `d` is not
    /// zero and both terms then fit; the mark otherwise.
    pub open spec fn fraction(n: int, d: int) -> Rational {
        if d == 0 {
            Rational::undefined()
        } else {
            let g = gcd(magnitude(n), magnitude(d));
            let num = magnitude(n) / g;
            let den = magnitude(d) / g;
            if num <= i64::MAX && den <= i64::MAX {
                Rational {
                    num: (if (n < 0) != (d < 0) {
                        -(num as int)
                    } else {
                        num as int
                    }) as i64,
                    den: den as i64,
                }
            } else {
                Rational::undefined()
            }
        }
    }

    fn reduce(n: i128, d: i128) -> (r: Rational)
        ensures
            r == Rational::fraction(n as int, d as int),
    {
        if d == 0 {
            return Rational { num: 0, den: 0 };
        }
        let a = magnitude_of(n);
        let b = magnitude_of(d);
        let g = gcd_of(a, b);
        proof {
            lemma_gcd_positive(a as nat, b as nat);
        }
        let num = a / g;
        let den = b / g;
        if num <= 0x7fff_ffff_ffff_ffff && den <= 0x7fff_ffff_ffff_ffff {
            let negative = (n < 0) != (d < 0);
            let num: i64 = if negative {
                -(num as i64)
            } else {
                num as i64
            };
            Rational { num, den: den as i64 }
        } else {
            Rational { num: 0, den: 0 }
        }
    }

    /// The fraction `num / den`.
    pub fn new(num: i64, den: i64) -> (r: Rational)
        ensures
            r == Rational::fraction(num as int, den as int),
    {
        Rational::reduce(num as i128, den as i128)
    }

    /// Tells a fraction from the mark.
    pub fn is_defined(&self) -> (b: bool)
        ensures
            b == self.defined(),
    {
        self.den > 0
    }
}

/// Every entry of the vector is a fraction.
pub open spec fn all_defined(y: Seq<Rational>) -> bool {
    forall|k: int| 0 <= k < y.len() ==> (#[trigger] y[k]).defined()
}

/// Tells whether every entry of the vector is a fraction, as a run of the
/// solver that met neither a zero divisor nor too large a term leaves it.
pub fn are_fractions(values: &Vec<Rational>) -> (b: bool)
    ensures
        b == all_defined(values@),
{
    let mut k: usize = 0;
    while k < values.len()
        invariant
            k <= values.len(),
            forall|j: int| 0 <= j < k ==> (#[trigger] values@[j]).defined(),
        decreases values.len() - k,
    {
        if !values[k].is_defined() {
            return false;
        }
        k += 1;
    }
    true
}

impl Arithmetic for Rational {
    open spec fn of_count(n: usize) -> Rational {
        Rational::fraction(n as int, 1)
    }

    open spec fn plus(self, rhs: Rational) -> Rational {
        if self.defined() && rhs.defined() {
            Rational::fraction(self.num * rhs.den + rhs.num * self.den, self.den * rhs.den)
        } else {
            Rational::undefined()
        }
    }

    open spec fn minus(self, rhs: Rational) -> Rational {
        if self.defined() && rhs.defined() {
            Rational::fraction(self.num * rhs.den - rhs.num * self.den, self.den * rhs.den)
        } else {
            Rational::undefined()
        }
    }

    open spec fn times(self, rhs: Rational) -> Rational {
        if self.defined() && rhs.defined() {
            Rational::fraction(self.num * rhs.num, self.den * rhs.den)
        } else {
            Rational::undefined()
        }
    }

    open spec fn over(self, rhs: Rational) -> Rational {
        if self.defined() && rhs.defined() {
            Rational::fraction(self.num * rhs.den, self.den * rhs.num)
        } else {
            Rational::undefined()
        }
    }

    open spec fn negated(self) -> Rational {
        if self.defined() {
            Rational::fraction(-self.num, self.den as int)
        } else {
            Rational::undefined()
        }
    }
}

impl Scalar for Rational {
    fn from_count(n: usize) -> (r: Rational) {
        Rational::reduce(n as i128, 1)
    }

    fn add(self, rhs: Rational) -> (r: Rational) {
        if self.den > 0 && rhs.den > 0 {
            Rational::reduce(
                scaled(self.num, rhs.den) + scaled(rhs.num, self.den),
                scaled(self.den, rhs.den),
            )
        } else {
            Rational { num: 0, den: 0 }
        }
    }

    fn sub(self, rhs: Rational) -> (r: Rational) {
        if self.den > 0 && rhs.den > 0 {
            Rational::reduce(
                scaled(self.num, rhs.den) - scaled(rhs.num, self.den),
                scaled(self.den, rhs.den),
            )
        } else {
            Rational { num: 0, den: 0 }
        }
    }

    fn mul(self, rhs: Rational) -> (r: Rational) {
        if self.den > 0 && rhs.den > 0 {
            Rational::reduce(product(self.num, rhs.num), scaled(self.den, rhs.den))
        } else {
            Rational { num: 0, den: 0 }
        }
    }

    fn div(self, rhs: Rational) -> (r: Rational) {
        if self.den > 0 && rhs.den > 0 {
            Rational::reduce(scaled(self.num, rhs.den), product(self.den, rhs.num))
        } else {
            Rational { num: 0, den: 0 }
        }
    }

    fn neg(self) -> (r: Rational) {
        if self.den > 0 {
            Rational::reduce(-(self.num as i128), self.den as i128)
        } else {
            Rational { num: 0, den: 0 }
        }
    }
}

/// The greatest common divisor divides both numbers.
proof fn lemma_gcd_divides(a: nat, b: nat)
    requires
        b > 0,
    ensures
        gcd(a, b) > 0,
        a == gcd(a, b) * (a / gcd(a, b)),
        b == gcd(a, b) * (b / gcd(a, b)),
    decreases b,
{
    let g = gcd(a, b);
    let q = a / b;
    let r = a % b;
    lemma_gcd_positive(a, b);
    lemma_fundamental_div_mod(a as int, b as int);
    if r == 0 {
        assert(gcd(b, 0) == b);
        lemma_div_multiples_vanish(1, b as int);
        assert(b == b * (b / b)) by (nonlinear_arith)
            requires
                b / b == 1,
        ;
    } else {
        lemma_gcd_divides(b, r);
        let u = b / g;
        let v = r / g;
        let t = u * q + v;
        assert(a == g * t) by (nonlinear_arith)
            requires
                a == b * q + r,
                b == g * u,
                r == g * v,
                t == u * q + v,
        ;
        lemma_div_multiples_vanish(t as int, g as int);
    }
}

proof fn lemma_crossed(g: int, m: int, e: int)
    by (nonlinear_arith)
    ensures
        m * (g * e) == (g * m) * e,
        (-m) * (g * e) == (-(g * m)) * e,
        (-m) * (-(g * e)) == (g * m) * e,
        m * (-(g * e)) == (-(g * m)) * e,
{
}

/// A fraction in lowest terms has the cross products of the fraction that it
/// was made from.
proof fn lemma_fraction_cross(n: int, d: int)
    requires
        d != 0,
        Rational::fraction(n, d).defined(),
    ensures
        Rational::fraction(n, d).num * d == n * Rational::fraction(n, d).den,
{
    let g = gcd(magnitude(n), magnitude(d));
    let m = magnitude(n) / g;
    let e = magnitude(d) / g;
    lemma_gcd_divides(magnitude(n), magnitude(d));
    lemma_crossed(g as int, m as int, e as int);
}

/// A fraction in lowest terms stands for the quotient that it was made from.
pub proof fn lemma_fraction_value(n: int, d: int)
    requires
        d != 0,
        Rational::fraction(n, d).defined(),
    ensures
        Rational::fraction(n, d).value() == n as real / d as real,
{
    let r = Rational::fraction(n, d);
    lemma_fraction_cross(n, d);
    lemma_real_of_product(r.num as int, d);
    lemma_real_of_product(n, r.den as int);
    lemma_cross_quotients(r.num as real, r.den as real, n as real, d as real);
}

proof fn lemma_positive_product(a: int, b: int)
    by (nonlinear_arith)
    requires
        a > 0,
        b > 0,
    ensures
        a * b > 0,
{
}

proof fn lemma_nonzero_int_product(a: int, b: int)
    by (nonlinear_arith)
    requires
        a * b != 0,
    ensures
        a != 0,
        b != 0,
{
}

/// Where a sum is a fraction, so are its terms, and it is their exact sum.
pub proof fn lemma_plus_is_exact(a: Rational, b: Rational)
    requires
        a.plus(b).defined(),
    ensures
        a.defined(),
        b.defined(),
        a.plus(b).value() == a.value() + b.value(),
{
    let n = a.num * b.den + b.num * a.den;
    let d = a.den * b.den;
    lemma_positive_product(a.den as int, b.den as int);
    lemma_fraction_value(n, d);
    lemma_real_of_product(a.num as int, b.den as int);
    lemma_real_of_product(b.num as int, a.den as int);
    lemma_real_of_product(a.den as int, b.den as int);
    lemma_sum_of_quotients(a.num as real, a.den as real, b.num as real, b.den as real);
}

/// Where a difference is a fraction, so are its terms, and it is their exact
/// difference.
pub proof fn lemma_minus_is_exact(a: Rational, b: Rational)
    requires
        a.minus(b).defined(),
    ensures
        a.defined(),
        b.defined(),
        a.minus(b).value() == a.value() - b.value(),
{
    let n = a.num * b.den - b.num * a.den;
    let d = a.den * b.den;
    lemma_positive_product(a.den as int, b.den as int);
    lemma_fraction_value(n, d);
    lemma_real_of_product(a.num as int, b.den as int);
    lemma_real_of_product(b.num as int, a.den as int);
    lemma_real_of_product(a.den as int, b.den as int);
    lemma_difference_of_quotients(a.num as real, a.den as real, b.num as real, b.den as real);
}

/// Where a product is a fraction, so are its factors, and it is their exact
/// product.
pub proof fn lemma_times_is_exact(a: Rational, b: Rational)
    requires
        a.times(b).defined(),
    ensures
        a.defined(),
        b.defined(),
        a.times(b).value() == a.value() * b.value(),
{
    let n = a.num * b.num;
    let d = a.den * b.den;
    lemma_positive_product(a.den as int, b.den as int);
    lemma_fraction_value(n, d);
    lemma_real_of_product(a.num as int, b.num as int);
    lemma_real_of_product(a.den as int, b.den as int);
    lemma_product_of_quotients(a.num as real, a.den as real, b.num as real, b.den as real);
}

/// Where a quotient is a fraction, so are the dividend and the divisor, the
/// divisor is not zero, and it is their exact quotient.
pub proof fn lemma_over_is_exact(a: Rational, b: Rational)
    requires
        a.over(b).defined(),
    ensures
        a.defined(),
        b.defined(),
        b.value() != 0real,
        a.over(b).value() == a.value() / b.value(),
{
    let n = a.num * b.den;
    let d = a.den * b.num;
    lemma_nonzero_int_product(a.den as int, b.num as int);
    lemma_fraction_value(n, d);
    lemma_real_of_product(a.num as int, b.den as int);
    lemma_real_of_product(a.den as int, b.num as int);
    lemma_quotient_of_quotients(a.num as real, a.den as real, b.num as real, b.den as real);
}

/// Where an opposite is a fraction, so is the number, and it is its exact
/// opposite.
pub proof fn lemma_negated_is_exact(a: Rational)
    requires
        a.negated().defined(),
    ensures
        a.defined(),
        a.negated().value() == -a.value(),
{
    lemma_fraction_value(-a.num, a.den as int);
    lemma_negated_quotient(a.num as real, a.den as real);
}

/// The numbers for the counts 0 and 1 are the fractions `0 / 1` and `1 / 1`.
pub proof fn lemma_zero_and_one()
    ensures
        Rational::of_count(0) == (Rational { num: 0, den: 1 }),
        Rational::of_count(1) == (Rational { num: 1, den: 1 }),
        Rational::of_count(0).value() == 0real,
        Rational::of_count(1).value() == 1real,
{
    assert(gcd(1, 0) == 1);
    assert(gcd(0, 1) == 1);
    assert(gcd(1, 1) == 1);
    let g = gcd(0, 1);
    let h = gcd(1, 1);
    assert(0nat / g == 0 && 1nat / g == 1 && 1nat / h == 1) by (nonlinear_arith)
        requires
            g == 1,
            h == 1,
    ;
    lemma_fraction_value(0, 1);
    lemma_fraction_value(1, 1);
}

/// Where the number for a count is a fraction, it is that count.
pub proof fn lemma_of_count_is_exact(n: usize)
    requires
        Rational::of_count(n).defined(),
    ensures
        Rational::of_count(n).value() == n as real,
{
    lemma_fraction_value(n as int, 1);
}

} // verus!
