//! Identities of real arithmetic that the proofs of this crate are made of.

use vstd::prelude::*;

verus! {

pub proof fn lemma_commutes(a: real, b: real)
    by (nonlinear_arith)
    ensures
        a * b == b * a,
{
}

pub proof fn lemma_associates(a: real, b: real, c: real)
    by (nonlinear_arith)
    ensures
        (a * b) * c == a * (b * c),
{
}

pub proof fn lemma_swaps(a: real, b: real, c: real)
    by (nonlinear_arith)
    ensures
        a * (b * c) == b * (a * c),
{
}

pub proof fn lemma_distributes(a: real, b: real, c: real)
    by (nonlinear_arith)
    ensures
        a * (b - c) == a * b - a * c,
{
}

pub proof fn lemma_distributes_sum(a: real, b: real, c: real)
    by (nonlinear_arith)
    ensures
        a * (b + c) == a * b + a * c,
{
}

pub proof fn lemma_negates(a: real, w: real)
    by (nonlinear_arith)
    ensures
        (-a) * w == -(a * w),
        a * (-w) == -(a * w),
{
}

pub proof fn lemma_times_zero(a: real, z: real)
    by (nonlinear_arith)
    requires
        z == 0real,
    ensures
        a * z == 0real,
{
}

pub proof fn lemma_times_one(a: real, z: real)
    by (nonlinear_arith)
    requires
        z == 1real,
    ensures
        a * z == a,
{
}

/// A quotient times its divisor is the dividend.
pub proof fn lemma_quotient(x: real, p: real)
    by (nonlinear_arith)
    requires
        p != 0real,
    ensures
        (x / p) * p == x,
{
}

/// A product over one of its factors is the other.
pub proof fn lemma_product_quotient(a: real, p: real)
    by (nonlinear_arith)
    requires
        p != 0real,
    ensures
        (a * p) / p == a,
{
}

/// A product of two numbers other than zero is not zero.
pub proof fn lemma_nonzero_product(a: real, b: real)
    by (nonlinear_arith)
    requires
        a != 0real,
        b != 0real,
    ensures
        a * b != 0real,
{
}

/// Fractions whose cross products agree are equal.
pub proof fn lemma_cross_quotients(m: real, e: real, n: real, d: real)
    requires
        m * d == n * e,
        d != 0real,
        e != 0real,
    ensures
        m / e == n / d,
{
    let q = n / d;
    lemma_quotient(n, d);
    assert(n * e == (q * d) * e);
    lemma_associates(q, d, e);
    lemma_commutes(d, e);
    lemma_associates(q, e, d);
    assert(m * d == (q * e) * d);
    lemma_product_quotient(m, d);
    lemma_product_quotient(q * e, d);
    assert(m == q * e);
    lemma_product_quotient(q, e);
}

/// The real number of a product of integers is the product of their real
/// numbers.
pub proof fn lemma_real_of_product(a: int, b: int)
    ensures
        (a * b) as real == (a as real) * (b as real),
    decreases (if a < 0 { -a } else { a }),
{
    let x = a as real;
    let y = b as real;
    if a == 0 {
        assert(a * b == 0) by (nonlinear_arith)
            requires
                a == 0,
        ;
        lemma_times_zero(y, x);
        lemma_commutes(x, y);
    } else if a > 0 {
        lemma_real_of_product(a - 1, b);
        assert(a * b == (a - 1) * b + b) by (nonlinear_arith);
        assert(x == (a - 1) as real + 1real);
        lemma_commutes(x, y);
        lemma_distributes_sum(y, (a - 1) as real, 1real);
        lemma_commutes(y, (a - 1) as real);
        lemma_times_one(y, 1real);
    } else {
        lemma_real_of_product(a + 1, b);
        assert(a * b == (a + 1) * b - b) by (nonlinear_arith);
        assert(x == (a + 1) as real - 1real);
        lemma_commutes(x, y);
        lemma_distributes(y, (a + 1) as real, 1real);
        lemma_commutes(y, (a + 1) as real);
        lemma_times_one(y, 1real);
    }
}

/// `an / ad + bn / bd` as one fraction.
pub proof fn lemma_sum_of_quotients(an: real, ad: real, bn: real, bd: real)
    requires
        ad != 0real,
        bd != 0real,
    ensures
        (an * bd + bn * ad) / (ad * bd) == an / ad + bn / bd,
{
    let x = an / ad;
    let y = bn / bd;
    let d = ad * bd;
    lemma_quotient(an, ad);
    lemma_quotient(bn, bd);
    lemma_nonzero_product(ad, bd);
    lemma_commutes(x + y, d);
    lemma_distributes_sum(d, x, y);
    lemma_commutes(d, x);
    lemma_commutes(d, y);
    lemma_associates(x, ad, bd);
    lemma_commutes(ad, bd);
    lemma_associates(y, bd, ad);
    assert((x + y) * d == an * bd + bn * ad);
    lemma_product_quotient(x + y, d);
}

/// `an / ad - bn / bd` as one fraction.
pub proof fn lemma_difference_of_quotients(an: real, ad: real, bn: real, bd: real)
    requires
        ad != 0real,
        bd != 0real,
    ensures
        (an * bd - bn * ad) / (ad * bd) == an / ad - bn / bd,
{
    let x = an / ad;
    let y = bn / bd;
    let d = ad * bd;
    lemma_quotient(an, ad);
    lemma_quotient(bn, bd);
    lemma_nonzero_product(ad, bd);
    lemma_commutes(x - y, d);
    lemma_distributes(d, x, y);
    lemma_commutes(d, x);
    lemma_commutes(d, y);
    lemma_associates(x, ad, bd);
    lemma_commutes(ad, bd);
    lemma_associates(y, bd, ad);
    assert((x - y) * d == an * bd - bn * ad);
    lemma_product_quotient(x - y, d);
}

/// `(an / ad) * (bn / bd)` as one fraction.
pub proof fn lemma_product_of_quotients(an: real, ad: real, bn: real, bd: real)
    requires
        ad != 0real,
        bd != 0real,
    ensures
        (an * bn) / (ad * bd) == (an / ad) * (bn / bd),
{
    let x = an / ad;
    let y = bn / bd;
    let d = ad * bd;
    lemma_quotient(an, ad);
    lemma_quotient(bn, bd);
    lemma_nonzero_product(ad, bd);
    // (x * y) * (ad * bd) == (x * ad) * (y * bd)
    lemma_associates(x, y, d);
    lemma_swaps(y, ad, bd);
    lemma_associates(x, ad, y * bd);
    assert((x * y) * d == an * bn);
    lemma_product_quotient(x * y, d);
}

/// `(an / ad) / (bn / bd)` as one fraction.
pub proof fn lemma_quotient_of_quotients(an: real, ad: real, bn: real, bd: real)
    requires
        ad != 0real,
        bd != 0real,
        bn != 0real,
    ensures
        bn / bd != 0real,
        (an * bd) / (ad * bn) == (an / ad) / (bn / bd),
{
    let x = an / ad;
    let y = bn / bd;
    lemma_quotient(an, ad);
    lemma_quotient(bn, bd);
    if y == 0real {
        lemma_times_zero(bd, y);
        lemma_commutes(bd, y);
    }
    let z = x / y;
    lemma_quotient(x, y);
    lemma_nonzero_product(ad, bn);
    // z * (ad * (y * bd)) == ((z * y) * ad) * bd
    lemma_swaps(ad, y, bd);
    lemma_associates(z, y, ad * bd);
    lemma_associates(z * y, ad, bd);
    assert(z * (ad * bn) == an * bd);
    lemma_product_quotient(z, ad * bn);
}

/// `-(an / ad)` as one fraction.
pub proof fn lemma_negated_quotient(an: real, ad: real)
    requires
        ad != 0real,
    ensures
        (-an) / ad == -(an / ad),
{
    let x = an / ad;
    lemma_quotient(an, ad);
    lemma_negates(x, ad);
    lemma_product_quotient(-x, ad);
}

} // verus!
