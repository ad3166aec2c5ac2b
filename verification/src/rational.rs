//! Exact arbitrary-precision arithmetic for responsibility values.
//!
//! All counts, weights and responsibility values are `num_rational::BigRational`
//! values. Verus sees that type as opaque, so this module models a rational by
//! the pair of integers that `Ratio::numer` and `Ratio::denom` return, and every
//! arithmetic call goes through a trusted wrapper whose contract states the
//! result over that model. The ghost type [`Frac`] and the spec functions on it
//! carry the arithmetic at the specification level; equality of rationals is
//! cross-multiplication ([`feq`]).

use vstd::prelude::*;
use num_traits::Signed;

verus! {

#[verifier::external_type_specification]
#[verifier::external_body]
#[verifier::reject_recursive_types(T)]
pub struct ExRatio<T>(num_rational::Ratio<T>);

#[verifier::external_type_specification]
#[verifier::external_body]
pub struct ExBigInt(num_bigint::BigInt);

/// The integer that a `num_bigint::BigInt` holds.
pub uninterp spec fn big_val(i: num_bigint::BigInt) -> int;

/// The numerator that `Ratio::numer` returns (the stored, reduced numerator).
pub uninterp spec fn rat_num(r: num_rational::BigRational) -> int;

/// The denominator that `Ratio::denom` returns (the stored denominator;
/// positive for every value built by `Ratio::new` or its arithmetic).
pub uninterp spec fn rat_den(r: num_rational::BigRational) -> int;

/// A rational at the specification level: a numerator and a denominator.
pub struct Frac {
    pub n: int,
    pub d: int,
}

/// A meaningful fraction has a positive denominator.
pub open spec fn fwf(a: Frac) -> bool {
    a.d > 0
}

/// The fraction a `BigRational` stands for.
pub open spec fn rv(r: num_rational::BigRational) -> Frac {
    Frac { n: rat_num(r), d: rat_den(r) }
}

/// Equality of fractions as rational numbers: a.n/a.d == b.n/b.d.
pub open spec fn feq(a: Frac, b: Frac) -> bool {
    a.n * b.d == b.n * a.d
}

pub open spec fn fint(k: int) -> Frac {
    Frac { n: k, d: 1 }
}

pub open spec fn fadd(a: Frac, b: Frac) -> Frac {
    Frac { n: a.n * b.d + b.n * a.d, d: a.d * b.d }
}


/// a - b as a fraction.
pub open spec fn fsub(a: Frac, b: Frac) -> Frac {
    Frac { n: a.n * b.d - b.n * a.d, d: a.d * b.d }
}

pub open spec fn fmul(a: Frac, b: Frac) -> Frac {
    Frac { n: a.n * b.n, d: a.d * b.d }
}

pub proof fn feq_sym(a: Frac, b: Frac)
    requires
        feq(a, b),
    ensures
        feq(b, a),
{
}

pub proof fn feq_trans(a: Frac, b: Frac, c: Frac) by (nonlinear_arith)
    requires
        fwf(b),
        feq(a, b),
        feq(b, c),
    ensures
        feq(a, c),
{
}

pub proof fn fadd_comm(a: Frac, b: Frac) by (nonlinear_arith)
    ensures
        fadd(a, b) == fadd(b, a),
{
}

pub proof fn fadd_congr_l(a1: Frac, a2: Frac, b: Frac) by (nonlinear_arith)
    requires
        fwf(a1),
        fwf(a2),
        fwf(b),
        feq(a1, a2),
    ensures
        feq(fadd(a1, b), fadd(a2, b)),
        fwf(fadd(a1, b)),
{
}

pub proof fn fadd_congr(a1: Frac, b1: Frac, a2: Frac, b2: Frac)
    requires
        fwf(a1),
        fwf(b1),
        fwf(a2),
        fwf(b2),
        feq(a1, a2),
        feq(b1, b2),
    ensures
        feq(fadd(a1, b1), fadd(a2, b2)),
        fwf(fadd(a1, b1)),
{
    fadd_congr_l(a1, a2, b1);
    fadd_congr_l(b1, b2, a2);
    fadd_comm(a2, b1);
    fadd_comm(a2, b2);
    fadd_congr_l(a2, a2, b1);
    feq_trans(fadd(a1, b1), fadd(a2, b1), fadd(a2, b2));
}

#[verifier::rlimit(100)]
pub proof fn fadd_assoc(a: Frac, b: Frac, c: Frac)
    ensures
        fadd(fadd(a, b), c) == fadd(a, fadd(b, c)),
{
    let an = a.n;
    let ad = a.d;
    let bn = b.n;
    let bd = b.d;
    let cn = c.n;
    let cd = c.d;
    assert((an * bd + bn * ad) * cd + cn * (ad * bd) == an * (bd * cd) + (bn * cd + cn * bd) * ad)
        by (nonlinear_arith);
    assert((ad * bd) * cd == ad * (bd * cd)) by (nonlinear_arith);
}

pub proof fn fmul_comm(a: Frac, b: Frac) by (nonlinear_arith)
    ensures
        fmul(a, b) == fmul(b, a),
{
}

pub proof fn fmul_congr_l(a1: Frac, a2: Frac, b: Frac) by (nonlinear_arith)
    requires
        fwf(a1),
        fwf(a2),
        fwf(b),
        feq(a1, a2),
    ensures
        feq(fmul(a1, b), fmul(a2, b)),
        fwf(fmul(a1, b)),
{
}

pub proof fn fmul_congr(a1: Frac, b1: Frac, a2: Frac, b2: Frac)
    requires
        fwf(a1),
        fwf(b1),
        fwf(a2),
        fwf(b2),
        feq(a1, a2),
        feq(b1, b2),
    ensures
        feq(fmul(a1, b1), fmul(a2, b2)),
        fwf(fmul(a1, b1)),
{
    fmul_congr_l(a1, a2, b1);
    fmul_congr_l(b1, b2, a2);
    fmul_comm(a2, b1);
    fmul_comm(a2, b2);
    feq_trans(fmul(a1, b1), fmul(a2, b1), fmul(a2, b2));
}

pub proof fn fadd_zero(a: Frac) by (nonlinear_arith)
    requires
        fwf(a),
    ensures
        feq(fadd(a, fint(0)), a),
        feq(fadd(fint(0), a), a),
{
}

/// Relies on `<num_bigint::BigInt as From<u64>>::from`: the exact integer.
#[verifier::external_body]
pub fn big_from_u64(x: u64) -> (r: num_bigint::BigInt)
    ensures
        big_val(r) == x as int,
{
    num_bigint::BigInt::from(x)
}

/// Relies on `Mul for &num_bigint::BigInt`: exact integer multiplication.
#[verifier::external_body]
pub fn big_mul(a: &num_bigint::BigInt, b: &num_bigint::BigInt) -> (r: num_bigint::BigInt)
    ensures
        big_val(r) == big_val(*a) * big_val(*b),
{
    a * b
}

/// Relies on `<num_bigint::BigInt as Clone>::clone`: the same integer.
#[verifier::external_body]
pub fn big_clone(a: &num_bigint::BigInt) -> (r: num_bigint::BigInt)
    ensures
        big_val(r) == big_val(*a),
{
    a.clone()
}

/// Relies on `num_rational::Ratio::new`, which reduces to lowest terms with a
/// positive denominator and panics only on a zero denominator.
#[verifier::external_body]
pub fn rat_new(n: num_bigint::BigInt, d: num_bigint::BigInt) -> (r: num_rational::BigRational)
    requires
        big_val(d) != 0,
    ensures
        fwf(rv(r)),
        feq(rv(r), Frac { n: big_val(n), d: big_val(d) }),
{
    num_rational::BigRational::new(n, d)
}

/// Relies on `num_rational::Ratio::from_integer`: the value n/1, stored as is.
#[verifier::external_body]
pub fn rat_from_u64(x: u64) -> (r: num_rational::BigRational)
    ensures
        rat_num(r) == x as int,
        rat_den(r) == 1,
{
    num_rational::BigRational::from_integer(num_bigint::BigInt::from(x))
}

/// Relies on `Add for &num_rational::BigRational`: the exact rational sum,
/// reduced with a positive denominator.
#[verifier::external_body]
pub fn rat_add(a: &num_rational::BigRational, b: &num_rational::BigRational) -> (r:
    num_rational::BigRational)
    requires
        fwf(rv(*a)),
        fwf(rv(*b)),
    ensures
        fwf(rv(r)),
        feq(rv(r), fadd(rv(*a), rv(*b))),
{
    a + b
}


/// Relies on `Sub for &num_rational::BigRational`: the exact rational
/// difference, reduced with a positive denominator.
#[verifier::external_body]
pub fn rat_sub(a: &num_rational::BigRational, b: &num_rational::BigRational) -> (r:
    num_rational::BigRational)
    requires
        fwf(rv(*a)),
        fwf(rv(*b)),
    ensures
        fwf(rv(r)),
        feq(rv(r), fsub(rv(*a), rv(*b))),
{
    a - b
}

/// Relies on `Mul for &num_rational::BigRational`: the exact rational product,
/// reduced with a positive denominator.
#[verifier::external_body]
pub fn rat_mul(a: &num_rational::BigRational, b: &num_rational::BigRational) -> (r:
    num_rational::BigRational)
    requires
        fwf(rv(*a)),
        fwf(rv(*b)),
    ensures
        fwf(rv(r)),
        feq(rv(r), fmul(rv(*a), rv(*b))),
{
    a * b
}

/// Relies on `Div for &num_rational::BigRational`: the exact rational
/// quotient, reduced with a positive denominator; panics only on a zero
/// divisor.
#[verifier::external_body]
pub fn rat_div(a: &num_rational::BigRational, b: &num_rational::BigRational) -> (r:
    num_rational::BigRational)
    requires
        fwf(rv(*a)),
        fwf(rv(*b)),
        rat_num(*b) != 0,
    ensures
        fwf(rv(r)),
        feq(fmul(rv(r), rv(*b)), rv(*a)),
{
    a / b
}

/// Relies on `PartialEq for num_rational::Ratio`, which compares the two
/// values as rational numbers.
#[verifier::external_body]
pub fn rat_eq(a: &num_rational::BigRational, b: &num_rational::BigRational) -> (r: bool)
    requires
        fwf(rv(*a)),
        fwf(rv(*b)),
    ensures
        r == feq(rv(*a), rv(*b)),
{
    a == b
}

/// Relies on `num_traits::Signed::is_positive` for `Ratio`: true when the
/// value is strictly positive (numerator and denominator of the same sign).
#[verifier::external_body]
pub fn rat_is_positive(a: &num_rational::BigRational) -> (r: bool)
    requires
        fwf(rv(*a)),
    ensures
        r == (rat_num(*a) > 0),
{
    a.is_positive()
}

/// Relies on `<num_rational::Ratio as Clone>::clone`: the same stored pair.
#[verifier::external_body]
pub fn rat_clone(a: &num_rational::BigRational) -> (r: num_rational::BigRational)
    ensures
        rat_num(r) == rat_num(*a),
        rat_den(r) == rat_den(*a),
{
    a.clone()
}

/// The value zero, as 0/1.
pub fn rat_zero() -> (r: num_rational::BigRational)
    ensures
        rat_num(r) == 0,
        rat_den(r) == 1,
{
    rat_from_u64(0)
}

/// The value one, as 1/1.
pub fn rat_one() -> (r: num_rational::BigRational)
    ensures
        rat_num(r) == 1,
        rat_den(r) == 1,
{
    rat_from_u64(1)
}

} // verus!
