//! The scalar numbers that the computation graph stores.
//!
//! Every node's value and gradient is a `num_bigfloat::BigFloat`: an
//! arbitrary-precision decimal float with the usual NaN/Inf propagation.
//! The type is opaque to the verifier; each arithmetic operation the engine
//! uses is given a name by an uninterpreted spec function, so that contracts
//! can say exactly which computation produced a result without restating
//! the numerics.
use vstd::prelude::*;

verus! {

#[verifier::external_type_specification]
#[verifier::external_body]
pub struct ExBigFloat(num_bigfloat::BigFloat);

/// The number type used for node values, gradients and exponents.
pub type Real = num_bigfloat::BigFloat;

/// The sum of `a` and `b`, as `BigFloat::add` computes it.
pub uninterp spec fn real_add(a: Real, b: Real) -> Real;

/// The difference `a - b`, as `BigFloat::sub` computes it.
pub uninterp spec fn real_sub(a: Real, b: Real) -> Real;

/// The product of `a` and `b`, as `BigFloat::mul` computes it.
pub uninterp spec fn real_mul(a: Real, b: Real) -> Real;

/// `base` raised to `exponent`, as `BigFloat::pow` computes it.
pub uninterp spec fn real_pow(base: Real, exponent: Real) -> Real;

/// `e` raised to `a`, as `BigFloat::exp` computes it.
pub uninterp spec fn real_exp(a: Real) -> Real;

/// The hyperbolic tangent of `a`, as `BigFloat::tanh` computes it.
pub uninterp spec fn real_tanh(a: Real) -> Real;

/// The scalar with integer value `i`, as `BigFloat::from_i64` computes it.
pub uninterp spec fn real_of_int(i: int) -> Real;

/// The scalar zero, the initial gradient of every node.
pub open spec fn real_zero() -> Real {
    real_of_int(0)
}

/// The scalar one, the gradient seed of a backward pass.
pub open spec fn real_one() -> Real {
    real_of_int(1)
}

/// Relies on num_bigfloat::BigFloat::add: addition, a function of its two
/// arguments alone (NaN and infinities included).
pub assume_specification[ num_bigfloat::BigFloat::add ](
    d: &num_bigfloat::BigFloat,
    d2: &num_bigfloat::BigFloat,
) -> (r: num_bigfloat::BigFloat)
    ensures
        r == real_add(*d, *d2),
;

/// Relies on num_bigfloat::BigFloat::sub: subtraction, a function of its two
/// arguments alone.
pub assume_specification[ num_bigfloat::BigFloat::sub ](
    d: &num_bigfloat::BigFloat,
    d2: &num_bigfloat::BigFloat,
) -> (r: num_bigfloat::BigFloat)
    ensures
        r == real_sub(*d, *d2),
;

/// Relies on num_bigfloat::BigFloat::mul: multiplication, a function of its
/// two arguments alone.
pub assume_specification[ num_bigfloat::BigFloat::mul ](
    d: &num_bigfloat::BigFloat,
    d2: &num_bigfloat::BigFloat,
) -> (r: num_bigfloat::BigFloat)
    ensures
        r == real_mul(*d, *d2),
;

/// Relies on num_bigfloat::BigFloat::pow: exponentiation, a function of base
/// and exponent alone.
pub assume_specification[ num_bigfloat::BigFloat::pow ](
    d: &num_bigfloat::BigFloat,
    d1: &num_bigfloat::BigFloat,
) -> (r: num_bigfloat::BigFloat)
    ensures
        r == real_pow(*d, *d1),
;

/// Relies on num_bigfloat::BigFloat::exp: the natural exponential, a function
/// of its argument alone.
#[verifier::external_body]
pub fn exp_scalar(d: &Real) -> (r: Real)
    ensures
        r == real_exp(*d),
{
    d.exp()
}

/// Relies on num_bigfloat::BigFloat::tanh: the hyperbolic tangent, a function
/// of its argument alone.
pub assume_specification[ num_bigfloat::BigFloat::tanh ](
    d: &num_bigfloat::BigFloat,
) -> (r: num_bigfloat::BigFloat)
    ensures
        r == real_tanh(*d),
;

/// Relies on num_bigfloat::BigFloat::from_i64: conversion from an integer,
/// a function of its argument alone.
pub assume_specification[ num_bigfloat::BigFloat::from_i64 ](i: i64) -> (r: num_bigfloat::BigFloat)
    ensures
        r == real_of_int(i as int),
;

} // verus!
