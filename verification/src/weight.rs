//! Arithmetic on affinity weights.
//!
//! Weights are any `num_traits::Float` type. Each function here makes one call into
//! `num_traits` (or one of the std operators that `Float` requires) and states nothing about
//! the value it returns: IEEE arithmetic has no semantics in this crate's proofs, so every
//! weight is carried through the verified code as an opaque value. What the proofs cover is
//! the structure around the weights: which entries exist, in which order, in which row.

use num_traits::Float;
use vstd::prelude::*;

verus! {

/// `Zero::zero` of `num_traits`: the additive identity of `T`.
#[verifier::external_body]
pub(crate) fn w_zero<T: Float>() -> T {
    T::zero()
}

/// `One::one` of `num_traits`: the multiplicative identity of `T`.
#[verifier::external_body]
pub(crate) fn w_one<T: Float>() -> T {
    T::one()
}

/// `NumCast::from` of `num_traits`: `n` as a weight, or `None` where `T` cannot represent it.
#[verifier::external_body]
pub(crate) fn w_from_usize<T: Float>(n: usize) -> Option<T> {
    T::from(n)
}

/// `Add::add` on `T`.
#[verifier::external_body]
pub(crate) fn w_add<T: Float>(a: T, b: T) -> T {
    a + b
}

/// `Sub::sub` on `T`.
#[verifier::external_body]
pub(crate) fn w_sub<T: Float>(a: T, b: T) -> T {
    a - b
}

/// `Mul::mul` on `T`.
#[verifier::external_body]
pub(crate) fn w_mul<T: Float>(a: T, b: T) -> T {
    a * b
}

/// `Div::div` on `T`.
#[verifier::external_body]
pub(crate) fn w_div<T: Float>(a: T, b: T) -> T {
    a / b
}

/// `Float::recip`: `1 / a`.
#[verifier::external_body]
pub(crate) fn w_recip<T: Float>(a: T) -> T {
    a.recip()
}

/// `Float::abs`.
#[verifier::external_body]
pub(crate) fn w_abs<T: Float>(a: T) -> T {
    a.abs()
}

/// `Float::exp`.
#[verifier::external_body]
pub(crate) fn w_exp<T: Float>(a: T) -> T {
    a.exp()
}

/// `Float::neg_infinity`.
#[verifier::external_body]
pub(crate) fn w_neg_infinity<T: Float>() -> T {
    T::neg_infinity()
}

/// `Float::is_finite`.
#[verifier::external_body]
pub(crate) fn w_is_finite<T: Float>(a: T) -> bool {
    a.is_finite()
}

/// `PartialOrd::lt` on `T`.
#[verifier::external_body]
pub(crate) fn w_lt<T: Float>(a: T, b: T) -> bool {
    a < b
}

/// `PartialOrd::le` on `T`.
#[verifier::external_body]
pub(crate) fn w_le<T: Float>(a: T, b: T) -> bool {
    a <= b
}

/// `PartialEq::eq` on `T`.
#[verifier::external_body]
pub(crate) fn w_eq<T: Float>(a: T, b: T) -> bool {
    a == b
}

/// `Float::max`.
#[verifier::external_body]
pub(crate) fn w_max<T: Float>(a: T, b: T) -> T {
    a.max(b)
}

/// `NumCast::from` of `num_traits`: `n` as a weight, or `None` where `T` cannot represent it.
#[verifier::external_body]
pub(crate) fn w_from_u64<T: Float>(n: u64) -> Option<T> {
    T::from(n)
}

/// `n` built in `T`'s own arithmetic, one binary digit at a time from the most significant:
/// double, then add one where the digit is set.
fn w_by_doubling<T: Float>(n: u64) -> T {
    let one: T = w_one();
    let mut acc: T = w_zero();
    let mut i: u64 = 64;
    while i > 0
        invariant
            i <= 64,
        decreases i,
    {
        i = i - 1;
        acc = w_add(acc, acc);
        if (n >> i) & 1 == 1 {
            acc = w_add(acc, one);
        }
    }
    acc
}

/// A count as a weight: `NumCast::from` where `T` can represent it, else the count built by
/// doubling in `T`'s own arithmetic.
pub(crate) fn w_count<T: Float>(n: usize) -> T {
    match w_from_usize(n) {
        Some(v) => v,
        None => w_by_doubling(n as u64),
    }
}

/// A 64-bit count as a weight, as [`w_count`] does for `usize`.
pub(crate) fn w_count64<T: Float>(n: u64) -> T {
    match w_from_u64(n) {
        Some(v) => v,
        None => w_by_doubling(n),
    }
}

/// `Float::ln`.
#[verifier::external_body]
pub(crate) fn w_ln<T: Float>(a: T) -> T {
    a.ln()
}

/// `Float::sqrt`.
#[verifier::external_body]
pub(crate) fn w_sqrt<T: Float>(a: T) -> T {
    a.sqrt()
}

/// `Float::cos`.
#[verifier::external_body]
pub(crate) fn w_cos<T: Float>(a: T) -> T {
    a.cos()
}

/// `Float::acos`.
#[verifier::external_body]
pub(crate) fn w_acos<T: Float>(a: T) -> T {
    a.acos()
}

/// `Float::signum`.
#[verifier::external_body]
pub(crate) fn w_signum<T: Float>(a: T) -> T {
    a.signum()
}

/// `Float::epsilon`: the machine epsilon of `T`.
#[verifier::external_body]
pub(crate) fn w_epsilon<T: Float>() -> T {
    T::epsilon()
}

/// `Neg::neg` on `T`.
#[verifier::external_body]
pub(crate) fn w_neg<T: Float>(a: T) -> T {
    -a
}

/// `RngCore::try_fill_bytes` on the operating system's generator (`rand::rngs::OsRng`): eight
/// random bytes read as a little-endian seed, or `None` when the operating system cannot
/// supply them. Nothing is stated of the value.
#[verifier::external_body]
pub(crate) fn random_seed() -> Option<u64> {
    let mut bytes = [0u8; 8];
    match rand::RngCore::try_fill_bytes(&mut rand::rngs::OsRng, &mut bytes) {
        Ok(()) => Some(u64::from_le_bytes(bytes)),
        Err(_) => None,
    }
}

} // verus!
