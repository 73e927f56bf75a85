//! Fixed-point arithmetic.
//!
//! A fixed-point number is held by its bits: an `I32F32` as an `i64`, an
//! `I64F64` and an `I96F32` as an `i128`.  The value of bits `b` is
//! `b / 2^32` (or `b / 2^64` for `I64F64`).  Every operation is carried out by
//! `substrate_fixed`; the functions below only convert to and from the bits.

use substrate_fixed::types::{I32F32, I64F64, I96F32};
use vstd::prelude::*;

verus! {

/// The bits of the fixed-point number one, with 32 fractional bits.
pub const ONE: i64 = 4294967296;

/// `2^32`: the scale of `I32F32` and `I96F32`.
pub open spec fn scale32() -> int {
    4294967296
}

/// `2^64`: the scale of `I64F64`.
pub open spec fn scale64() -> int {
    18446744073709551616
}

/// Division that rounds toward zero, as Rust's integer `/` does.
pub open spec fn div_trunc(x: int, d: int) -> int {
    if (x < 0) == (d < 0) {
        abs(x) / abs(d)
    } else {
        -(abs(x) / abs(d))
    }
}

/// Absolute value.
pub open spec fn abs(x: int) -> int {
    if x < 0 {
        -x
    } else {
        x
    }
}

/// Product of two numbers with 32 fractional bits: the exact product,
/// rounded toward minus infinity to 32 fractional bits.
pub open spec fn fmul(a: int, b: int) -> int {
    (a * b) / scale32()
}

/// Quotient of two numbers with 32 fractional bits, rounded toward zero.
pub open spec fn fdiv(a: int, b: int) -> int {
    div_trunc(a * scale32(), b)
}

/// Quotient of two numbers with 64 fractional bits, rounded toward zero.
pub open spec fn fdiv64(a: int, b: int) -> int {
    div_trunc(a * scale64(), b)
}

/// Whether an integer fits in `i64`.
pub open spec fn fits_i64(x: int) -> bool {
    i64::MIN <= x <= i64::MAX
}

/// Whether an integer fits in `i128`.
pub open spec fn fits_i128(x: int) -> bool {
    i128::MIN <= x <= i128::MAX
}

/// `I32F32` addition (`Add` of `substrate_fixed`), which adds the bits.
#[verifier::external_body]
pub(crate) fn fx32_add(a: i64, b: i64) -> (r: i64)
    requires
        fits_i64(a + b),
    ensures
        r == a + b,
{
    (I32F32::from_bits(a) + I32F32::from_bits(b)).to_bits()
}

/// `I32F32` subtraction (`Sub` of `substrate_fixed`), which subtracts the bits.
#[verifier::external_body]
pub(crate) fn fx32_sub(a: i64, b: i64) -> (r: i64)
    requires
        fits_i64(a - b),
    ensures
        r == a - b,
{
    (I32F32::from_bits(a) - I32F32::from_bits(b)).to_bits()
}

/// `I32F32` multiplication (`Mul` of `substrate_fixed`): the product of the
/// bits shifted right by 32, i.e. rounded toward minus infinity.
#[verifier::external_body]
pub(crate) fn fx32_mul(a: i64, b: i64) -> (r: i64)
    requires
        fits_i64(fmul(a as int, b as int)),
    ensures
        r == fmul(a as int, b as int),
{
    (I32F32::from_bits(a) * I32F32::from_bits(b)).to_bits()
}

/// `I32F32` division (`Div` of `substrate_fixed`): the bits of `a` shifted
/// left by 32 and divided by the bits of `b`, rounded toward zero.
#[verifier::external_body]
pub(crate) fn fx32_div(a: i64, b: i64) -> (r: i64)
    requires
        b != 0,
        fits_i64(fdiv(a as int, b as int)),
    ensures
        r == fdiv(a as int, b as int),
{
    (I32F32::from_bits(a) / I32F32::from_bits(b)).to_bits()
}

/// `I32F32::from_num` of a `u16`: the integer, exactly.
#[verifier::external_body]
pub(crate) fn fx32_from_u16(x: u16) -> (r: i64)
    ensures
        r == x * scale32(),
{
    I32F32::from_num(x).to_bits()
}

/// `I32F32::to_num::<u16>`: the fractional bits are truncated (rounding
/// toward minus infinity); the integer part must fit in `u16`.
#[verifier::external_body]
pub(crate) fn fx32_to_u16(a: i64) -> (r: u16)
    requires
        0 <= (a as int) / scale32() <= u16::MAX,
    ensures
        r == (a as int) / scale32(),
{
    I32F32::from_bits(a).to_num::<u16>()
}

/// `I32F32::from_num` of an `I64F64`: the extra 32 fractional bits are
/// truncated (rounding toward minus infinity); the result must fit.
#[verifier::external_body]
pub(crate) fn fx32_from_fx64(a: i128) -> (r: i64)
    requires
        fits_i64((a as int) / scale32()),
    ensures
        r == (a as int) / scale32(),
{
    I32F32::from_num(I64F64::from_bits(a)).to_bits()
}

/// `I64F64::from_num` of a `u64`: the integer, exactly; it must fit in the
/// 64 integer bits of `I64F64`.
#[verifier::external_body]
pub(crate) fn fx64_from_u64(x: u64) -> (r: i128)
    requires
        x <= i64::MAX,
    ensures
        r == x * scale64(),
{
    I64F64::from_num(x).to_bits()
}

/// `I64F64` addition (`Add` of `substrate_fixed`), which adds the bits.
#[verifier::external_body]
pub(crate) fn fx64_add(a: i128, b: i128) -> (r: i128)
    requires
        fits_i128(a + b),
    ensures
        r == a + b,
{
    (I64F64::from_bits(a) + I64F64::from_bits(b)).to_bits()
}

/// `I64F64` division (`Div` of `substrate_fixed`): the bits of `a` shifted
/// left by 64 and divided by the bits of `b`, rounded toward zero.
#[verifier::external_body]
pub(crate) fn fx64_div(a: i128, b: i128) -> (r: i128)
    requires
        b != 0,
        fits_i128(fdiv64(a as int, b as int)),
    ensures
        r == fdiv64(a as int, b as int),
{
    (I64F64::from_bits(a) / I64F64::from_bits(b)).to_bits()
}

/// `I96F32::from_num` of an `I32F32`: both have 32 fractional bits, so the
/// bits are the same.
#[verifier::external_body]
pub(crate) fn fx96_from_fx32(a: i64) -> (r: i128)
    ensures
        r == a,
{
    I96F32::from_num(I32F32::from_bits(a)).to_bits()
}

/// `I96F32::from_num` of a `u64`: the integer, exactly.
#[verifier::external_body]
pub(crate) fn fx96_from_u64(x: u64) -> (r: i128)
    ensures
        r == x * scale32(),
{
    I96F32::from_num(x).to_bits()
}

/// `I96F32` multiplication (`Mul` of `substrate_fixed`): the exact product
/// rounded toward minus infinity to 32 fractional bits.
#[verifier::external_body]
pub(crate) fn fx96_mul(a: i128, b: i128) -> (r: i128)
    requires
        fits_i128(fmul(a as int, b as int)),
    ensures
        r == fmul(a as int, b as int),
{
    (I96F32::from_bits(a) * I96F32::from_bits(b)).to_bits()
}

/// `I96F32::to_num::<u64>`: the fractional bits are truncated (rounding
/// toward minus infinity); the integer part must fit in `u64`.
#[verifier::external_body]
pub(crate) fn fx96_to_u64(a: i128) -> (r: u64)
    requires
        0 <= (a as int) / scale32() <= u64::MAX,
    ensures
        r == (a as int) / scale32(),
{
    I96F32::from_bits(a).to_num::<u64>()
}

} // verus!
