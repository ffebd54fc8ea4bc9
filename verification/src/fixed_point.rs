//! Fixed-point numbers of 24 integer and 8 fractional bits, kept as their 32 bits: the bits `b`
//! stand for the number `b / 256`. The arithmetic is that of the `fixed` crate's `U24F8`.
use vstd::prelude::*;

verus! {

/// `fixed::types::U24F8::from_num` on a `u32`: the bits are the integer times 256. The crate
/// panics, or wraps, on an integer of more than 24 bits, so those are left out.
#[verifier::external_body]
pub(crate) fn u24f8_from_num(n: u32) -> (bits: u32)
    requires
        n < 0x100_0000,
    ensures
        bits == n * 256,
{
    fixed::types::U24F8::from_num(n).to_bits()
}

/// `fixed::types::U24F8` times a `u32`, its `Mul<u32>`: the bits are multiplied. A product that
/// does not fit is left out.
#[verifier::external_body]
pub(crate) fn u24f8_times_integer(bits: u32, n: u32) -> (product: u32)
    requires
        bits * n <= u32::MAX,
    ensures
        product == bits * n,
{
    (fixed::types::U24F8::from_bits(bits) * n).to_bits()
}

/// `fixed::types::U24F8` divided by another, its `Div`: the dividend's bits times 256, divided by
/// the divisor's bits, rounded down. Division by zero and a quotient that does not fit are left
/// out.
#[verifier::external_body]
pub(crate) fn u24f8_div(dividend: u32, divisor: u32) -> (quotient: u32)
    requires
        divisor > 0,
        dividend * 256 / (divisor as int) <= u32::MAX,
    ensures
        quotient == dividend * 256 / (divisor as int),
{
    (fixed::types::U24F8::from_bits(dividend) / fixed::types::U24F8::from_bits(divisor)).to_bits()
}

} // verus!
