use vstd::prelude::*;

verus! {

/// Low half of the f32 mantissa cleared: an f32 carries 24 mantissa digits,
/// so the 12 least significant bits are masked away before comparing.
pub const F32_ROUGH_MASK: u32 = 0xffff_f000;

/// Low half of the f64 mantissa cleared: an f64 carries 53 mantissa digits,
/// so the 26 least significant bits are masked away before comparing.
pub const F64_ROUGH_MASK: u64 = 0xffff_ffff_fc00_0000;

/// The bit pattern of an f32 that is a NaN: exponent all ones, mantissa not
/// zero.
pub open spec fn f32_is_nan(bits: u32) -> bool {
    bits & 0x7f80_0000 == 0x7f80_0000 && bits & 0x007f_ffff != 0
}

/// The bit pattern of an f32 that is a zero, of either sign.
pub open spec fn f32_is_zero(bits: u32) -> bool {
    bits & 0x7fff_ffff == 0
}

/// The bit pattern of an f64 that is a NaN.
pub open spec fn f64_is_nan(bits: u64) -> bool {
    bits & 0x7ff0_0000_0000_0000 == 0x7ff0_0000_0000_0000 && bits & 0x000f_ffff_ffff_ffff != 0
}

/// The bit pattern of an f64 that is a zero, of either sign.
pub open spec fn f64_is_zero(bits: u64) -> bool {
    bits & 0x7fff_ffff_ffff_ffff == 0
}

/// Roughly-equal policy for f32 values, over their bit patterns: clear the
/// low half of each mantissa, then compare as IEEE-754 `==` compares the
/// masked values (zeros of both signs are equal, NaN is equal to nothing).
pub open spec fn f32_roughly_eq_spec(a: u32, b: u32) -> bool {
    let ma = a & F32_ROUGH_MASK;
    let mb = b & F32_ROUGH_MASK;
    if f32_is_nan(ma) || f32_is_nan(mb) {
        false
    } else if f32_is_zero(ma) && f32_is_zero(mb) {
        true
    } else {
        ma == mb
    }
}

/// Roughly-equal policy for f64 values, over their bit patterns.
pub open spec fn f64_roughly_eq_spec(a: u64, b: u64) -> bool {
    let ma = a & F64_ROUGH_MASK;
    let mb = b & F64_ROUGH_MASK;
    if f64_is_nan(ma) || f64_is_nan(mb) {
        false
    } else if f64_is_zero(ma) && f64_is_zero(mb) {
        true
    } else {
        ma == mb
    }
}

/// Whether two f32 bit patterns are roughly equal: exact bitwise float
/// equality is useless against live memory whose low mantissa bits drift, so
/// the low half of each mantissa is cleared first.
pub fn f32_roughly_eq_bits(a: u32, b: u32) -> (r: bool)
    ensures
        r == f32_roughly_eq_spec(a, b),
{
    let ma = a & F32_ROUGH_MASK;
    let mb = b & F32_ROUGH_MASK;
    if (ma & 0x7f80_0000 == 0x7f80_0000 && ma & 0x007f_ffff != 0) || (mb & 0x7f80_0000
        == 0x7f80_0000 && mb & 0x007f_ffff != 0) {
        false
    } else if ma & 0x7fff_ffff == 0 && mb & 0x7fff_ffff == 0 {
        true
    } else {
        ma == mb
    }
}

/// Whether two f64 bit patterns are roughly equal.
pub fn f64_roughly_eq_bits(a: u64, b: u64) -> (r: bool)
    ensures
        r == f64_roughly_eq_spec(a, b),
{
    let ma = a & F64_ROUGH_MASK;
    let mb = b & F64_ROUGH_MASK;
    if (ma & 0x7ff0_0000_0000_0000 == 0x7ff0_0000_0000_0000 && ma & 0x000f_ffff_ffff_ffff != 0)
        || (mb & 0x7ff0_0000_0000_0000 == 0x7ff0_0000_0000_0000 && mb & 0x000f_ffff_ffff_ffff
        != 0) {
        false
    } else if ma & 0x7fff_ffff_ffff_ffff == 0 && mb & 0x7fff_ffff_ffff_ffff == 0 {
        true
    } else {
        ma == mb
    }
}

/// An f32 value is roughly equal to its own memory representation exactly
/// when its masked pattern is not a NaN: NaN values are equal to nothing,
/// and are accepted as they are.
pub proof fn lemma_f32_roughly_eq_reflexive(bits: u32)
    ensures
        f32_roughly_eq_spec(bits, bits) == !f32_is_nan(bits & F32_ROUGH_MASK),
{
}

/// An f64 value is roughly equal to its own memory representation exactly
/// when its masked pattern is not a NaN.
pub proof fn lemma_f64_roughly_eq_reflexive(bits: u64)
    ensures
        f64_roughly_eq_spec(bits, bits) == !f64_is_nan(bits & F64_ROUGH_MASK),
{
}

} // verus!
