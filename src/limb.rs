use vstd::prelude::*;

verus! {

/// The radix of one limb, `2^64`.
pub open spec fn radix() -> nat {
    0x1_0000_0000_0000_0000nat
}

/// Full product of two limbs, as `(high, low)`.
pub fn mul_hilo(a: u64, b: u64) -> (r: (u64, u64))
    ensures
        r.0 * radix() + r.1 == a * b,
{
    assert(a * b <= 0xffff_ffff_ffff_fffe_0000_0000_0000_0001u128) by (nonlinear_arith)
        requires
            a <= 0xffff_ffff_ffff_ffffu64,
            b <= 0xffff_ffff_ffff_ffffu64,
    ;
    let p: u128 = (a as u128) * (b as u128);
    let hi: u64 = (p >> 64u32) as u64;
    let lo: u64 = #[verifier::truncate] (p as u64);
    assert(hi * 0x1_0000_0000_0000_0000u128 + lo == p) by (bit_vector)
        requires
            hi == (p >> 64u32) as u64,
            lo == p as u64,
    ;
    (hi, lo)
}

/// Sum of two limbs, with the carry out.
pub fn add_overflow(a: u64, b: u64) -> (r: (u64, bool))
    ensures
        r.0 + (if r.1 { radix() } else { 0 }) == a + b,
{
    if a <= u64::MAX - b {
        (a + b, false)
    } else {
        (a - (u64::MAX - b) - 1, true)
    }
}

/// Difference of two limbs, with the borrow out.
pub fn sub_overflow(a: u64, b: u64) -> (r: (u64, bool))
    ensures
        r.0 - (if r.1 { radix() } else { 0 }) == a - b,
{
    if b <= a {
        (a - b, false)
    } else {
        (u64::MAX - (b - a) + 1, true)
    }
}

} // verus!
