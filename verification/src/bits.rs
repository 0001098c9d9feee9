//! Single-precision numbers by their bits.
use crate::float::{float_neg, Float, SINGLE};
use crate::geometry::single;
use vstd::prelude::*;

verus! {

/// The exponent field of a number.
pub open spec fn exponent_bits(bits: int) -> int {
    (bits / 0x80_0000) % 0x100
}

/// The fraction field of a number.
pub open spec fn fraction_bits(bits: int) -> int {
    bits % 0x80_0000
}

/// Whether bits stand for an infinity, or for no number at all.
pub open spec fn is_special(bits: int) -> bool {
    exponent_bits(bits) == 0xff
}

/// `m * 2^e` as a number of single precision, for an `m` of up to 24 bits.
pub open spec fn shifted(m: int, e: int) -> (int, int) {
    if m == 0 {
        (0, 0)
    } else {
        (single(m).0, single(m).1 + e)
    }
}

/// The number that bits stand for, where they stand for a finite one.
pub open spec fn decoded(bits: int) -> (int, int) {
    let e = exponent_bits(bits);
    let m = fraction_bits(bits);
    let v = if e == 0 {
        shifted(m, -149)
    } else {
        shifted(m + 0x80_0000, e - 150)
    };
    if bits >= 0x8000_0000 {
        float_neg(v)
    } else {
        v
    }
}

fn shift(m: u32, e: i32) -> (r: Float)
    requires
        m < 0x100_0000,
        -150 <= e <= 150,
    ensures
        r@ == shifted(m as int, e as int),
        r.fits(SINGLE as nat, 400),
        r.mant >= 0,
{
    if m == 0 {
        return Float { mant: 0, exp: 0 };
    }
    let v = Float::from_int(SINGLE, m as i128);
    Float { mant: v.mant, exp: v.exp + e }
}

/// The number that bits stand for.
pub fn decode(bits: u32) -> (r: Float)
    requires
        !is_special(bits as int),
    ensures
        r@ == decoded(bits as int),
        r.fits(SINGLE as nat, 400),
{
    let e: u32 = (bits / 0x80_0000) % 0x100;
    let m: u32 = bits % 0x80_0000;
    let v = if e == 0 { shift(m, -149) } else { shift(m + 0x80_0000, e as i32 - 150) };
    proof {
        vstd::arithmetic::power2::lemma2_to64();
    }
    if bits >= 0x8000_0000 {
        v.neg()
    } else {
        v
    }
}

} // verus!
