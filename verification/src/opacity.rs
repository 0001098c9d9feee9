//! The opacity of a fence, kept as the bits of a single-precision number.
use crate::bits::{decode, decoded, fraction_bits, is_special};
use crate::float::{float_abs, float_add, float_le, float_mul, float_neg, float_trunc, Float, SINGLE};
use crate::geometry::{clamp_of, single};
use vstd::prelude::*;

verus! {

/// The bits of 1.0.
pub const OPAQUE: u32 = 0x3f80_0000;

/// The bits of 0.1.
pub const LEAST_OPACITY: u32 = 0x3dcc_cccd;

/// The bits of 0.7.
pub const OPACITY_70: u32 = 0x3f33_3333;

/// The bits of 0.45.
pub const OPACITY_45: u32 = 0x3ee6_6666;

/// The bits of 0.3.
pub const OPACITY_30: u32 = 0x3e99_999a;

/// A finite opacity, brought between 0.1 and 1.
pub open spec fn limited(v: (int, int)) -> (int, int) {
    if !float_le(decoded(LEAST_OPACITY as int), v) {
        decoded(LEAST_OPACITY as int)
    } else if !float_le(v, decoded(OPAQUE as int)) {
        decoded(OPAQUE as int)
    } else {
        v
    }
}

/// An opacity, brought between 0.1 and 1; what is no number stays so.
pub open spec fn limited_opacity(bits: int) -> Option<(int, int)> {
    if !is_special(bits) {
        Some(limited(decoded(bits)))
    } else if fraction_bits(bits) != 0 {
        None
    } else if bits >= 0x8000_0000 {
        Some(decoded(LEAST_OPACITY as int))
    } else {
        Some(decoded(OPAQUE as int))
    }
}

/// The opacity of the panel, from 0 to 255.
pub open spec fn alpha_of(bits: int) -> int {
    match limited_opacity(bits) {
        Some(v) => clamp_of(float_trunc(float_mul(SINGLE as nat, single(255), v)), 0, 255),
        None => 0,
    }
}

fn limit(v: Float) -> (r: Float)
    requires
        v.fits(SINGLE as nat, 400),
    ensures
        r@ == limited(v@),
        r.fits(SINGLE as nat, 400),
{
    let least = decode(LEAST_OPACITY);
    let most = decode(OPAQUE);
    if !least.le(SINGLE, v) {
        least
    } else if !v.le(SINGLE, most) {
        most
    } else {
        v
    }
}

/// The opacity of the panel, from 0 to 255.
pub fn background_alpha(bits: u32) -> (r: u8)
    ensures
        r == alpha_of(bits as int),
{
    let special: bool = (bits / 0x80_0000) % 0x100 == 0xff;
    let v = if !special {
        limit(decode(bits))
    } else if bits % 0x80_0000 != 0 {
        return 0;
    } else if bits >= 0x8000_0000 {
        decode(LEAST_OPACITY)
    } else {
        decode(OPAQUE)
    };
    let a: i32 = Float::from_int(SINGLE, 255).mul(SINGLE, v).trunc_i32(SINGLE);
    if a < 0 {
        0
    } else if a > 255 {
        255
    } else {
        a as u8
    }
}

/// How far an opacity is from another one.
pub open spec fn opacity_gap(v: (int, int), preset: int) -> (int, int) {
    float_abs(float_add(SINGLE as nat, v, float_neg(decoded(preset))))
}

/// The commands of the opacity menu, and the opacity of each.
pub open spec fn preset_id(k: int) -> u32 {
    if k == 0 {
        1002
    } else if k == 1 {
        1003
    } else if k == 2 {
        1004
    } else {
        1012
    }
}

pub open spec fn preset_bits(k: int) -> u32 {
    if k == 0 {
        OPAQUE
    } else if k == 1 {
        OPACITY_70
    } else if k == 2 {
        OPACITY_45
    } else {
        OPACITY_30
    }
}

/// The nearest of the first `k + 1` opacities of the menu to `v`, the first where several are as near.
pub open spec fn nearest_preset(v: (int, int), k: int) -> int
    decreases k,
{
    if k <= 0 {
        0
    } else {
        let best = nearest_preset(v, k - 1);
        if float_le(opacity_gap(v, preset_bits(best) as int), opacity_gap(v, preset_bits(k) as int)) {
            best
        } else {
            k
        }
    }
}

/// The entry of the opacity menu that stands for an opacity; the first one for what is no finite
/// number.
pub open spec fn chosen_preset(bits: int) -> int {
    if is_special(bits) {
        0
    } else {
        nearest_preset(decoded(bits), 3)
    }
}

/// The opacity of an entry of the menu.
pub fn preset(k: u32) -> (r: u32)
    ensures
        r == preset_bits(k as int),
        !is_special(r as int),
{
    if k == 0 {
        OPAQUE
    } else if k == 1 {
        OPACITY_70
    } else if k == 2 {
        OPACITY_45
    } else {
        OPACITY_30
    }
}

/// The command of an entry of the menu.
pub fn preset_command(k: u32) -> (r: u32)
    ensures
        r == preset_id(k as int),
{
    if k == 0 {
        1002
    } else if k == 1 {
        1003
    } else if k == 2 {
        1004
    } else {
        1012
    }
}

fn gap(v: Float, k: u32) -> (r: Float)
    requires
        v.fits(SINGLE as nat, 400),
    ensures
        r@ == opacity_gap(v@, preset_bits(k as int) as int),
        r.fits(SINGLE as nat, 1000),
{
    proof {
        vstd::arithmetic::power2::lemma2_to64();
    }
    v.add(SINGLE, decode(preset(k)).neg()).abs()
}

/// The entry of the opacity menu that stands for an opacity.
pub fn selected_preset(bits: u32) -> (r: u32)
    ensures
        r == chosen_preset(bits as int),
        r <= 3,
{
    if (bits / 0x80_0000) % 0x100 == 0xff {
        return 0;
    }
    let v = decode(bits);
    let mut best: u32 = 0;
    let mut k: u32 = 1;
    while k < 4
        invariant
            1 <= k <= 4,
            best < k,
            v@ == decoded(bits as int),
            v.fits(SINGLE as nat, 400),
            best == nearest_preset(v@, k - 1),
        decreases 4 - k,
    {
        if !gap(v, best).le(SINGLE, gap(v, k)) {
            best = k;
        }
        k = k + 1;
    }
    best
}

} // verus!
