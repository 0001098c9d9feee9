//! Pixel lengths as a function of the DPI, rectangles, and the pull of the grid.
//!
//! A display's DPI is a 16-bit integer; its scale factor is that integer over 96, in single
//! precision. Lengths in logical pixels are multiplied by the factor and cut off, or rounded where
//! the text says so.
use crate::float::{
    canonical, distance, float_abs, float_add, float_div, float_le, float_mul, float_neg, float_round, float_trunc,
    int_to_float, lemma_round_ratio_canonical, lemma_shifted_int, round_signed, saturate, scale, Float, SINGLE,
};
use crate::order::{
    lemma_add_order, lemma_div_order, lemma_int_order, lemma_le_neg, lemma_le_total, lemma_le_transitive, lemma_le_zero,
    lemma_mul_commutes, lemma_mul_negated, lemma_mul_one, lemma_mul_order, lemma_sub_order, lemma_sub_self,
};
use crate::precision::{
    den, lemma_div_near, lemma_div_round, lemma_exact_quotient, lemma_int_add, lemma_int_exact, lemma_int_near,
    lemma_int_product, lemma_mul_near, lemma_quotient_near, lemma_scale_pos, lemma_unit_quotient, near, num,
};
use vstd::arithmetic::power2::{lemma2_to64, lemma_pow2_pos, pow2};
use vstd::prelude::*;

verus! {

/// The DPI of an unscaled display.
pub const BASE_DPI: u32 = 96;

/// The largest DPI that a window can report.
pub const MAX_DPI: u32 = 0xffff;

/// The largest icon, in logical pixels.
pub const MAX_ICON: u32 = 128;

/// A rectangle by its edges; the right and bottom edges lie outside it.
#[derive(Clone, Copy, Debug, PartialEq, Eq, Structural)]
pub struct Rect {
    pub left: i32,
    pub top: i32,
    pub right: i32,
    pub bottom: i32,
}

/// A single-precision number from an integer.
pub open spec fn single(v: int) -> (int, int) {
    int_to_float(SINGLE as nat, v)
}

/// The scale factor of a display.
pub open spec fn dpi_ratio(dpi: int) -> (int, int) {
    float_div(SINGLE as nat, single(dpi), single(BASE_DPI as int))
}

/// `c` logical pixels on a display, cut off to whole physical pixels.
pub open spec fn scaled_px(c: int, dpi: int) -> int {
    saturate(float_trunc(float_mul(SINGLE as nat, single(c), dpi_ratio(dpi))))
}

/// `c` logical pixels on a display, rounded to whole physical pixels.
pub open spec fn rounded_px(c: int, dpi: int) -> int {
    saturate(float_round(float_mul(SINGLE as nat, single(c), dpi_ratio(dpi))))
}

/// The DPI that a scale factor stands for.
pub open spec fn dpi_of_ratio(dpi: int) -> int {
    let v = float_round(float_mul(SINGLE as nat, single(BASE_DPI as int), dpi_ratio(dpi)));
    if v > u32::MAX {
        u32::MAX as int
    } else {
        v
    }
}

/// The larger of two integers.
pub open spec fn max_of(a: int, b: int) -> int {
    if a >= b {
        a
    } else {
        b
    }
}

/// The smaller of two integers.
pub open spec fn min_of(a: int, b: int) -> int {
    if a <= b {
        a
    } else {
        b
    }
}

/// `v` brought between `lo` and `hi`.
pub open spec fn clamp_of(v: int, lo: int, hi: int) -> int {
    if v < lo {
        lo
    } else if v > hi {
        hi
    } else {
        v
    }
}

/// The larger of two integers.
pub fn larger(a: i32, b: i32) -> (r: i32)
    ensures
        r == max_of(a as int, b as int),
{
    if a >= b {
        a
    } else {
        b
    }
}

proof fn lemma_single_limits()
    ensures
        pow2(24) == 0x100_0000,
        pow2(23) == 0x80_0000,
        SINGLE as nat == 24,
{
    lemma2_to64();
}

/// Where something of an extent goes between `lo` and `hi`: as near to `v` as it fits, and at `lo`
/// where it is too large.
pub fn place_within(v: i64, lo: i32, hi: i32, extent: i64) -> (r: i32)
    requires
        -0x1_0000_0000 <= extent <= 0x1_0000_0000,
        v <= i32::MAX || hi - extent <= i32::MAX,
    ensures
        r == clamp_of(v as int, lo as int, max_of(hi - extent, lo as int)),
{
    let last: i64 = hi as i64 - extent;
    let last: i64 = if last >= lo as i64 { last } else { lo as i64 };
    if v < lo as i64 {
        lo
    } else if v > last {
        last as i32
    } else {
        v as i32
    }
}

/// The scale factor of a display.
pub fn ratio(dpi: u32) -> (r: Float)
    ensures
        r@ == dpi_ratio(dpi as int),
        r.fits(SINGLE as nat, 600),
        r.mant >= 0,
{
    let a = Float::from_int(SINGLE, dpi as i128);
    let b = Float::from_int(SINGLE, BASE_DPI as i128);
    a.div(SINGLE, b)
}

/// `c` logical pixels on a display, cut off to whole physical pixels.
pub fn scaled(c: u32, dpi: u32) -> (r: i32)
    ensures
        r == scaled_px(c as int, dpi as int),
        r >= 0,
{
    let v = Float::from_int(SINGLE, c as i128).mul(SINGLE, ratio(dpi));
    proof {
        lemma_trunc_sign(v@);
    }
    v.trunc_i32(SINGLE)
}

/// `c` logical pixels on a display, rounded to whole physical pixels.
pub fn rounded(c: u32, dpi: u32) -> (r: i32)
    ensures
        r == rounded_px(c as int, dpi as int),
        r >= 0,
{
    let v = Float::from_int(SINGLE, c as i128).mul(SINGLE, ratio(dpi));
    proof {
        lemma_trunc_sign(v@);
    }
    v.round_i32(SINGLE)
}

proof fn lemma_trunc_sign(a: (int, int))
    requires
        a.0 >= 0,
    ensures
        float_trunc(a) >= 0,
        float_round(a) >= 0,
{
    lemma_scale_pos(a.1);
    lemma_scale_pos(-a.1);
    let k = scale(-a.1);
    let x = a.0 * scale(a.1);
    assert(x >= 0) by (nonlinear_arith)
        requires
            x == a.0 * scale(a.1),
            a.0 >= 0,
            scale(a.1) > 0,
    ;
    assert(2 * a.0 * scale(a.1) == 2 * x) by (nonlinear_arith)
        requires
            x == a.0 * scale(a.1),
    ;
    assert(x / k >= 0 && (2 * x + k) / (2 * k) >= 0) by (nonlinear_arith)
        requires
            x >= 0,
            k > 0,
    ;
}

/// The product behind `scaled_px` and `rounded_px` is within three parts in `2^24` of the exact one.
proof fn lemma_scaled_near(c: int, dpi: int)
    requires
        0 < c < 0x100_0000,
        0 < dpi < 0x100_0000,
    ensures
        ({
            let r = float_mul(SINGLE as nat, single(c), dpi_ratio(dpi));
            r.0 > 0 && near(24, 3, num(r), den(r), c * dpi, 96)
        }),
{
    lemma_single_limits();
    lemma_div_near(24, dpi, 96);
    lemma_mul_near(24, 1, c, dpi_ratio(dpi), dpi, 96);
}

proof fn lemma_zero()
    ensures
        single(0) == (0int, 0int),
        float_trunc((0int, 0int)) == 0,
        float_round((0int, 0int)) == 0,
{
    lemma_single_limits();
    lemma_scale_pos(0);
    assert(scale(-0) == 1);
    assert(2 * 0 * scale(0) == 0);
    assert((0 + 1int) / 2 == 0);
}

proof fn lemma_zero_px(c: int, dpi: int)
    requires
        c == 0 || dpi == 0,
    ensures
        scaled_px(c, dpi) == 0,
        rounded_px(c, dpi) == 0,
{
    reveal(float_mul);
    reveal(float_div);
    lemma_zero();
    if dpi == 0 {
        assert(dpi_ratio(dpi) == (0int, 0int));
    }
    assert(float_mul(SINGLE as nat, single(c), dpi_ratio(dpi)) == (0int, 0int));
}

/// A scaled length is at most twice the exact product.
pub proof fn lemma_scaled_px_bound(c: int, dpi: int)
    requires
        0 <= c < 0x1_0000,
        0 <= dpi <= MAX_DPI,
    ensures
        0 <= scaled_px(c, dpi),
        96 * scaled_px(c, dpi) <= 2 * (c * dpi),
        0 <= rounded_px(c, dpi),
        96 * rounded_px(c, dpi) <= 2 * (c * dpi) + 96,
{
    assert(c * dpi >= 0) by (nonlinear_arith)
        requires
            c >= 0,
            dpi >= 0,
    ;
    if c == 0 || dpi == 0 {
        lemma_zero_px(c, dpi);
    } else {
        lemma_scaled_near(c, dpi);
        lemma_single_limits();
        let r = float_mul(SINGLE as nat, single(c), dpi_ratio(dpi));
        lemma_trunc_sign(r);
        lemma_scale_pos(r.1);
        lemma_scale_pos(-r.1);
        let x = num(r);
        let y = den(r);
        let e = c * dpi;
        assert(96 * x <= 2 * (e * y)) by (nonlinear_arith)
            requires
                0x100_0000 * (x * 96 - e * y) <= 3 * (e * y),
                e >= 0,
                y > 0,
        ;
        assert(x >= 0) by (nonlinear_arith)
            requires
                x == r.0 * scale(r.1),
                r.0 > 0,
                scale(r.1) > 0,
        ;
        assert(2 * r.0 * scale(r.1) == 2 * x) by (nonlinear_arith)
            requires
                x == r.0 * scale(r.1),
        ;
        let t = x / y;
        assert(96 * t <= 2 * e) by (nonlinear_arith)
            requires
                t == x / y,
                96 * x <= 2 * (e * y),
                y > 0,
        ;
        let q = (2 * x + y) / (2 * y);
        assert(96 * q <= 2 * e + 96) by (nonlinear_arith)
            requires
                q == (2 * x + y) / (2 * y),
                96 * x <= 2 * (e * y),
                y > 0,
        ;
    }
}

/// A scaled length is within a pixel of the exact product and never longer, and a rounded one within
/// half a pixel, as long as the product of length and DPI is below `2^22`; beyond that rounding adds
/// a little.
pub proof fn lemma_scaled_px_close(c: int, dpi: int)
    requires
        0 < c,
        0 < dpi,
        c * dpi < 0x100_0000,
    ensures
        c * dpi - 99 <= 96 * scaled_px(c, dpi) <= c * dpi + 3,
        c * dpi - 51 <= 96 * rounded_px(c, dpi) <= c * dpi + 51,
        c * dpi < 0x40_0000 ==> c * dpi - 96 <= 96 * scaled_px(c, dpi) <= c * dpi,
        c * dpi < 0x40_0000 ==> c * dpi - 48 <= 96 * rounded_px(c, dpi) <= c * dpi + 48,
{
    let e = c * dpi;
    assert(c <= e && dpi <= e && e > 0) by (nonlinear_arith)
        requires
            e == c * dpi,
            c >= 1,
            dpi >= 1,
    ;
    lemma_scaled_near(c, dpi);
    lemma_single_limits();
    let r = float_mul(SINGLE as nat, single(c), dpi_ratio(dpi));
    lemma_trunc_sign(r);
    lemma_scale_pos(r.1);
    lemma_scale_pos(-r.1);
    let x = num(r);
    let y = den(r);
    let ey = e * y;
    let gap = 96 * x - ey;
    assert(ey <= 0x100_0000 * y) by (nonlinear_arith)
        requires
            ey == e * y,
            e <= 0x100_0000,
            y > 0,
    ;
    assert(-(3 * y) <= gap <= 3 * y);
    if e < 0x40_0000 {
        assert(ey <= 0x40_0000 * y) by (nonlinear_arith)
            requires
                ey == e * y,
                e <= 0x40_0000,
                y > 0,
        ;
        assert(-(3 * y) <= 4 * gap <= 3 * y);
    }
    assert(x >= 0) by (nonlinear_arith)
        requires
            x == r.0 * scale(r.1),
            r.0 > 0,
            scale(r.1) > 0,
    ;
    assert(2 * r.0 * scale(r.1) == 2 * x) by (nonlinear_arith)
        requires
            x == r.0 * scale(r.1),
    ;
    lemma_quotient_gap(x, y, e, gap);
}

proof fn lemma_quotient_gap(x: int, y: int, e: int, gap: int)
    requires
        x >= 0,
        y > 0,
        gap == 96 * x - e * y,
        -(3 * y) <= gap <= 3 * y,
    ensures
        e - 99 <= 96 * (x / y) <= e + 3,
        e - 51 <= 96 * ((2 * x + y) / (2 * y)) <= e + 51,
        -(3 * y) <= 4 * gap <= 3 * y ==> e - 96 <= 96 * (x / y) <= e,
        -(3 * y) <= 4 * gap <= 3 * y ==> e - 48 <= 96 * ((2 * x + y) / (2 * y)) <= e + 48,
{
    let t = x / y;
    let s = x % y;
    assert(x == y * t + s && 0 <= s < y) by (nonlinear_arith)
        requires
            t == x / y,
            s == x % y,
            y > 0,
    ;
    let u = 96 * t - e;
    assert(u * y == gap - 96 * s) by (nonlinear_arith)
        requires
            x == y * t + s,
            gap == 96 * x - e * y,
            u == 96 * t - e,
    ;
    assert(-99 <= u <= 3) by (nonlinear_arith)
        requires
            u * y == gap - 96 * s,
            0 <= s < y,
            -(3 * y) <= gap <= 3 * y,
    ;
    let q = (2 * x + y) / (2 * y);
    let m = (2 * x + y) % (2 * y);
    assert(2 * x + y == (2 * y) * q + m && 0 <= m < 2 * y) by (nonlinear_arith)
        requires
            q == (2 * x + y) / (2 * y),
            m == (2 * x + y) % (2 * y),
            y > 0,
    ;
    let v = 96 * q - e;
    assert(v * y == gap + 48 * y - 48 * m) by (nonlinear_arith)
        requires
            2 * x + y == (2 * y) * q + m,
            gap == 96 * x - e * y,
            v == 96 * q - e,
    ;
    assert(-51 <= v <= 51) by (nonlinear_arith)
        requires
            v * y == gap + 48 * y - 48 * m,
            0 <= m < 2 * y,
            -(3 * y) <= gap <= 3 * y,
    ;
    if -(3 * y) <= 4 * gap <= 3 * y {
        assert(-97 < u < 1) by (nonlinear_arith)
            requires
                u * y == gap - 96 * s,
                0 <= s < y,
                -(3 * y) <= 4 * gap <= 3 * y,
        ;
        assert(-49 < v < 49) by (nonlinear_arith)
            requires
                v * y == gap + 48 * y - 48 * m,
                0 <= m < 2 * y,
                -(3 * y) <= 4 * gap <= 3 * y,
        ;
    }
}

/// Reading a DPI back from its scale factor loses nothing.
pub proof fn lemma_dpi_round_trip(dpi: int)
    requires
        0 < dpi < 0x20_0000,
    ensures
        dpi_of_ratio(dpi) == dpi,
{
    lemma_scaled_near(96, dpi);
    lemma_single_limits();
    let r = float_mul(SINGLE as nat, single(96), dpi_ratio(dpi));
    lemma_scale_pos(r.1);
    lemma_scale_pos(-r.1);
    let x = num(r);
    let y = den(r);
    let e = 96 * dpi;
    let u = 96 * (x - dpi * y);
    assert(x * 96 - e * y == u) by (nonlinear_arith)
        requires
            e == 96 * dpi,
            u == 96 * (x - dpi * y),
    ;
    let w = dpi * y;
    assert(e * y == 96 * w) by (nonlinear_arith)
        requires
            e == 96 * dpi,
            w == dpi * y,
    ;
    assert(w < 0x20_0000 * y) by (nonlinear_arith)
        requires
            w == dpi * y,
            dpi < 0x20_0000,
            y > 0,
    ;
    assert(-y < 2 * (x - w) < y);
    assert((2 * x + y) / (2 * y) == dpi) by (nonlinear_arith)
        requires
            -y < 2 * (x - w) < y,
            w == dpi * y,
            y > 0,
    ;
    assert(2 * r.0 * scale(r.1) == 2 * x) by (nonlinear_arith)
        requires
            x == r.0 * scale(r.1),
    ;
}

/// The scale factor of the system, as the DPI it stands for: displays below 96 DPI are not
/// scaled down.
pub fn dpi_scale(reported: u32) -> (r: u32)
    ensures
        r == max_of(reported as int, BASE_DPI as int),
{
    if reported < BASE_DPI {
        BASE_DPI
    } else {
        reported
    }
}

/// The scale factor of the display a window is on, as the DPI it stands for.
pub fn window_dpi(reported: u32) -> (r: u32)
    ensures
        r == max_of(reported as int, BASE_DPI as int),
{
    if reported < BASE_DPI {
        BASE_DPI
    } else {
        reported
    }
}

/// The DPI that the scale factor of `dpi` stands for: what is saved with a window.
pub fn dpi_units(dpi: u32) -> (r: u32)
    ensures
        r == dpi_of_ratio(dpi as int),
        0 < dpi < 0x20_0000 ==> r == dpi,
{
    let v = Float::from_int(SINGLE, BASE_DPI as i128).mul(SINGLE, ratio(dpi));
    proof {
        if 0 < dpi < 0x20_0000 {
            lemma_dpi_round_trip(dpi as int);
        }
    }
    v.round_u32(SINGLE)
}

/// The height of the title bar.
pub fn title_h(dpi: u32) -> (r: i32)
    ensures
        r == scaled_px(30, dpi as int),
        r >= 0,
{
    scaled(30, dpi)
}

/// The width of the border in which a window can be resized.
pub fn edge(dpi: u32) -> (r: i32)
    ensures
        r == scaled_px(8, dpi as int),
        r >= 0,
{
    scaled(8, dpi)
}

/// The margin round the icon grid.
pub fn margin(dpi: u32) -> (r: i32)
    ensures
        r == scaled_px(10, dpi as int),
        r >= 0,
{
    scaled(10, dpi)
}

/// The width of the strip on the right that holds the page dots.
pub fn rail(dpi: u32) -> (r: i32)
    ensures
        r == scaled_px(22, dpi as int),
        r >= 0,
{
    scaled(22, dpi)
}

/// The height of an icon's label.
pub fn label_h(dpi: u32) -> (r: i32)
    ensures
        r == scaled_px(38, dpi as int),
        r >= 0,
{
    scaled(38, dpi)
}

/// The least width of a fence.
pub fn min_w(dpi: u32) -> (r: i32)
    ensures
        r == scaled_px(180, dpi as int),
        r >= 0,
{
    scaled(180, dpi)
}

/// The least height of a fence.
pub fn min_h(dpi: u32) -> (r: i32)
    ensures
        r == scaled_px(100, dpi as int),
        r >= 0,
{
    scaled(100, dpi)
}

/// The icon size that is in force for a requested one.
pub open spec fn icon_px_of(v: int) -> int {
    clamp_of(v, 16, MAX_ICON as int)
}

/// The icon size that is in force when `v` logical pixels are asked for.
pub fn set_icon_px(v: u32) -> (r: u32)
    ensures
        r == icon_px_of(v as int),
        16 <= r <= MAX_ICON,
{
    if v < 16 {
        16
    } else if v > MAX_ICON {
        MAX_ICON
    } else {
        v
    }
}

/// The size of an icon on a display; a size of 0 stands for 32.
pub open spec fn icon_of(icon_px: int, dpi: int) -> int {
    rounded_px(if icon_px == 0 { 32 } else { icon_px }, dpi)
}

/// The width of a grid cell.
pub open spec fn cell_w_of(icon_px: int, dpi: int) -> int {
    icon_of(icon_px, dpi) + 12
}

/// The height of a grid cell.
pub open spec fn cell_h_of(icon_px: int, dpi: int) -> int {
    icon_of(icon_px, dpi) + scaled_px(38, dpi)
}

/// The size of an icon in physical pixels.
pub fn icon(icon_px: u32, dpi: u32) -> (r: i32)
    ensures
        r == icon_of(icon_px as int, dpi as int),
        r >= 0,
{
    rounded(if icon_px == 0 { 32 } else { icon_px }, dpi)
}

/// The width of a grid cell.
pub fn cell_w(icon_px: u32, dpi: u32) -> (r: i32)
    requires
        cell_w_of(icon_px as int, dpi as int) <= i32::MAX,
    ensures
        r == cell_w_of(icon_px as int, dpi as int),
{
    icon(icon_px, dpi) + 12
}

/// The height of a grid cell.
pub fn cell_h(icon_px: u32, dpi: u32) -> (r: i32)
    requires
        cell_h_of(icon_px as int, dpi as int) <= i32::MAX,
    ensures
        r == cell_h_of(icon_px as int, dpi as int),
{
    icon(icon_px, dpi) + label_h(dpi)
}

/// Cells stay small on every display.
pub proof fn lemma_cell_bounds(icon_px: int, dpi: int)
    requires
        0 <= icon_px <= MAX_ICON,
        0 <= dpi <= MAX_DPI,
    ensures
        12 <= cell_w_of(icon_px, dpi) <= 0x4_0000,
        0 <= cell_h_of(icon_px, dpi) <= 0x4_0000,
        0 <= scaled_px(30, dpi) <= 0x1_0000,
        0 <= scaled_px(8, dpi) <= 0x1_0000,
        0 <= scaled_px(10, dpi) <= 0x1_0000,
        0 <= scaled_px(22, dpi) <= 0x1_0000,
        0 <= scaled_px(38, dpi) <= 0x1_0000,
        0 <= scaled_px(180, dpi) <= 0x4_0000,
        0 <= scaled_px(100, dpi) <= 0x4_0000,
{
    let b = if icon_px == 0 { 32 } else { icon_px };
    lemma_scaled_px_bound(b, dpi);
    lemma_scaled_px_bound(8, dpi);
    lemma_scaled_px_bound(10, dpi);
    lemma_scaled_px_bound(22, dpi);
    lemma_scaled_px_bound(30, dpi);
    lemma_scaled_px_bound(38, dpi);
    lemma_scaled_px_bound(100, dpi);
    lemma_scaled_px_bound(180, dpi);
    assert(b * dpi <= 128 * 0xffff) by (nonlinear_arith)
        requires
            0 <= b <= 128,
            0 <= dpi <= 0xffff,
    ;
}

proof fn lemma_rounded_sign(p: nat, n: int, d: int)
    requires
        p > 0,
        n >= 0,
        d > 0,
    ensures
        round_signed(p, n, d).0 >= 0,
{
    lemma_pow2_pos((p - 1) as nat);
    if n > 0 {
        lemma_round_ratio_canonical(p, n, d);
    } else {
        lemma_pow2_pos(p);
        assert(d * pow2(p) > 0) by (nonlinear_arith)
            requires
                d > 0,
                pow2(p) > 0,
        ;
    }
}

/// Scaled lengths are never negative, on any display.
pub proof fn lemma_px_range(c: int, dpi: int)
    requires
        c >= 0,
        dpi >= 0,
    ensures
        0 <= scaled_px(c, dpi) <= i32::MAX,
        0 <= rounded_px(c, dpi) <= i32::MAX,
{
    reveal(float_mul);
    reveal(float_div);
    let p = SINGLE as nat;
    lemma_single_limits();
    lemma_rounded_sign(p, c, 1);
    lemma_rounded_sign(p, dpi, 1);
    lemma_int_exact(p, 96);
    let x = single(c);
    let y = dpi_ratio(dpi);
    lemma_rounded_sign(p, single(dpi).0, single(96).0);
    assert(x.0 * y.0 >= 0) by (nonlinear_arith)
        requires
            x.0 >= 0,
            y.0 >= 0,
    ;
    lemma_rounded_sign(p, x.0 * y.0, 1);
    lemma_trunc_sign(float_mul(p, x, y));
}

/// The parts of the grid are never negative, on any display.
pub proof fn lemma_cell_range(icon_px: int, dpi: int)
    requires
        icon_px >= 0,
        dpi >= 0,
    ensures
        0 <= icon_of(icon_px, dpi) <= i32::MAX,
        12 <= cell_w_of(icon_px, dpi),
        0 <= cell_h_of(icon_px, dpi),
        0 <= scaled_px(8, dpi) <= i32::MAX,
        0 <= scaled_px(10, dpi) <= i32::MAX,
        0 <= scaled_px(22, dpi) <= i32::MAX,
        0 <= scaled_px(30, dpi) <= i32::MAX,
        0 <= scaled_px(38, dpi) <= i32::MAX,
        0 <= scaled_px(100, dpi) <= i32::MAX,
        0 <= scaled_px(180, dpi) <= i32::MAX,
{
    lemma_px_range(if icon_px == 0 { 32 } else { icon_px }, dpi);
    lemma_px_range(8, dpi);
    lemma_px_range(10, dpi);
    lemma_px_range(22, dpi);
    lemma_px_range(30, dpi);
    lemma_px_range(38, dpi);
    lemma_px_range(100, dpi);
    lemma_px_range(180, dpi);
}

/// Whether fences can be laid out with an icon size on a display: a cell has a height, and the cells
/// and what surrounds them are within the machine's integers.
pub open spec fn drawable(icon_px: u32, dpi: u32) -> bool {
    &&& 0 < cell_h_of(icon_px as int, dpi as int) <= i32::MAX
    &&& cell_w_of(icon_px as int, dpi as int) <= i32::MAX
    &&& 2 * scaled_px(10, dpi as int) + scaled_px(22, dpi as int) <= i32::MAX
    &&& scaled_px(30, dpi as int) + 2 * scaled_px(10, dpi as int) <= i32::MAX
}

/// One half.
pub open spec fn half_of() -> (int, int) {
    (0x80_0000, -24)
}

/// One half.
pub fn half() -> (r: Float)
    ensures
        r@ == half_of(),
        r.fits(SINGLE as nat, 200),
        r.mant > 0,
{
    proof {
        lemma_single_limits();
    }
    Float { mant: 0x80_0000, exp: -24 }
}

/// The grid line nearest to `v`, where the lines lie `step` apart and one of them is `origin`.
pub open spec fn grid_line(v: int, step: int, origin: int) -> int {
    origin + saturate(float_round(float_div(SINGLE as nat, single(v - origin), single(step)))) * step
}

/// Where a position ends up: on the nearest grid line if that is within `factor` steps, else where
/// it is.
pub open spec fn magnet_of(v: int, step: int, origin: int, factor: (int, int)) -> int {
    let target = grid_line(v, step, origin);
    let gap = if target < v { v - target } else { target - v };
    if step <= 0 {
        v
    } else if float_le(single(gap), float_mul(SINGLE as nat, single(step), factor)) {
        target
    } else {
        v
    }
}

/// Snaps `v` to the grid line nearest to it, if that is within `factor` steps.
pub fn magnet(v: i32, step: i32, origin: i32, factor: Float) -> (r: i32)
    requires
        factor.fits(SINGLE as nat, 1000),
        i32::MIN <= magnet_of(v as int, step as int, origin as int, factor@) <= i32::MAX,
    ensures
        r == magnet_of(v as int, step as int, origin as int, factor@),
{
    magnet_wide(v, step, origin, factor) as i32
}

/// `magnet` without a limit on the result.
pub fn magnet_wide(v: i32, step: i32, origin: i32, factor: Float) -> (r: i64)
    requires
        factor.fits(SINGLE as nat, 1000),
    ensures
        r == magnet_of(v as int, step as int, origin as int, factor@),
{
    if step <= 0 {
        return v as i64;
    }
    let rel = Float::from_int(SINGLE, v as i128 - origin as i128);
    let width = Float::from_int(SINGLE, step as i128);
    let n: i32 = rel.div(SINGLE, width).round_i32(SINGLE);
    assert(-0x8000_0000 * 0x8000_0000 <= n * step <= 0x8000_0000 * 0x8000_0000) by (nonlinear_arith)
        requires
            -0x8000_0000 <= n <= 0x7fff_ffff,
            0 < step <= 0x7fff_ffff,
    ;
    let target: i64 = origin as i64 + n as i64 * step as i64;
    let gap: i64 = if target < v as i64 { v as i64 - target } else { target - v as i64 };
    if Float::from_int(SINGLE, gap as i128).le(SINGLE, width.mul(SINGLE, factor)) {
        target
    } else {
        v as i64
    }
}

/// The value of an integer below `2^24` is the integer, over one denominator.
proof fn lemma_single_exact(v: int)
    requires
        0 < v < 0x100_0000,
    ensures
        single(v).1 <= 0,
        single(v).0 == v * scale(-single(v).1),
        0x80_0000 <= single(v).0 < 0x100_0000,
        num(single(v)) == v * den(single(v)),
        den(single(v)) > 0,
{
    lemma_single_limits();
    lemma_int_exact(24, v);
    assert(v < 1 * pow2(24));
    crate::float::lemma_round_below_canonical(24, v, 1);
    lemma_scale_pos(single(v).1);
    lemma_scale_pos(-single(v).1);
}

/// Half of an integer below `2^24` is exact.
pub proof fn lemma_half_exact(step: int)
    requires
        0 < step < 0x100_0000,
    ensures
        ({
            let h = float_mul(SINGLE as nat, single(step), half_of());
            h == (single(step).0, single(step).1 - 1)
        }),
{
    reveal(float_mul);
    reveal(float_div);
    lemma_single_limits();
    lemma_single_exact(step);
    let s = single(step);
    lemma_shifted_int(24, s.0, 23);
    assert(s.0 * pow2(23) == s.0 * 0x80_0000);
}

/// Comparing two numbers is comparing their values.
pub proof fn lemma_le_values(a: (int, int), b: (int, int))
    ensures
        float_le(a, b) <==> num(a) * den(b) <= num(b) * den(a),
{
    lemma_scale_pos(a.1);
    lemma_scale_pos(-a.1);
    lemma_scale_pos(b.1);
    lemma_scale_pos(-b.1);
    lemma_scale_pos(a.1 - b.1);
    lemma_scale_pos(b.1 - a.1);
    crate::precision::lemma_scale_adds(a.1, -b.1);
    let d = a.1 - b.1;
    assert(a.1 + (-b.1) == d);
    assert(-(-b.1) == b.1);
    assert(-d == b.1 - a.1);
    let sa = scale(a.1);
    let na = scale(-a.1);
    let sb = scale(b.1);
    let nb = scale(-b.1);
    let sd = scale(d);
    let nd = scale(-d);
    assert(sd * (na * sb) == (sa * nb) * nd);
    let x = num(a) * den(b);
    let y = num(b) * den(a);
    // x = a.0 * (sa * nb), y = b.0 * (sb * na)
    let p = sa * nb;
    let q = sb * na;
    assert(x == a.0 * p) by (nonlinear_arith)
        requires
            x == (a.0 * sa) * nb,
            p == sa * nb,
    ;
    assert(y == b.0 * q) by (nonlinear_arith)
        requires
            y == (b.0 * sb) * na,
            q == sb * na,
    ;
    assert(sd * q == p * nd) by (nonlinear_arith)
        requires
            sd * (na * sb) == (sa * nb) * nd,
            p == sa * nb,
            q == sb * na,
    ;
    assert(p > 0 && q > 0) by (nonlinear_arith)
        requires
            p == sa * nb,
            q == sb * na,
            sa > 0,
            nb > 0,
            sb > 0,
            na > 0,
    ;
    // a.0 * sd <= b.0 * nd  <=>  a.0 * sd * q <= b.0 * nd * q  <=>  a.0 * p * nd <= b.0 * q * nd
    let l = a.0 * sd;
    let r = b.0 * nd;
    assert(l * q == x * nd) by (nonlinear_arith)
        requires
            l == a.0 * sd,
            x == a.0 * p,
            sd * q == p * nd,
    ;
    assert(r * q == y * nd) by (nonlinear_arith)
        requires
            r == b.0 * nd,
            y == b.0 * q,
    ;
    assert(l <= r <==> l * q <= r * q) by (nonlinear_arith)
        requires
            q > 0,
    ;
    assert(x <= y <==> x * nd <= y * nd) by (nonlinear_arith)
        requires
            nd > 0,
    ;
}

/// `gap` is within half a step exactly when the single-precision comparison says so.
proof fn lemma_within_half(gap: int, step: int)
    requires
        0 <= gap < 0x100_0000,
        0 < step < 0x100_0000,
    ensures
        float_le(single(gap), float_mul(SINGLE as nat, single(step), half_of())) <==> 2 * gap <= step,
{
    lemma_single_limits();
    lemma_half_exact(step);
    lemma_single_exact(step);
    let s = single(step);
    let h = (s.0, s.1 - 1);
    lemma_scale_pos(s.1);
    lemma_scale_pos(-s.1);
    vstd::arithmetic::power2::lemma_pow2_unfold((1 - s.1) as nat);
    assert(scale(-h.1) == 2 * scale(-s.1)) by {
        assert(-h.1 == 1 - s.1);
        if s.1 == 0 {
            lemma2_to64();
        }
    }
    assert(num(h) == s.0) by {
        assert(s.0 * 1 == s.0);
    }
    let a = single(gap);
    lemma_le_values(a, h);
    let ds = scale(-s.1);
    if gap == 0 {
        assert(a == (0int, 0int));
        lemma_scale_pos(0);
        assert(num(a) * den(h) == 0) by (nonlinear_arith)
            requires
                num(a) == 0,
        ;
        assert(num(h) * den(a) >= 0) by (nonlinear_arith)
            requires
                num(h) >= 0,
                den(a) == 1,
        ;
    } else {
        lemma_single_exact(gap);
        let da = den(a);
        // gap * da * 2 * ds <= step * ds * da
        let l = num(a) * den(h);
        let r = num(h) * den(a);
        let f = da * ds;
        assert(l == (2 * gap) * f) by (nonlinear_arith)
            requires
                l == (gap * da) * (2 * ds),
                f == da * ds,
        ;
        assert(r == step * f) by (nonlinear_arith)
            requires
                r == (step * ds) * da,
                f == da * ds,
        ;
        assert(f > 0) by (nonlinear_arith)
            requires
                f == da * ds,
                da > 0,
                ds > 0,
        ;
        assert(l <= r <==> 2 * gap <= step) by (nonlinear_arith)
            requires
                l == (2 * gap) * f,
                r == step * f,
                f > 0,
        ;
    }
}

/// The quotient of two small integers, rounded to the nearest integer: what is left is half the divisor
/// at most.
proof fn lemma_nearest_multiple(rel: int, step: int)
    requires
        0 < step < 0x100_0000,
        -0x80_0000 < rel < 0x80_0000,
    ensures
        ({
            let n = float_round(float_div(SINGLE as nat, single(rel), single(step)));
            -step <= 2 * (n * step - rel) <= step && -0x80_0000 <= n <= 0x80_0000
        }),
{
    reveal(float_div);
    lemma_single_limits();
    let n = float_round(float_div(SINGLE as nat, single(rel), single(step)));
    let a = if rel < 0 { -rel } else { rel };
    if rel == 0 {
        lemma_zero();
        assert(0 * step == 0);
    } else {
        lemma_div_round(24, a, step);
        let k = (2 * a + step) / (2 * step);
        assert(0 <= k <= a + 1 && -step <= 2 * (k * step - a) <= step) by (nonlinear_arith)
            requires
                k == (2 * a + step) / (2 * step),
                a > 0,
                step > 0,
        ;
        if rel < 0 {
            let q = float_div(SINGLE as nat, single(a), single(step));
            let m = float_div(SINGLE as nat, single(rel), single(step));
            lemma_div_near(24, a, step);
            lemma_single_exact(a);
            assert(m == (-q.0, q.1));
            assert(float_round(m) == -float_round(q));
            assert(n == -k);
            assert((-k) * step == -(k * step)) by (nonlinear_arith);
        } else {
            assert(n == k);
        }
    }
}

/// Where a grid line is nearest: half a step away at most.
proof fn lemma_grid_line(v: int, step: int, origin: int)
    requires
        0 < step < 0x100_0000,
        -0x80_0000 < v - origin < 0x80_0000,
    ensures
        exists|k: int| grid_line(v, step, origin) == origin + #[trigger] (k * step),
        -step <= 2 * (grid_line(v, step, origin) - v) <= step,
{
    lemma_nearest_multiple(v - origin, step);
    let n = float_round(float_div(SINGLE as nat, single(v - origin), single(step)));
    assert(grid_line(v, step, origin) == origin + n * step);
}

/// A grid line is its own nearest grid line.
proof fn lemma_grid_line_stays(k: int, step: int, origin: int)
    requires
        0 < step < 0x100_0000,
        -0x100_0000 < k * step < 0x100_0000,
    ensures
        grid_line(origin + k * step, step, origin) == origin + k * step,
{
    lemma_single_limits();
    let rel = k * step;
    let m = if k < 0 { -k } else { k };
    let a = m * step;
    assert(a == if k < 0 { -rel } else { rel }) by (nonlinear_arith)
        requires
            a == m * step,
            rel == k * step,
            m == if k < 0 { -k } else { k },
    ;
    if k == 0 {
        reveal(float_div);
        lemma_zero();
        assert(0 * step == 0);
    } else {
        assert(0 < m <= a) by (nonlinear_arith)
            requires
                a == m * step,
                m > 0,
                step > 0,
        ;
        lemma_exact_quotient(24, m, step);
        lemma_round_int(m);
        if k < 0 {
            reveal(float_div);
            lemma_single_exact(a);
            assert(single(rel) == (-single(a).0, single(a).1));
            let q = float_div(SINGLE as nat, single(a), single(step));
            let r = float_div(SINGLE as nat, single(rel), single(step));
            assert(r == (-q.0, q.1));
            lemma_single_exact(m);
            assert(float_round(r) == -float_round(q));
        }
    }
}

/// A small integer is its own nearest integer.
proof fn lemma_round_int(v: int)
    requires
        0 < v < 0x100_0000,
    ensures
        float_round(single(v)) == v,
{
    lemma_single_exact(v);
    let s = single(v);
    let k = scale(-s.1);
    lemma_scale_pos(s.1);
    lemma_scale_pos(-s.1);
    assert(2 * s.0 * scale(s.1) == 2 * (v * k)) by (nonlinear_arith)
        requires
            s.0 == v * k,
            scale(s.1) == 1,
    ;
    assert((2 * (v * k) + k) / (2 * k) == v) by (nonlinear_arith)
        requires
            k > 0,
            v > 0,
    ;
}

/// A tolerance of at least half a step is enough for every gap up to half a step.
proof fn lemma_within_tolerance(gap: int, step: int, factor: (int, int))
    requires
        0 <= gap,
        2 * gap <= step,
        0 < step < 0x100_0000,
        canonical(SINGLE as nat, factor),
        float_le(half_of(), factor),
    ensures
        float_le(single(gap), float_mul(SINGLE as nat, single(step), factor)),
{
    let p = SINGLE as nat;
    lemma_single_limits();
    lemma_single_exact(step);
    lemma_within_half(gap, step);
    lemma_mul_order(p, half_of(), factor, single(step));
    lemma_mul_commutes(p, single(step), half_of());
    lemma_mul_commutes(p, single(step), factor);
    lemma_le_transitive(
        single(gap),
        float_mul(p, single(step), half_of()),
        float_mul(p, single(step), factor),
    );
}

/// With a tolerance of at least half a step, a position within `2^23` pixels of the origin always snaps:
/// to the nearest grid line, where it then stays. Farther away single precision cannot tell all
/// positions between two lines apart.
pub proof fn lemma_magnet_snaps(v: int, step: int, origin: int, factor: (int, int))
    requires
        0 < step < 0x100_0000,
        -0x80_0000 < v - origin < 0x80_0000,
        canonical(SINGLE as nat, factor),
        float_le(half_of(), factor),
    ensures
        ({
            let r = magnet_of(v, step, origin, factor);
            &&& r == grid_line(v, step, origin)
            &&& exists|k: int| r == origin + #[trigger] (k * step)
            &&& -step <= 2 * (r - v) <= step
            &&& magnet_of(r, step, origin, factor) == r
        }),
{
    lemma_grid_line(v, step, origin);
    let target = grid_line(v, step, origin);
    let gap = if target < v { v - target } else { target - v };
    lemma_within_tolerance(gap, step, factor);
    let k = choose|k: int| target == origin + #[trigger] (k * step);
    lemma_grid_line_stays(k, step, origin);
    lemma_within_tolerance(0, step, factor);
}

/// A snapped position is never more than a step away.
pub proof fn lemma_magnet_range(v: int, step: int, origin: int)
    requires
        0 < step < 0x40_0000,
    ensures
        -step <= magnet_of(v, step, origin, half_of()) - v <= step,
{
    lemma_single_limits();
    let target = grid_line(v, step, origin);
    let gap = if target < v { v - target } else { target - v };
    if gap > step && gap < 0x100_0000 {
        lemma_within_half(gap, step);
    } else if gap > step {
        let a = single(gap);
        crate::float::lemma_round_ratio_close(24, gap, 1);
        lemma_half_exact(step);
        lemma_single_exact(step);
        let s = single(step);
        let h = (s.0, s.1 - 1);
        lemma_le_values(a, h);
        lemma_scale_pos(a.1);
        lemma_scale_pos(-a.1);
        lemma_scale_pos(s.1);
        lemma_scale_pos(-s.1);
        lemma_scale_pos(-h.1);
        lemma_scale_pos(h.1);
        vstd::arithmetic::power2::lemma_pow2_unfold((1 - s.1) as nat);
        assert(scale(-h.1) == 2 * scale(-s.1)) by {
            assert(-h.1 == 1 - s.1);
            if s.1 == 0 {
                lemma2_to64();
            }
        }
        assert(num(h) == s.0) by {
            assert(s.0 * 1 == s.0);
        }
        let x = num(a);
        let y = den(a);
        assert(x * 1 == x);
        let gy = gap * y;
        assert(gy > 0) by (nonlinear_arith)
            requires
                gy == gap * y,
                gap > 0,
                y > 0,
        ;
        assert(2 * x >= gy);
        let ds = scale(-s.1);
        let l = x * (2 * ds);
        let r = (step * ds) * y;
        assert(l > r) by (nonlinear_arith)
            requires
                l == x * (2 * ds),
                r == (step * ds) * y,
                2 * x >= gap * y,
                gap > step,
                y > 0,
                ds > 0,
        ;
        assert(!float_le(a, h));
    }
}

/// The grid line nearest to a dragged position.
pub open spec fn smooth_line(v: (int, int), step: int, origin: int) -> (int, int) {
    let p = SINGLE as nat;
    let rel = float_add(p, v, float_neg(single(origin)));
    let n = single(float_round(float_div(p, rel, single(step))));
    float_add(p, single(origin), float_mul(p, n, single(step)))
}

/// The position `v`, pulled by `gap` toward a line `|gap|` away: the pull grows with the square of
/// the closeness, which is 1 on the line and 0 at a distance of `reach`.
pub open spec fn pulled(v: (int, int), gap: (int, int), reach: (int, int)) -> (int, int) {
    let p = SINGLE as nat;
    let t = float_add(p, single(1), float_neg(float_div(p, float_abs(gap), reach)));
    float_add(p, v, float_mul(p, gap, float_mul(p, t, t)))
}

/// The position while dragging: pulled toward the nearest grid line, and not at all beyond `range`
/// steps.
pub open spec fn smooth_of(v: (int, int), step: int, origin: int, range: (int, int)) -> (int, int) {
    let p = SINGLE as nat;
    let gap = float_add(p, smooth_line(v, step, origin), float_neg(v));
    let reach = float_mul(p, single(step), range);
    if step <= 0 || float_le(reach, (0, 0)) || float_le(reach, float_abs(gap)) {
        v
    } else {
        pulled(v, gap, reach)
    }
}

#[verifier::rlimit(40)]
fn nearest_line(v: Float, step: i32, origin: i32) -> (r: Float)
    requires
        v.fits(SINGLE as nat, 1000),
        step > 0,
    ensures
        r@ == smooth_line(v@, step as int, origin as int),
        r.fits(SINGLE as nat, 3000),
{
    proof {
        lemma_single_limits();
    }
    let o = Float::from_int(SINGLE, origin as i128);
    let s = Float::from_int(SINGLE, step as i128);
    let rel = v.add(SINGLE, o.neg());
    let n = rel.div(SINGLE, s).round(SINGLE);
    o.add(SINGLE, n.mul(SINGLE, s))
}

#[verifier::rlimit(40)]
fn pull(v: Float, gap: Float, reach: Float) -> (r: Float)
    requires
        v.fits(SINGLE as nat, 1000),
        gap.fits(SINGLE as nat, 4200),
        reach.fits(SINGLE as nat, 1400),
        reach.mant > 0,
    ensures
        r@ == pulled(v@, gap@, reach@),
        r.fits(SINGLE as nat, 50000),
{
    proof {
        lemma_single_limits();
    }
    let near: Float = gap.abs().div(SINGLE, reach).neg();
    let t = Float::from_int(SINGLE, 1).add(SINGLE, near);
    v.add(SINGLE, gap.mul(SINGLE, t.mul(SINGLE, t)))
}

/// A position on a grid line stays there, and one farther from the nearest line than `range` steps
/// follows the mouse.
pub proof fn lemma_smooth_ends(v: (int, int), step: int, origin: int, range: (int, int))
    requires
        canonical(SINGLE as nat, v),
    ensures
        smooth_line(v, step, origin) == v ==> smooth_of(v, step, origin, range) == v,
        ({
            let gap = float_add(SINGLE as nat, smooth_line(v, step, origin), float_neg(v));
            let reach = float_mul(SINGLE as nat, single(step), range);
            float_le(reach, float_abs(gap)) ==> smooth_of(v, step, origin, range) == v
        }),
{
    reveal(float_add);
    reveal(float_mul);
    reveal(float_div);
    if smooth_line(v, step, origin) == v {
        let p = SINGLE as nat;
        let gap = float_add(p, v, float_neg(v));
        let n = v.0 * scale(0) + (-v.0) * scale(0);
        assert(scale(0) == 1);
        assert(n == 0) by (nonlinear_arith)
            requires
                n == v.0 * scale(0) + (-v.0) * scale(0),
        ;
        lemma_single_limits();
        assert(v.1 - v.1 == 0);
        assert(gap == (0int, 0int));
    }
}

/// The pull toward a line is between nothing and the whole way, as rounded.
proof fn lemma_pulled_between(v: (int, int), gap: (int, int), reach: (int, int))
    requires
        canonical(SINGLE as nat, v),
        canonical(SINGLE as nat, gap),
        canonical(SINGLE as nat, reach),
        reach.0 > 0,
        float_le(float_abs(gap), reach),
    ensures
        ({
            let r = pulled(v, gap, reach);
            let end = float_add(SINGLE as nat, v, gap);
            &&& canonical(SINGLE as nat, r)
            &&& gap.0 >= 0 ==> float_le(v, r) && float_le(r, end)
            &&& gap.0 <= 0 ==> float_le(r, v) && float_le(end, r)
        }),
{
    let p = SINGLE as nat;
    lemma_single_limits();
    lemma_int_order(p, 1, 1);
    lemma_zero();
    let one = single(1);
    let d = float_div(p, float_abs(gap), reach);
    if gap.0 == 0 {
        reveal(float_div);
        assert(d == (0int, 0int));
        lemma_le_zero(one);
    } else {
        lemma_div_order(p, float_abs(gap), reach, reach);
        lemma_unit_quotient(p, reach);
    }
    lemma_le_zero(d);
    // 0 <= d <= 1, so 0 <= t <= 1
    let t = float_add(p, one, float_neg(d));
    lemma_sub_self(p, one);
    lemma_sub_order(p, one, d, one);
    lemma_sub_order(p, one, (0, 0), d);
    assert(float_neg((0, 0)) == (0int, 0int));
    lemma_le_zero(t);
    let tt = float_mul(p, t, t);
    lemma_mul_order(p, t, one, t);
    lemma_mul_one(p, t);
    lemma_mul_commutes(p, one, t);
    lemma_le_transitive(tt, t, one);
    lemma_le_zero(tt);
    // so the pull is between 0 and the gap
    let pull = float_mul(p, gap, tt);
    lemma_le_total(gap, gap);
    lemma_mul_order(p, gap, gap, tt);
    lemma_mul_one(p, gap);
    lemma_le_zero(pull);
    lemma_sub_self(p, v);
    lemma_mul_commutes(p, gap, tt);
    lemma_mul_commutes(p, gap, one);
    if gap.0 >= 0 {
        lemma_mul_order(p, tt, one, gap);
        lemma_add_order(p, v, (0, 0), pull);
        lemma_add_order(p, v, pull, gap);
    }
    if gap.0 <= 0 {
        lemma_mul_backward(tt, one, gap);
        lemma_add_order(p, v, pull, (0, 0));
        lemma_add_order(p, v, gap, pull);
    }
}

/// Multiplying by the same number that is not positive turns the order round.
proof fn lemma_mul_backward(a: (int, int), b: (int, int), c: (int, int))
    requires
        canonical(SINGLE as nat, a),
        canonical(SINGLE as nat, b),
        float_le(a, b),
        c.0 <= 0,
    ensures
        float_le(float_mul(SINGLE as nat, b, c), float_mul(SINGLE as nat, a, c)),
{
    let p = SINGLE as nat;
    let back = float_neg(c);
    lemma_mul_order(p, a, b, back);
    lemma_mul_negated(p, a, c);
    lemma_mul_negated(p, b, c);
    lemma_le_neg(float_mul(p, a, back), float_mul(p, b, back));
}

/// A dragged position lies between where the mouse has it and the nearest grid line, up to rounding: it
/// is not pulled away from the line, nor past where the way to the line, as rounded, leads.
pub proof fn lemma_smooth_between(v: (int, int), step: int, origin: int, range: (int, int))
    requires
        canonical(SINGLE as nat, v),
        canonical(SINGLE as nat, range),
        step >= 0,
    ensures
        ({
            let p = SINGLE as nat;
            let line = smooth_line(v, step, origin);
            let end = float_add(p, v, float_add(p, line, float_neg(v)));
            let r = smooth_of(v, step, origin, range);
            &&& canonical(p, r)
            &&& float_le(v, line) ==> float_le(v, r) && float_le(r, end)
            &&& float_le(line, v) ==> float_le(r, v) && float_le(end, r)
        }),
{
    let p = SINGLE as nat;
    lemma_single_limits();
    lemma_zero();
    let line = smooth_line(v, step, origin);
    let n = float_round(float_div(p, float_add(p, v, float_neg(single(origin))), single(step)));
    lemma_int_order(p, n, n);
    lemma_int_order(p, origin, origin);
    lemma_int_order(p, step, step);
    lemma_le_total(single(n), single(n));
    lemma_mul_order(p, single(n), single(n), single(step));
    let m = float_mul(p, single(n), single(step));
    lemma_le_total(m, m);
    lemma_add_order(p, single(origin), m, m);
    let gap = float_add(p, line, float_neg(v));
    lemma_le_total(v, v);
    lemma_le_total(line, line);
    lemma_sub_order(p, line, v, v);
    lemma_sub_self(p, line);
    lemma_sub_self(p, v);
    lemma_le_zero(gap);
    if float_le(v, line) {
        lemma_sub_order(p, line, v, line);
        lemma_add_order(p, v, (0, 0), gap);
    }
    if float_le(line, v) {
        lemma_sub_order(p, line, line, v);
        lemma_add_order(p, v, gap, (0, 0));
    }
    let reach = float_mul(p, single(step), range);
    lemma_le_total(range, range);
    lemma_mul_order(p, range, range, single(step));
    lemma_mul_commutes(p, range, single(step));
    lemma_le_zero(reach);
    lemma_le_total(reach, float_abs(gap));
    if !(step <= 0 || float_le(reach, (0, 0)) || float_le(reach, float_abs(gap))) {
        lemma_pulled_between(v, gap, reach);
    }
}

/// The negative of a number that stands for an integer stands for the negative integer.
pub proof fn lemma_neg_single(v: int)
    ensures
        float_neg(single(v)) == single(-v),
{
    if v == 0 {
        lemma_zero();
    }
}

/// A dragged position of whole pixels lies between where the mouse has it and the nearest grid line,
/// exactly, as long as neither is `2^23` pixels or more away.
pub proof fn lemma_smooth_whole(x: int, step: int, origin: int, range: (int, int))
    requires
        canonical(SINGLE as nat, range),
        0 < step < 0x80_0000,
        -0x80_0000 < x < 0x80_0000,
        -0x80_0000 < origin < 0x80_0000,
        -0x80_0000 < x - origin < 0x80_0000,
    ensures
        ({
            let line = grid_line(x, step, origin);
            let r = smooth_of(single(x), step, origin, range);
            &&& canonical(SINGLE as nat, r)
            &&& smooth_line(single(x), step, origin) == single(line)
            &&& -step <= 2 * (line - x) <= step
            &&& x <= line ==> float_le(single(x), r) && float_le(r, single(line))
            &&& line <= x ==> float_le(single(line), r) && float_le(r, single(x))
        }),
{
    let p = SINGLE as nat;
    lemma_single_limits();
    lemma_neg_single(origin);
    lemma_int_add(p, x, -origin);
    lemma_nearest_multiple(x - origin, step);
    lemma_grid_line(x, step, origin);
    let n = float_round(float_div(p, single(x - origin), single(step)));
    let line = grid_line(x, step, origin);
    assert(line == origin + n * step);
    lemma_int_product(p, n, step);
    lemma_int_add(p, origin, n * step);
    assert(smooth_line(single(x), step, origin) == single(line));
    lemma_neg_single(x);
    lemma_int_add(p, line, -x);
    lemma_int_add(p, x, line - x);
    lemma_int_order(p, x, x);
    if x <= line {
        lemma_int_order(p, x, line);
    }
    if line <= x {
        lemma_int_order(p, line, x);
    }
    lemma_smooth_between(single(x), step, origin, range);
}

/// Pulls a dragged position toward the nearest grid line without a jump.
pub fn magnet_smooth(v: Float, step: i32, origin: i32, range: Float) -> (r: Float)
    requires
        v.fits(SINGLE as nat, 1000),
        range.fits(SINGLE as nat, 1000),
    ensures
        r@ == smooth_of(v@, step as int, origin as int, range@),
        r.fits(SINGLE as nat, 50000),
{
    proof {
        lemma_single_limits();
    }
    if step <= 0 {
        return v;
    }
    let gap = nearest_line(v, step, origin).add(SINGLE, v.neg());
    let reach = Float::from_int(SINGLE, step as i128).mul(SINGLE, range);
    if reach.mant <= 0 || reach.le(SINGLE, gap.abs()) {
        proof {
            lemma_positive(reach@);
        }
        return v;
    }
    proof {
        lemma_positive(reach@);
    }
    pull(v, gap, reach)
}

/// A number is at most zero exactly when its mantissa is.
proof fn lemma_positive(a: (int, int))
    ensures
        float_le(a, (0, 0)) <==> a.0 <= 0,
{
    lemma_scale_pos(a.1);
    let w = scale(a.1 - 0);
    assert(a.0 * w <= 0 <==> a.0 <= 0) by (nonlinear_arith)
        requires
            w > 0,
    ;
    assert(0 * scale(0 - a.1) == 0);
}

/// A length while resizing: the part beyond `base` is pulled toward a whole number of steps.
pub open spec fn smooth_size_of(v: (int, int), step: int, base: int, range: (int, int)) -> (int, int) {
    let p = SINGLE as nat;
    float_add(p, smooth_of(float_add(p, v, float_neg(single(base))), step, 0, range), single(base))
}

/// Pulls a length toward a whole number of grid cells without a jump.
pub fn magnet_size_smooth(v: Float, step: i32, base: i32, range: Float) -> (r: Float)
    requires
        v.fits(SINGLE as nat, 300),
        range.fits(SINGLE as nat, 1000),
    ensures
        r@ == smooth_size_of(v@, step as int, base as int, range@),
        r.fits(SINGLE as nat, 60000),
{
    proof {
        lemma_single_limits();
    }
    let b = Float::from_int(SINGLE, base as i128);
    magnet_smooth(v.add(SINGLE, b.neg()), step, 0, range).add(SINGLE, b)
}

/// How many cells of width `cell` come closest to filling `len`, at least one.
pub open spec fn cells_of(len: int, cell: int) -> int {
    max_of(saturate(float_round(float_div(SINGLE as nat, single(len), single(cell)))), 1)
}

/// How many cells of width `cell` come closest to filling `len`, at least one.
pub fn cells(len: i64, cell: i32) -> (r: i32)
    requires
        cell > 0,
    ensures
        r == cells_of(len as int, cell as int),
        r >= 1,
{
    let q = Float::from_int(SINGLE, len as i128).div(SINGLE, Float::from_int(SINGLE, cell as i128));
    larger(q.round_i32(SINGLE), 1)
}

/// The cells that fill a length cover at most twice the length and one cell more.
pub proof fn lemma_cells_bound(len: int, cell: int)
    requires
        0 < cell < 0x100_0000,
    ensures
        1 <= cells_of(len, cell),
        cells_of(len, cell) * cell <= 2 * max_of(len, 0) + cell,
{
    reveal(float_mul);
    reveal(float_div);
    lemma_single_limits();
    let q = float_div(SINGLE as nat, single(len), single(cell));
    lemma_single_exact(cell);
    if len > 0 {
        lemma_int_near(24, len);
        lemma_quotient_near(24, 1, single(len), len, 1, cell);
        lemma_scale_pos(q.1);
        lemma_scale_pos(-q.1);
        let x = num(q);
        let y = den(q);
        assert(1 * cell == cell);
        let ly = len * y;
        assert(ly >= 0) by (nonlinear_arith)
            requires
                ly == len * y,
                len > 0,
                y > 0,
        ;
        assert(x * cell <= 2 * ly - ly / 2);
        let n = (2 * x + y) / (2 * y);
        assert(2 * q.0 * scale(q.1) == 2 * x) by (nonlinear_arith)
            requires
                x == q.0 * scale(q.1),
        ;
        lemma_trunc_sign(q);
        assert(n * cell <= 2 * len + cell) by (nonlinear_arith)
            requires
                n == (2 * x + y) / (2 * y),
                x * cell <= 2 * ly,
                ly == len * y,
                y > 0,
                cell > 0,
        ;
        let m = cells_of(len, cell);
        assert(m <= n || m == 1);
        assert(m * cell <= 2 * len + cell) by (nonlinear_arith)
            requires
                m <= n || m == 1,
                n * cell <= 2 * len + cell,
                len > 0,
                cell > 0,
        ;
    } else {
        if len == 0 {
            lemma_zero();
            assert(q == (0int, 0int));
        } else {
            assert(q.0 <= 0) by {
                let a = single(-len);
                lemma_int_near(24, -len);
                lemma_quotient_near(24, 1, a, -len, 1, cell);
            }
            lemma_trunc_sign((-q.0, q.1));
            if q.0 == 0 {
                lemma_scale_pos(q.1);
                lemma_scale_pos(-q.1);
                let k = scale(-q.1);
                assert(2 * 0 * scale(q.1) + k == k) by (nonlinear_arith);
                assert(k / (2 * k) == 0) by (nonlinear_arith)
                    requires
                        k > 0,
                ;
            }
        }
        assert(cells_of(len, cell) == 1);
    }
}

/// The fewest cells, at least one, that with a frame reach a least extent.
pub open spec fn fewest_of(frame: int, cell: int, least: int) -> int {
    if least <= frame + cell {
        1
    } else {
        (least - frame + cell - 1) / cell
    }
}

/// No fewer cells reach the least extent.
pub proof fn lemma_fewest(frame: int, cell: int, least: int)
    requires
        cell > 0,
    ensures
        fewest_of(frame, cell, least) >= 1,
        frame + fewest_of(frame, cell, least) * cell >= least,
        forall|k: int| 1 <= k && frame + #[trigger] (k * cell) >= least ==> k >= fewest_of(frame, cell, least),
        fewest_of(frame, cell, least) * cell < max_of(least - frame, 1) + cell,
{
    let q = fewest_of(frame, cell, least);
    if least > frame + cell {
        let n = least - frame + cell - 1;
        assert(q * cell <= n && n < q * cell + cell && q >= 1) by (nonlinear_arith)
            requires
                q == n / cell,
                cell > 0,
                n >= cell,
        ;
    }
    assert(1 * cell == cell);
    assert forall|k: int| 1 <= k && frame + #[trigger] (k * cell) >= least implies k >= q by {
        if k < q {
            assert(k * cell + cell <= q * cell) by (nonlinear_arith)
                requires
                    k + 1 <= q,
                    cell > 0,
            ;
        }
    }
}

/// How many cells an extent is brought to: the nearest whole number, and no fewer than reach the least
/// extent.
pub open spec fn snapped_cells(frame: int, cell: int, least: int, extent: int) -> int {
    max_of(cells_of(extent - frame, cell), fewest_of(frame, cell, least))
}

/// How many columns a width is brought to.
pub open spec fn snap_cols_of(icon_px: int, dpi: int, w: int) -> int {
    snapped_cells(
        2 * scaled_px(10, dpi) + scaled_px(22, dpi),
        cell_w_of(icon_px, dpi),
        scaled_px(180, dpi),
        w,
    )
}

/// How many rows a height is brought to.
pub open spec fn snap_rows_of(icon_px: int, dpi: int, h: int) -> int {
    snapped_cells(
        scaled_px(30, dpi) + 2 * scaled_px(10, dpi),
        cell_h_of(icon_px, dpi),
        scaled_px(100, dpi),
        h,
    )
}

/// The width of a whole number of columns with margins and rail: the nearest to a given one that is
/// not below the least width.
pub open spec fn snap_w_of(icon_px: int, dpi: int, w: int) -> int {
    2 * scaled_px(10, dpi) + scaled_px(22, dpi) + snap_cols_of(icon_px, dpi, w) * cell_w_of(icon_px, dpi)
}

/// The height of a whole number of rows with the title bar and margins: the nearest to a given one that
/// is not below the least height.
pub open spec fn snap_h_of(icon_px: int, dpi: int, h: int) -> int {
    scaled_px(30, dpi) + 2 * scaled_px(10, dpi) + snap_rows_of(icon_px, dpi, h) * cell_h_of(icon_px, dpi)
}

/// A snapped size is on the grid and not below the least size.
pub proof fn lemma_snap_on_grid(icon_px: u32, dpi: u32, w: int, h: int)
    requires
        drawable(icon_px, dpi),
    ensures
        snap_cols_of(icon_px as int, dpi as int, w) >= 1,
        snap_rows_of(icon_px as int, dpi as int, h) >= 1,
        snap_w_of(icon_px as int, dpi as int, w) >= scaled_px(180, dpi as int),
        snap_h_of(icon_px as int, dpi as int, h) >= scaled_px(100, dpi as int),
        snap_w_of(icon_px as int, dpi as int, w) >= 0,
        snap_h_of(icon_px as int, dpi as int, h) >= 0,
{
    let d = dpi as int;
    lemma_cell_range(icon_px as int, d);
    let fw = 2 * scaled_px(10, d) + scaled_px(22, d);
    let fh = scaled_px(30, d) + 2 * scaled_px(10, d);
    let cw = cell_w_of(icon_px as int, d);
    let ch = cell_h_of(icon_px as int, d);
    lemma_fewest(fw, cw, scaled_px(180, d));
    lemma_fewest(fh, ch, scaled_px(100, d));
    lemma_more_cells(snap_cols_of(icon_px as int, d, w), fewest_of(fw, cw, scaled_px(180, d)), cw);
    lemma_more_cells(snap_rows_of(icon_px as int, d, h), fewest_of(fh, ch, scaled_px(100, d)), ch);
}

proof fn lemma_more_cells(a: int, b: int, cell: int)
    requires
        a >= b,
        cell > 0,
    ensures
        a * cell >= b * cell,
{
    assert(a * cell >= b * cell) by (nonlinear_arith)
        requires
            a >= b,
            cell > 0,
    ;
}

fn snap_extent(frame: i64, cell: i32, least: i32, extent: i32) -> (r: i64)
    requires
        0 <= frame <= i32::MAX,
        cell > 0,
        least >= 0,
    ensures
        r == frame + snapped_cells(frame as int, cell as int, least as int, extent as int) * cell,
{
    let near: i64 = cells(extent as i64 - frame, cell) as i64;
    let c: i64 = cell as i64;
    let fewest: i64 = if least as i64 <= frame + c {
        1
    } else {
        (least as i64 - frame + c - 1) / c
    };
    proof {
        lemma_fewest(frame as int, cell as int, least as int);
        let q = fewest_of(frame as int, cell as int, least as int);
        assert(q <= q * cell) by (nonlinear_arith)
            requires
                q >= 1,
                cell >= 1,
        ;
    }
    let n: i64 = if near >= fewest { near } else { fewest };
    assert(0 <= n as int * c as int <= 0x1_0000_0000 * 0x7fff_ffff) by (nonlinear_arith)
        requires
            0 <= n <= 0x1_0000_0000,
            0 <= c <= 0x7fff_ffff,
    ;
    frame + n * c
}

/// The size of a fence brought to the grid, without regard to the range of a size.
pub fn snap_wide(icon_px: u32, dpi: u32, w: i32, h: i32) -> (r: (i64, i64))
    requires
        drawable(icon_px, dpi),
    ensures
        r.0 == snap_w_of(icon_px as int, dpi as int, w as int),
        r.1 == snap_h_of(icon_px as int, dpi as int, h as int),
{
    proof {
        lemma_cell_range(icon_px as int, dpi as int);
    }
    let across: i64 = 2 * margin(dpi) as i64 + rail(dpi) as i64;
    let down: i64 = title_h(dpi) as i64 + 2 * margin(dpi) as i64;
    (
        snap_extent(across, cell_w(icon_px, dpi), min_w(dpi), w),
        snap_extent(down, cell_h(icon_px, dpi), min_h(dpi), h),
    )
}

/// The size of a whole number of grid cells with what surrounds them, nearest to a given one and not
/// below the least size.
pub fn snap_size(icon_px: u32, dpi: u32, w: i32, h: i32) -> (r: (i32, i32))
    requires
        drawable(icon_px, dpi),
        snap_w_of(icon_px as int, dpi as int, w as int) <= i32::MAX,
        snap_h_of(icon_px as int, dpi as int, h as int) <= i32::MAX,
    ensures
        r.0 == snap_w_of(icon_px as int, dpi as int, w as int),
        r.1 == snap_h_of(icon_px as int, dpi as int, h as int),
        exists|cols: int|
            cols >= 1 && r.0 == 2 * scaled_px(10, dpi as int) + scaled_px(22, dpi as int) + #[trigger] (cols * cell_w_of(
                icon_px as int,
                dpi as int,
            )),
        exists|rows: int|
            rows >= 1 && r.1 == scaled_px(30, dpi as int) + 2 * scaled_px(10, dpi as int) + #[trigger] (rows * cell_h_of(
                icon_px as int,
                dpi as int,
            )),
        r.0 >= scaled_px(180, dpi as int),
        r.1 >= scaled_px(100, dpi as int),
{
    proof {
        lemma_snap_on_grid(icon_px, dpi, w as int, h as int);
    }
    let (nw, nh) = snap_wide(icon_px, dpi, w, h);
    (nw as i32, nh as i32)
}

/// Snapping never needs much more room than there was.
pub proof fn lemma_snap_bounds(icon_px: int, dpi: int, w: int, h: int)
    requires
        0 <= icon_px <= MAX_ICON,
        0 <= dpi <= MAX_DPI,
        cell_h_of(icon_px, dpi) > 0,
    ensures
        0 <= snap_w_of(icon_px, dpi, w) <= 2 * max_of(w, 0) + 0x10_0000,
        0 <= snap_h_of(icon_px, dpi, h) <= 2 * max_of(h, 0) + 0x10_0000,
{
    lemma_cell_bounds(icon_px, dpi);
    let frame_w = 2 * scaled_px(10, dpi) + scaled_px(22, dpi);
    let frame_h = scaled_px(30, dpi) + 2 * scaled_px(10, dpi);
    lemma_cells_bound(w - frame_w, cell_w_of(icon_px, dpi));
    lemma_cells_bound(h - frame_h, cell_h_of(icon_px, dpi));
    lemma_fewest(frame_w, cell_w_of(icon_px, dpi), scaled_px(180, dpi));
    lemma_fewest(frame_h, cell_h_of(icon_px, dpi), scaled_px(100, dpi));
    lemma_more_cells(snap_cols_of(icon_px, dpi, w), 0, cell_w_of(icon_px, dpi));
    lemma_more_cells(snap_rows_of(icon_px, dpi, h), 0, cell_h_of(icon_px, dpi));
}

/// Whether two rectangles, given by corner and size, share a pixel.
pub open spec fn overlap_of(ax: int, ay: int, aw: int, ah: int, bx: int, by: int, bw: int, bh: int) -> bool {
    ax < bx + bw && ax + aw > bx && ay < by + bh && ay + ah > by
}

/// Whether two rectangles, given by corner and size, share a pixel.
pub fn rects_overlap(ax: i32, ay: i32, aw: i32, ah: i32, bx: i32, by: i32, bw: i32, bh: i32) -> (r: bool)
    ensures
        r == overlap_of(
            ax as int,
            ay as int,
            aw as int,
            ah as int,
            bx as int,
            by as int,
            bw as int,
            bh as int,
        ),
{
    (ax as i64) < bx as i64 + bw as i64 && ax as i64 + aw as i64 > bx as i64 && (ay as i64) < by as i64 + bh as i64
        && ay as i64 + ah as i64 > by as i64
}

/// Overlap does not depend on the order.
pub proof fn lemma_overlap_symmetric(ax: int, ay: int, aw: int, ah: int, bx: int, by: int, bw: int, bh: int)
    ensures
        overlap_of(ax, ay, aw, ah, bx, by, bw, bh) == overlap_of(bx, by, bw, bh, ax, ay, aw, ah),
{
}

/// For rectangles that are not empty, overlap means that some pixel lies in both.
pub proof fn lemma_overlap_shares_pixel(ax: int, ay: int, aw: int, ah: int, bx: int, by: int, bw: int, bh: int)
    requires
        aw > 0,
        ah > 0,
        bw > 0,
        bh > 0,
    ensures
        overlap_of(ax, ay, aw, ah, bx, by, bw, bh) <==> exists|x: int, y: int|
            #[trigger] inside(x, y, ax, ay, aw, ah) && inside(x, y, bx, by, bw, bh),
{
    if overlap_of(ax, ay, aw, ah, bx, by, bw, bh) {
        let x = max_of(ax, bx);
        let y = max_of(ay, by);
        assert(inside(x, y, ax, ay, aw, ah) && inside(x, y, bx, by, bw, bh));
    }
}

/// Whether a pixel lies in a rectangle given by corner and size.
pub open spec fn inside(x: int, y: int, ax: int, ay: int, aw: int, ah: int) -> bool {
    ax <= x < ax + aw && ay <= y < ay + ah
}

} // verus!
