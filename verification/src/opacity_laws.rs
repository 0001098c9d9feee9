//! What bits stand for as numbers, and what opacity they give a panel, for all of them.
use crate::bits::{decoded, exponent_bits, fraction_bits, is_special};
use crate::float::{canonical, float_le, float_mul, float_trunc, scale, SINGLE};
use crate::float_laws::{lemma_le_is_order, lemma_round_int, lemma_trunc_toward_zero};
use crate::geometry::single;
use crate::opacity::{alpha_of, limited, LEAST_OPACITY, OPAQUE};
use crate::order::{lemma_int_order, lemma_le_total, lemma_le_transitive, lemma_mul_commutes, lemma_mul_order};
use crate::precision::{den, lemma_int_exact, lemma_mul_near, lemma_scale_pos, num};
use vstd::arithmetic::power2::{lemma2_to64, lemma_pow2_pos, lemma_pow2_unfold};
use vstd::prelude::*;

verus! {

/// A larger number is not cut off to a smaller integer.
pub proof fn lemma_trunc_order(a: (int, int), b: (int, int))
    requires
        float_le(a, b),
        a.0 >= 0,
        b.0 >= 0,
    ensures
        float_trunc(a) <= float_trunc(b),
{
    lemma_le_is_order(a, b);
    lemma_trunc_toward_zero(a);
    lemma_trunc_toward_zero(b);
    lemma_scale_pos(a.1);
    lemma_scale_pos(-a.1);
    lemma_scale_pos(b.1);
    lemma_scale_pos(-b.1);
    let (x, k, r) = (num(a), den(a), float_trunc(a));
    let (y, l, s) = (num(b), den(b), float_trunc(b));
    assert(x >= 0 && y >= 0) by (nonlinear_arith)
        requires
            x == a.0 * scale(a.1),
            y == b.0 * scale(b.1),
            a.0 >= 0,
            b.0 >= 0,
            scale(a.1) > 0,
            scale(b.1) > 0,
    ;
    if r > s {
        assert(false) by (nonlinear_arith)
            requires
                r >= s + 1,
                r * k <= x,
                y < s * l + l,
                x * l <= y * k,
                k > 0,
                l > 0,
        ;
    }
}

/// Bits with an exponent stand for the fraction with a one in front, at that exponent; the highest bit is the
/// sign.
pub proof fn lemma_decoded(bits: int)
    requires
        0 <= bits < 0x8000_0000,
        exponent_bits(bits) > 0,
    ensures
        decoded(bits) == (0x80_0000 + fraction_bits(bits), exponent_bits(bits) - 150),
        decoded(bits + 0x8000_0000) == (-(0x80_0000 + fraction_bits(bits)), exponent_bits(bits) - 150),
        canonical(SINGLE as nat, decoded(bits)),
{
    lemma2_to64();
    let m = fraction_bits(bits) + 0x80_0000;
    lemma_int_exact(SINGLE as nat, m);
    lemma_int_order(SINGLE as nat, m, m);
    let r = single(m);
    assert(r.1 == 0) by {
        if r.1 < 0 {
            lemma_pow2_unfold((-r.1) as nat);
            lemma_pow2_pos((-r.1 - 1) as nat);
            assert(r.0 >= 2 * m) by (nonlinear_arith)
                requires
                    r.0 == m * scale(-r.1),
                    scale(-r.1) >= 2,
                    m > 0,
            ;
        }
    }
    assert(r.0 == m * 1);
    assert((bits + 0x8000_0000) % 0x80_0000 == bits % 0x80_0000);
    assert((bits + 0x8000_0000) / 0x80_0000 == bits / 0x80_0000 + 0x100);
}

/// The order of bits is the order of the numbers they stand for.
pub proof fn lemma_bits_in_order(a: int, b: int)
    requires
        0 <= a <= b < 0x7f80_0000,
        exponent_bits(a) > 0,
    ensures
        float_le(decoded(a), decoded(b)),
{
    lemma2_to64();
    lemma_decoded(a);
    assert(exponent_bits(a) == a / 0x80_0000);
    assert(exponent_bits(b) == b / 0x80_0000);
    lemma_decoded(b);
    let (x, y) = (decoded(a), decoded(b));
    lemma_scale_pos(0);
    if x.1 < y.1 {
        let k = y.1 - x.1;
        lemma_pow2_unfold(k as nat);
        lemma_pow2_pos((k - 1) as nat);
        assert(scale(k) >= 2);
        assert(x.0 * 1 <= y.0 * scale(k)) by (nonlinear_arith)
            requires
                x.0 < 0x100_0000,
                y.0 >= 0x80_0000,
                scale(k) >= 2,
        ;
    }
}

proof fn lemma_limited(bits: int)
    requires
        0 <= bits < 0x7f80_0000,
        exponent_bits(bits) > 0,
    ensures
        canonical(SINGLE as nat, limited(decoded(bits))),
        limited(decoded(bits)).0 > 0,
        float_le(decoded(LEAST_OPACITY as int), limited(decoded(bits))),
        float_le(limited(decoded(bits)), decoded(OPAQUE as int)),
{
    lemma_decoded(bits);
    lemma_decoded(LEAST_OPACITY as int);
    lemma_decoded(OPAQUE as int);
    let least = decoded(LEAST_OPACITY as int);
    let most = decoded(OPAQUE as int);
    lemma_bits_in_order(LEAST_OPACITY as int, OPAQUE as int);
    lemma_le_total(least, least);
    lemma_le_total(most, most);
    lemma_le_total(least, decoded(bits));
}

/// A fence of a larger opacity has a panel that is no fainter; from an opacity of 1 on nothing shows through,
/// and below one tenth no panel becomes fainter.
pub proof fn lemma_alpha_in_order(a: int, b: int)
    requires
        0 <= a <= b < 0x7f80_0000,
        exponent_bits(a) > 0,
    ensures
        alpha_of(a) <= alpha_of(b),
        a >= OPAQUE ==> alpha_of(a) == 255,
        b <= LEAST_OPACITY ==> alpha_of(a) == alpha_of(b),
{
    lemma2_to64();
    let p = SINGLE as nat;
    assert(exponent_bits(a) == a / 0x80_0000);
    assert(exponent_bits(b) == b / 0x80_0000);
    assert(!is_special(a) && !is_special(b));
    lemma_bits_in_order(a, b);
    lemma_limited(a);
    lemma_limited(b);
    let least = decoded(LEAST_OPACITY as int);
    let most = decoded(OPAQUE as int);
    lemma_decoded(OPAQUE as int);
    lemma_decoded(LEAST_OPACITY as int);
    let (x, y) = (limited(decoded(a)), limited(decoded(b)));
    lemma_le_total(least, decoded(b));
    lemma_le_total(decoded(a), most);
    lemma_le_total(decoded(b), most);
    lemma_le_total(x, x);
    if float_le(least, decoded(a)) && !float_le(least, decoded(b)) {
        lemma_le_transitive(least, decoded(a), decoded(b));
    }
    if float_le(decoded(b), most) && !float_le(decoded(a), most) {
        lemma_le_transitive(decoded(a), decoded(b), most);
    }
    assert(float_le(x, y));
    lemma_int_order(p, 255, 255);
    lemma_mul_order(p, x, y, single(255));
    lemma_le_total(y, y);
    lemma_mul_order(p, y, y, single(255));
    lemma_mul_commutes(p, x, single(255));
    lemma_mul_commutes(p, y, single(255));
    lemma_trunc_order(float_mul(p, single(255), x), float_mul(p, single(255), y));
    if a >= OPAQUE {
        lemma_bits_in_order(OPAQUE as int, a);
        lemma_bits_in_order(LEAST_OPACITY as int, a);
        lemma_same_number(OPAQUE as int, a);
        lemma_opaque();
    }
    if b <= LEAST_OPACITY {
        lemma_bits_in_order(b, LEAST_OPACITY as int);
        lemma_bits_in_order(a, LEAST_OPACITY as int);
        lemma_same_number(b, LEAST_OPACITY as int);
        lemma_same_number(a, LEAST_OPACITY as int);
    }
}

/// Two numbers of full precision that are neither above the other are the same.
proof fn lemma_same_number(a: int, b: int)
    requires
        0 <= a <= b < 0x7f80_0000,
        exponent_bits(a) > 0,
    ensures
        float_le(decoded(b), decoded(a)) ==> decoded(a) == decoded(b),
{
    lemma2_to64();
    lemma_decoded(a);
    assert(exponent_bits(a) == a / 0x80_0000);
    assert(exponent_bits(b) == b / 0x80_0000);
    lemma_decoded(b);
    let (x, y) = (decoded(a), decoded(b));
    lemma_scale_pos(0);
    if x.1 < y.1 {
        let k = y.1 - x.1;
        lemma_pow2_unfold(k as nat);
        lemma_pow2_pos((k - 1) as nat);
        assert(scale(k) >= 2);
        assert(y.0 * scale(k) > x.0 * 1 || y.0 * 2 <= x.0) by (nonlinear_arith)
            requires
                scale(k) >= 2,
                y.0 >= 0x80_0000,
        ;
    }
}

proof fn lemma_opaque()
    ensures
        decoded(OPAQUE as int) == single(1),
        float_trunc(float_mul(SINGLE as nat, single(255), single(1))) == 255,
{
    lemma2_to64();
    lemma_decoded(OPAQUE as int);
    lemma_int_exact(SINGLE as nat, 1);
    lemma_int_order(SINGLE as nat, 1, 1);
    let r = single(1);
    assert(r.0 == 1 * scale(-r.1));
    crate::precision::lemma_int_product(SINGLE as nat, 255, 1);
    lemma_round_int(SINGLE as nat, 255);
    assert(r == (0x80_0000int, -23int)) by {
        let k = -r.1;
        if k < 23 {
            if k > 0 {
                vstd::arithmetic::power2::lemma_pow2_strictly_increases(k as nat, 23);
            }
        } else if k > 23 {
            vstd::arithmetic::power2::lemma_pow2_strictly_increases(23, k as nat);
            lemma_pow2_unfold(k as nat);
            if k > 24 {
                vstd::arithmetic::power2::lemma_pow2_strictly_increases(24, k as nat);
            }
        }
    }
}

/// A panel's opacity out of 255 is that share of the fence's opacity, cut off: the difference is less than
/// one, up to the rounding of a product.
pub proof fn lemma_alpha_share(bits: int)
    requires
        LEAST_OPACITY <= bits <= OPAQUE,
    ensures
        ({
            let n = num(decoded(bits));
            let d = den(decoded(bits));
            &&& d > 0
            &&& 0x1_0000 * (alpha_of(bits) * d - 255 * n) <= 2 * n
            &&& 0x1_0000 * (255 * n - alpha_of(bits) * d - d) <= 2 * n
        }),
{
    lemma2_to64();
    let p = SINGLE as nat;
    assert(exponent_bits(bits) == bits / 0x80_0000);
    assert(!is_special(bits));
    lemma_decoded(bits);
    lemma_bits_in_order(LEAST_OPACITY as int, bits);
    lemma_bits_in_order(bits, OPAQUE as int);
    let v = decoded(bits);
    assert(limited(v) == v);
    lemma_scale_pos(v.1);
    lemma_scale_pos(-v.1);
    let (n, d) = (num(v), den(v));
    assert(n > 0) by (nonlinear_arith)
        requires
            n == v.0 * scale(v.1),
            v.0 > 0,
            scale(v.1) > 0,
    ;
    assert(crate::precision::near(p, 0, n, d, n, d)) by {
        assert(n * d - n * d == 0);
        assert(0 * (n * d) == 0) by (nonlinear_arith);
    }
    lemma_mul_near(p, 0, 255, v, n, d);
    let r = float_mul(p, single(255), v);
    lemma_trunc_toward_zero(r);
    lemma_scale_pos(r.1);
    lemma_scale_pos(-r.1);
    let (x, y) = (num(r), den(r));
    assert(x > 0) by (nonlinear_arith)
        requires
            x == r.0 * scale(r.1),
            r.0 > 0,
            scale(r.1) > 0,
    ;
    let t = float_trunc(r);
    lemma_share_bounds(t, x, y, n, d);
    lemma_alpha_in_order(bits, OPAQUE as int);
    assert(t >= 0) by (nonlinear_arith)
        requires
            x < t * y + y,
            x > 0,
            y > 0,
    ;
    lemma_whole_is_most(t, n, d, v);
}

proof fn lemma_share_bounds(t: int, x: int, y: int, n: int, d: int)
    requires
        y > 0,
        d > 0,
        n > 0,
        0 <= x - t * y < y,
        -(2 * ((255 * n) * y)) <= 0x100_0000 * (x * d - (255 * n) * y) <= 2 * ((255 * n) * y),
    ensures
        0x1_0000 * (t * d - 255 * n) <= 2 * n,
        0x1_0000 * (255 * n - t * d - d) <= 2 * n,
{
    let m = 255 * n;
    assert(t * y * d <= x * d && x * d <= t * y * d + y * d) by (nonlinear_arith)
        requires
            0 <= x - t * y < y,
            d > 0,
    ;
    let u = t * d - m;
    assert(t * y * d - m * y == u * y) by (nonlinear_arith)
        requires
            u == t * d - m,
    ;
    assert(0x100_0000 * (u * y) <= 2 * (m * y));
    assert(0x100_0000 * u <= 2 * m) by (nonlinear_arith)
        requires
            0x100_0000 * (u * y) <= 2 * (m * y),
            y > 0,
    ;
    let w = -u - d;
    assert(m * y - t * y * d - y * d == w * y) by (nonlinear_arith)
        requires
            u == t * d - m,
            w == -u - d,
    ;
    assert(0x100_0000 * (w * y) <= 2 * (m * y));
    assert(0x100_0000 * w <= 2 * m) by (nonlinear_arith)
        requires
            0x100_0000 * (w * y) <= 2 * (m * y),
            y > 0,
    ;
}

proof fn lemma_whole_is_most(t: int, n: int, d: int, v: (int, int))
    requires
        n > 0,
        d > 0,
        n == num(v),
        d == den(v),
        v.0 > 0,
        canonical(SINGLE as nat, v),
        float_le(v, decoded(OPAQUE as int)),
        t == float_trunc(float_mul(SINGLE as nat, single(255), v)),
    ensures
        t <= 255,
{
    let p = SINGLE as nat;
    lemma2_to64();
    lemma_opaque();
    lemma_int_order(p, 1, 1);
    lemma_int_order(p, 255, 255);
    lemma_mul_order(p, v, single(1), single(255));
    lemma_le_total(single(1), single(1));
    lemma_mul_order(p, single(1), single(1), single(255));
    lemma_mul_commutes(p, v, single(255));
    lemma_mul_commutes(p, single(1), single(255));
    lemma_trunc_order(float_mul(p, single(255), v), float_mul(p, single(255), single(1)));
}

/// What is no number gives no panel at all; what is beyond all numbers counts as the largest or the smallest
/// opacity, by its sign; and so does every negative number.
pub proof fn lemma_alpha_of_others(bits: int)
    requires
        0 <= bits <= u32::MAX,
    ensures
        0x7f80_0000 < bits < 0x8000_0000 || 0xff80_0000 < bits ==> alpha_of(bits) == 0,
        bits == 0x7f80_0000 ==> alpha_of(bits) == alpha_of(OPAQUE as int),
        bits == 0xff80_0000 ==> alpha_of(bits) == alpha_of(LEAST_OPACITY as int),
        0x8080_0000 <= bits < 0xff80_0000 ==> alpha_of(bits) == alpha_of(LEAST_OPACITY as int),
{
    lemma_alpha_in_order(OPAQUE as int, OPAQUE as int);
    lemma_limited(OPAQUE as int);
    lemma_limited(LEAST_OPACITY as int);
    let least = decoded(LEAST_OPACITY as int);
    let most = decoded(OPAQUE as int);
    lemma_le_total(least, least);
    lemma_le_total(most, most);
    lemma_bits_in_order(LEAST_OPACITY as int, OPAQUE as int);
    assert(limited(least) == least);
    assert(limited(most) == most);
    if 0x8080_0000 <= bits < 0xff80_0000 {
        let b = bits - 0x8000_0000;
        assert(exponent_bits(b) == b / 0x80_0000);
        assert(exponent_bits(bits) == exponent_bits(b)) by {
            assert(bits / 0x80_0000 == b / 0x80_0000 + 0x100);
        }
        lemma_decoded(b);
        lemma_decoded(LEAST_OPACITY as int);
        let v = decoded(bits);
        assert(v.0 < 0);
        lemma_scale_pos(least.1 - v.1);
        lemma_scale_pos(v.1 - least.1);
        assert(least.0 * scale(least.1 - v.1) > 0 && v.0 * scale(v.1 - least.1) < 0) by (nonlinear_arith)
            requires
                least.0 > 0,
                v.0 < 0,
                scale(least.1 - v.1) > 0,
                scale(v.1 - least.1) > 0,
        ;
        assert(!float_le(least, v));
    }
}

} // verus!
