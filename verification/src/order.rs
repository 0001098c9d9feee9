//! How rounding keeps order: what is computed from larger numbers is not smaller.
use crate::float::{
    canonical, float_add, float_div, float_le, float_mul, float_neg, int_to_float, lemma_nearest_even_range,
    lemma_round_below_canonical, lemma_round_ratio_canonical, lemma_shifted_int, nearest_even, round_below,
    round_ratio, round_signed, scale,
};
use crate::precision::{lemma_quotient_twice, lemma_round_signed_shifted, lemma_unit_quotient};
use vstd::arithmetic::power2::{lemma2_to64, lemma_pow2_adds, lemma_pow2_pos, lemma_pow2_unfold, pow2};
use vstd::prelude::*;

verus! {

/// The number `a` in units of `2^lo`.
pub open spec fn units(a: (int, int), lo: int) -> int {
    a.0 * pow2((a.1 - lo) as nat)
}

/// Numbers are compared by their units.
pub proof fn lemma_le_units(a: (int, int), b: (int, int), lo: int)
    requires
        lo <= a.1,
        lo <= b.1,
    ensures
        float_le(a, b) <==> units(a, lo) <= units(b, lo),
{
    lemma2_to64();
    let low = if a.1 <= b.1 { a.1 } else { b.1 };
    let k = pow2((low - lo) as nat) as int;
    lemma_pow2_pos((low - lo) as nat);
    lemma_pow2_adds((a.1 - low) as nat, (low - lo) as nat);
    lemma_pow2_adds((b.1 - low) as nat, (low - lo) as nat);
    let x = a.0 * scale(a.1 - b.1);
    let y = b.0 * scale(b.1 - a.1);
    let s = scale(a.1 - b.1);
    let t = scale(b.1 - a.1);
    assert(s == pow2((a.1 - low) as nat));
    assert(t == pow2((b.1 - low) as nat));
    assert(units(a, lo) == x * k) by (nonlinear_arith)
        requires
            units(a, lo) == a.0 * (s * k),
            x == a.0 * s,
    ;
    assert(units(b, lo) == y * k) by (nonlinear_arith)
        requires
            units(b, lo) == b.0 * (t * k),
            y == b.0 * t,
    ;
    assert(x <= y <==> x * k <= y * k) by (nonlinear_arith)
        requires
            k > 0,
    ;
}

spec fn lowest(a: int, b: int, c: int) -> int {
    if a <= b && a <= c {
        a
    } else if b <= c {
        b
    } else {
        c
    }
}

/// The order of numbers is transitive.
pub proof fn lemma_le_transitive(a: (int, int), b: (int, int), c: (int, int))
    requires
        float_le(a, b),
        float_le(b, c),
    ensures
        float_le(a, c),
{
    let lo = lowest(a.1, b.1, c.1);
    lemma_le_units(a, b, lo);
    lemma_le_units(b, c, lo);
    lemma_le_units(a, c, lo);
}

/// Of two numbers one is not larger than the other, and no number is larger than itself.
pub proof fn lemma_le_total(a: (int, int), b: (int, int))
    ensures
        float_le(a, b) || float_le(b, a),
        float_le(a, a),
{
    let lo = if a.1 <= b.1 { a.1 } else { b.1 };
    lemma_le_units(a, b, lo);
    lemma_le_units(b, a, lo);
}

/// Negation turns the order round.
pub proof fn lemma_le_neg(a: (int, int), b: (int, int))
    ensures
        float_le(a, b) <==> float_le(float_neg(b), float_neg(a)),
{
    let s = scale(a.1 - b.1);
    let t = scale(b.1 - a.1);
    let x = a.0;
    let y = b.0;
    assert((-x) * s == -(x * s)) by (nonlinear_arith);
    assert((-y) * t == -(y * t)) by (nonlinear_arith);
}

/// A number is not negative exactly when its mantissa is not.
pub proof fn lemma_le_zero(a: (int, int))
    ensures
        float_le((0, 0), a) <==> a.0 >= 0,
        float_le(a, (0, 0)) <==> a.0 <= 0,
{
    lemma2_to64();
    let lo = if a.1 <= 0 { a.1 } else { 0 };
    lemma_le_units((0, 0), a, lo);
    lemma_le_units(a, (0, 0), lo);
    lemma_pow2_pos((a.1 - lo) as nat);
    let t = pow2((a.1 - lo) as nat) as int;
    assert(0 * pow2((0 - lo) as nat) == 0);
    let m = a.0;
    assert((m * t >= 0 <==> m >= 0) && (m * t <= 0 <==> m <= 0)) by (nonlinear_arith)
        requires
            t > 0,
    ;
}

/// Whether a positive number comes before another one of the same precision, by exponent and then by
/// mantissa.
spec fn listed_before(a: (int, int), b: (int, int)) -> bool {
    a.1 < b.1 || (a.1 == b.1 && a.0 <= b.0)
}

proof fn lemma_listed_le(p: nat, a: (int, int), b: (int, int))
    requires
        p > 0,
        pow2((p - 1) as nat) <= a.0 < pow2(p),
        pow2((p - 1) as nat) <= b.0 < pow2(p),
        listed_before(a, b),
    ensures
        float_le(a, b),
{
    lemma2_to64();
    lemma_le_units(a, b, a.1);
    lemma_pow2_unfold(p);
    let half = pow2((p - 1) as nat) as int;
    assert(a.0 * 1 == a.0);
    if a.1 < b.1 {
        let k = (b.1 - a.1) as nat;
        lemma_pow2_unfold(k);
        lemma_pow2_pos((k - 1) as nat);
        let t = pow2(k) as int;
        let m = b.0;
        assert(m * t >= 2 * half) by (nonlinear_arith)
            requires
                m >= half,
                half >= 0,
                t >= 2,
        ;
    } else {
        assert(b.0 * 1 == b.0);
    }
}

proof fn lemma_nearest_even_order(n1: int, n2: int, d: int)
    requires
        0 <= n1 <= n2,
        d > 0,
    ensures
        nearest_even(n1, d) <= nearest_even(n2, d),
{
    let q1 = n1 / d;
    let q2 = n2 / d;
    let r1 = n1 % d;
    let r2 = n2 % d;
    assert(n1 == d * q1 + r1 && n2 == d * q2 + r2 && 0 <= r1 < d && 0 <= r2 < d) by (nonlinear_arith)
        requires
            q1 == n1 / d,
            q2 == n2 / d,
            r1 == n1 % d,
            r2 == n2 % d,
            d > 0,
    ;
    assert(q1 <= q2) by (nonlinear_arith)
        requires
            d * q1 + r1 <= d * q2 + r2,
            0 <= r1,
            r2 < d,
            d > 0,
    ;
}

/// A quotient below `2^p` is rounded to `2^p` at most.
proof fn lemma_below_shape(p: nat, n: int, d: int)
    requires
        p > 0,
        n > 0,
        d > 0,
        n < d * pow2(p),
    ensures
        ({
            let r = round_below(p, n, d);
            r.1 <= 0 || (r.1 == 1 && r.0 == pow2((p - 1) as nat))
        }),
    decreases 2 * (d * pow2((p - 1) as nat)) - n,
{
    lemma_pow2_unfold(p);
    lemma_pow2_pos((p - 1) as nat);
    let half = pow2((p - 1) as nat) as int;
    assert(d * (2 * half) == 2 * (d * half)) by (nonlinear_arith);
    if n < d * half {
        lemma_below_shape(p, 2 * n, d);
    }
}

proof fn lemma_below_order(p: nat, n1: int, n2: int, d: int)
    requires
        p > 0,
        0 < n1 <= n2,
        d > 0,
        n2 < d * pow2(p),
    ensures
        listed_before(round_below(p, n1, d), round_below(p, n2, d)),
    decreases 2 * (d * pow2((p - 1) as nat)) - n1,
{
    lemma_pow2_unfold(p);
    lemma_pow2_pos((p - 1) as nat);
    let half = pow2((p - 1) as nat) as int;
    assert(d * (2 * half) == 2 * (d * half)) by (nonlinear_arith);
    if n2 < d * half {
        lemma_below_order(p, 2 * n1, 2 * n2, d);
    } else {
        lemma_nearest_even_range(n2, d, half, 2 * half);
        if n1 < d * half {
            lemma_below_shape(p, 2 * n1, d);
            lemma_round_below_canonical(p, 2 * n1, d);
        } else {
            lemma_nearest_even_range(n1, d, half, 2 * half);
            lemma_nearest_even_order(n1, n2, d);
        }
    }
}

/// A quotient of at least `2^p` has a positive exponent.
proof fn lemma_large_shape(p: nat, n: int, d: int)
    requires
        p > 0,
        d > 0,
        n >= d * pow2(p),
    ensures
        round_ratio(p, n, d).1 >= 1,
    decreases n - d,
{
    lemma_pow2_unfold(p);
    lemma_pow2_pos((p - 1) as nat);
    let t = pow2(p) as int;
    let half = pow2((p - 1) as nat) as int;
    assert((2 * d) * t == 2 * (d * t) && (2 * d) * half == d * t && d * t >= 2 * d) by (nonlinear_arith)
        requires
            t == 2 * half,
            t >= 2,
            d > 0,
    ;
    if n >= (2 * d) * t {
        lemma_large_shape(p, n, 2 * d);
    } else {
        assert(d * t > 0);
        assert(round_ratio(p, n, 2 * d) == round_below(p, n, 2 * d));
        assert(round_below(p, n, 2 * d).1 >= 0);
    }
}

/// Of two quotients by the same divisor, the larger one is rounded to the larger number.
proof fn lemma_ratio_order(p: nat, n1: int, n2: int, d: int)
    requires
        p > 0,
        0 < n1 <= n2,
        d > 0,
    ensures
        listed_before(round_ratio(p, n1, d), round_ratio(p, n2, d)),
    decreases n1 - d,
{
    lemma_pow2_unfold(p);
    lemma_pow2_pos((p - 1) as nat);
    let t = pow2(p) as int;
    assert(d * t >= 2 * d) by (nonlinear_arith)
        requires
            d > 0,
            t >= 2,
    ;
    if n1 >= d * t {
        lemma_ratio_order(p, n1, n2, 2 * d);
    } else if n2 >= d * t {
        lemma_below_shape(p, n1, d);
        lemma_large_shape(p, n2, d);
        lemma_round_ratio_canonical(p, n2, d);
    } else {
        lemma_below_order(p, n1, n2, d);
    }
}

/// `n * 2^lo`, rounded.
pub open spec fn rounded(p: nat, n: int, lo: int) -> (int, int) {
    if n == 0 {
        (0, 0)
    } else {
        (round_signed(p, n, 1).0, round_signed(p, n, 1).1 + lo)
    }
}

/// Rounding keeps the order.
pub proof fn lemma_rounded_order(p: nat, n1: int, n2: int, lo: int)
    requires
        p > 0,
        n1 <= n2,
    ensures
        float_le(rounded(p, n1, lo), rounded(p, n2, lo)),
        rounded(p, n1, lo).0 >= 0 <==> n1 >= 0,
        rounded(p, n1, lo).0 <= 0 <==> n1 <= 0,
        canonical(p, rounded(p, n1, lo)),
{
    lemma_rounded_sign(p, n1, lo);
    lemma_rounded_sign(p, n2, lo);
    let a = rounded(p, n1, lo);
    let b = rounded(p, n2, lo);
    lemma_le_zero(a);
    lemma_le_zero(b);
    if n1 > 0 {
        lemma_ratio_order(p, n1, n2, 1);
        lemma_listed_le(p, a, b);
    } else if n2 < 0 {
        lemma_ratio_order(p, -n2, -n1, 1);
        lemma_listed_le(p, float_neg(b), float_neg(a));
        lemma_le_neg(a, b);
    } else {
        lemma_le_transitive(a, (0, 0), b);
    }
}

/// Larger integers are larger numbers.
pub proof fn lemma_int_order(p: nat, a: int, b: int)
    requires
        p > 0,
        a <= b,
    ensures
        float_le(int_to_float(p, a), int_to_float(p, b)),
        canonical(p, int_to_float(p, a)),
        canonical(p, int_to_float(p, b)),
        int_to_float(p, a).0 >= 0 <==> a >= 0,
        int_to_float(p, a).0 <= 0 <==> a <= 0,
        int_to_float(p, 0) == (0int, 0int),
{
    lemma_pow2_pos(p);
    assert(int_to_float(p, 0) == (0int, 0int));
    assert(int_to_float(p, a) == rounded(p, a, 0));
    assert(int_to_float(p, b) == rounded(p, b, 0));
    lemma_rounded_order(p, a, b, 0);
    lemma_rounded_order(p, b, b, 0);
}

proof fn lemma_rounded_sign(p: nat, n: int, lo: int)
    requires
        p > 0,
    ensures
        n > 0 ==> pow2((p - 1) as nat) <= rounded(p, n, lo).0 < pow2(p),
        n < 0 ==> pow2((p - 1) as nat) <= -rounded(p, n, lo).0 < pow2(p),
        n > 0 ==> rounded(p, n, lo).0 > 0,
        n < 0 ==> rounded(p, n, lo).0 < 0,
{
    lemma_pow2_pos((p - 1) as nat);
    if n > 0 {
        lemma_round_ratio_canonical(p, n, 1);
    } else if n < 0 {
        lemma_round_ratio_canonical(p, -n, 1);
    }
}

proof fn lemma_rounded_shift(p: nat, n: int, k: nat, lo: int)
    requires
        p > 0,
    ensures
        rounded(p, n * pow2(k), lo) == rounded(p, n, lo + k),
{
    if n != 0 {
        lemma_round_signed_shifted(p, n, k);
    } else {
        assert(0 * pow2(k) == 0);
    }
}

/// A number of the precision is not changed by rounding.
proof fn lemma_rounded_exact(p: nat, a: (int, int))
    requires
        p > 0,
        canonical(p, a),
    ensures
        rounded(p, a.0, a.1) == a,
{
    lemma2_to64();
    lemma_pow2_pos((p - 1) as nat);
    if a.0 > 0 {
        lemma_shifted_int(p, a.0, 0);
        assert(a.0 * 1 == a.0);
    } else if a.0 < 0 {
        lemma_shifted_int(p, -a.0, 0);
        assert((-a.0) * 1 == -a.0);
    }
}

/// A sum is the sum of the units, rounded.
proof fn lemma_add_rounded(p: nat, a: (int, int), b: (int, int), lo: int)
    requires
        p > 0,
        canonical(p, a),
        canonical(p, b),
        lo <= a.1,
        lo <= b.1,
    ensures
        float_add(p, a, b) == rounded(p, units(a, lo) + units(b, lo), lo),
{
    reveal(float_add);
    lemma2_to64();
    lemma_pow2_pos((p - 1) as nat);
    let ka = (a.1 - lo) as nat;
    let kb = (b.1 - lo) as nat;
    if a.0 == 0 {
        assert(0 * pow2(ka) == 0);
        lemma_rounded_shift(p, b.0, kb, lo);
        lemma_rounded_exact(p, b);
    } else if b.0 == 0 {
        assert(0 * pow2(kb) == 0);
        lemma_rounded_shift(p, a.0, ka, lo);
        lemma_rounded_exact(p, a);
    } else {
        let low = if a.1 < b.1 { a.1 } else { b.1 };
        let k = (low - lo) as nat;
        let n = a.0 * scale(a.1 - low) + b.0 * scale(b.1 - low);
        let s = scale(a.1 - low);
        let t = scale(b.1 - low);
        lemma_pow2_adds((a.1 - low) as nat, k);
        lemma_pow2_adds((b.1 - low) as nat, k);
        let w = pow2(k) as int;
        assert(units(a, lo) == (a.0 * s) * w) by (nonlinear_arith)
            requires
                units(a, lo) == a.0 * (s * w),
        ;
        assert(units(b, lo) == (b.0 * t) * w) by (nonlinear_arith)
            requires
                units(b, lo) == b.0 * (t * w),
        ;
        let x = a.0 * s;
        let y = b.0 * t;
        assert(x * w + y * w == (x + y) * w) by (nonlinear_arith);
        lemma_rounded_shift(p, n, k, lo);
    }
}

/// A product is the product of the units and a mantissa, rounded.
proof fn lemma_mul_rounded(p: nat, a: (int, int), c: (int, int), lo: int)
    requires
        p > 0,
        canonical(p, a),
        lo <= a.1,
    ensures
        float_mul(p, a, c) == rounded(p, units(a, lo) * c.0, lo + c.1),
{
    reveal(float_mul);
    let k = (a.1 - lo) as nat;
    lemma_pow2_pos(k);
    let t = pow2(k) as int;
    let x = a.0;
    let y = c.0;
    assert((x * t) * y == (x * y) * t) by (nonlinear_arith);
    lemma_rounded_shift(p, x * y, k, lo + c.1);
    if x == 0 || y == 0 {
        assert(x * y == 0) by (nonlinear_arith)
            requires
                x == 0 || y == 0,
        ;
    } else {
        assert(x * y != 0) by (nonlinear_arith)
            requires
                x != 0,
                y != 0,
        ;
    }
}

/// Adding the same number keeps the order.
pub proof fn lemma_add_order(p: nat, a: (int, int), b: (int, int), c: (int, int))
    requires
        p > 0,
        canonical(p, a),
        canonical(p, b),
        canonical(p, c),
        float_le(b, c),
    ensures
        float_le(float_add(p, a, b), float_add(p, a, c)),
        canonical(p, float_add(p, a, b)),
{
    let lo = lowest(a.1, b.1, c.1);
    lemma_add_rounded(p, a, b, lo);
    lemma_add_rounded(p, a, c, lo);
    lemma_le_units(b, c, lo);
    lemma_rounded_order(p, units(a, lo) + units(b, lo), units(a, lo) + units(c, lo), lo);
}

/// Subtracting a larger number gives a smaller one.
pub proof fn lemma_sub_order(p: nat, a: (int, int), b: (int, int), c: (int, int))
    requires
        p > 0,
        canonical(p, a),
        canonical(p, b),
        canonical(p, c),
        float_le(b, c),
    ensures
        float_le(float_add(p, a, float_neg(c)), float_add(p, a, float_neg(b))),
        canonical(p, float_add(p, a, float_neg(c))),
        canonical(p, float_add(p, a, float_neg(b))),
{
    lemma_le_neg(b, c);
    lemma_le_total(float_neg(b), float_neg(b));
    lemma_add_order(p, a, float_neg(c), float_neg(b));
    lemma_add_order(p, a, float_neg(b), float_neg(b));
}

/// A number less itself is 0, and a number is not changed by 0.
pub proof fn lemma_sub_self(p: nat, a: (int, int))
    requires
        p > 0,
        canonical(p, a),
    ensures
        float_add(p, a, float_neg(a)) == (0int, 0int),
        float_add(p, a, (0, 0)) == a,
{
    lemma_add_rounded(p, a, float_neg(a), a.1);
    let t = pow2(0) as int;
    let x = a.0;
    assert(x * t + (-x) * t == 0) by (nonlinear_arith);
    reveal(float_add);
    lemma_pow2_pos((p - 1) as nat);
}

/// Multiplying by the same number that is not negative keeps the order.
pub proof fn lemma_mul_order(p: nat, a: (int, int), b: (int, int), c: (int, int))
    requires
        p > 0,
        canonical(p, a),
        canonical(p, b),
        float_le(a, b),
        c.0 >= 0,
    ensures
        float_le(float_mul(p, a, c), float_mul(p, b, c)),
        canonical(p, float_mul(p, a, c)),
        a.0 >= 0 ==> float_mul(p, a, c).0 >= 0,
        a.0 <= 0 ==> float_mul(p, a, c).0 <= 0,
{
    let lo = if a.1 <= b.1 { a.1 } else { b.1 };
    lemma_mul_rounded(p, a, c, lo);
    lemma_mul_rounded(p, b, c, lo);
    lemma_le_units(a, b, lo);
    let x = units(a, lo);
    let y = units(b, lo);
    let m = c.0;
    assert(x * m <= y * m) by (nonlinear_arith)
        requires
            x <= y,
            m >= 0,
    ;
    lemma_rounded_order(p, x * m, y * m, lo + c.1);
    lemma_pow2_pos((a.1 - lo) as nat);
    let t = pow2((a.1 - lo) as nat) as int;
    let n = a.0;
    assert((n >= 0 ==> (n * t) * m >= 0) && (n <= 0 ==> (n * t) * m <= 0)) by (nonlinear_arith)
        requires
            t > 0,
            m >= 0,
    ;
}

/// The factors of a product can be exchanged.
pub proof fn lemma_mul_commutes(p: nat, a: (int, int), b: (int, int))
    ensures
        float_mul(p, a, b) == float_mul(p, b, a),
{
    reveal(float_mul);
    let x = a.0;
    let y = b.0;
    assert(x * y == y * x) by (nonlinear_arith);
}

/// A product with a negated factor is the negated product.
pub proof fn lemma_mul_negated(p: nat, a: (int, int), b: (int, int))
    ensures
        float_mul(p, a, b) == float_neg(float_mul(p, a, float_neg(b))),
{
    reveal(float_mul);
    let x = a.0;
    let y = b.0;
    assert(x * (-y) == -(x * y)) by (nonlinear_arith);
    if x != 0 && y != 0 {
        assert(x * y != 0) by (nonlinear_arith)
            requires
                x != 0,
                y != 0,
        ;
    }
}

proof fn lemma_quotient_units(p: nat, n: int, d: int, k: nat)
    requires
        p > 0,
        n > 0,
        d > 0,
    ensures
        round_ratio(p, n * pow2(k), d) == (round_ratio(p, n, d).0, round_ratio(p, n, d).1 + k),
        n * pow2(k) > 0,
    decreases k,
{
    lemma2_to64();
    if k == 0 {
        assert(n * 1 == n);
    } else {
        lemma_pow2_unfold(k);
        lemma_quotient_units(p, n, d, (k - 1) as nat);
        let m = n * pow2((k - 1) as nat);
        assert(n * pow2(k) == 2 * m) by (nonlinear_arith)
            requires
                m == n * pow2((k - 1) as nat),
                pow2(k) == 2 * pow2((k - 1) as nat),
        ;
        lemma_quotient_twice(p, m, d);
    }
}

/// Dividing by the same number keeps the order of positive numbers.
pub proof fn lemma_div_order(p: nat, a: (int, int), b: (int, int), c: (int, int))
    requires
        p > 0,
        a.0 > 0,
        b.0 > 0,
        c.0 > 0,
        float_le(a, b),
    ensures
        float_le(float_div(p, a, c), float_div(p, b, c)),
        canonical(p, float_div(p, a, c)),
        float_div(p, a, c).0 > 0,
{
    reveal(float_div);
    lemma_pow2_pos((p - 1) as nat);
    let lo = if a.1 <= b.1 { a.1 } else { b.1 };
    lemma_le_units(a, b, lo);
    lemma_quotient_units(p, a.0, c.0, (a.1 - lo) as nat);
    lemma_quotient_units(p, b.0, c.0, (b.1 - lo) as nat);
    lemma_ratio_order(p, units(a, lo), units(b, lo), c.0);
    lemma_round_ratio_canonical(p, a.0, c.0);
    lemma_round_ratio_canonical(p, b.0, c.0);
    lemma_listed_le(p, float_div(p, a, c), float_div(p, b, c));
}

/// Multiplying by 1 changes nothing.
pub proof fn lemma_mul_one(p: nat, a: (int, int))
    requires
        p > 0,
        canonical(p, a),
    ensures
        float_mul(p, a, int_to_float(p, 1)) == a,
{
    lemma_unit_quotient(p, (1, 0));
    let h = pow2((p - 1) as nat) as int;
    lemma_pow2_pos((p - 1) as nat);
    lemma_mul_rounded(p, a, int_to_float(p, 1), a.1);
    lemma2_to64();
    let x = a.0;
    assert((x * 1) * h == x * h) by (nonlinear_arith);
    lemma_rounded_shift(p, x, (p - 1) as nat, a.1 + 1 - p);
    lemma_rounded_exact(p, a);
}

} // verus!
