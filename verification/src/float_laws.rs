//! What rounding to an integer means, in terms of the number that is rounded: a number is `num / den`.
use crate::float::{float_floor, float_le, float_round, float_trunc, int_to_float, nearest_even, scale};
use crate::precision::{den, lemma_int_parts, lemma_scale_pos, num};
use vstd::arithmetic::power2::pow2;
use vstd::prelude::*;

verus! {

/// A quotient is rounded to an integer at most one half away, and to the even one of two that are as near.
pub proof fn lemma_nearest_even(n: int, d: int)
    requires
        d > 0,
        n >= 0,
    ensures
        -d <= 2 * (nearest_even(n, d) * d - n) <= d,
        2 * (nearest_even(n, d) * d - n) == d || 2 * (nearest_even(n, d) * d - n) == -d ==> nearest_even(n, d) % 2 == 0,
{
    let q = n / d;
    assert(n == q * d + n % d) by (nonlinear_arith)
        requires
            d > 0,
            q == n / d,
    ;
    assert((q + 1) * d == q * d + d) by (nonlinear_arith);
    assert(0 <= n % d < d);
}

/// Rounding goes to the nearest integer, and away from zero where two are as near.
pub proof fn lemma_round_nearest(a: (int, int))
    ensures
        den(a) > 0,
        -den(a) <= 2 * (float_round(a) * den(a) - num(a)) <= den(a),
        num(a) >= 0 ==> -den(a) < 2 * (float_round(a) * den(a) - num(a)),
        num(a) <= 0 ==> 2 * (float_round(a) * den(a) - num(a)) < den(a),
        num(a) >= 0 ==> float_round(a) >= 0,
        num(a) <= 0 ==> float_round(a) <= 0,
        (num(a) < 0) == (a.0 < 0),
        (num(a) > 0) == (a.0 > 0),
{
    lemma_scale_pos(a.1);
    lemma_scale_pos(-a.1);
    let k = den(a);
    let s = scale(a.1);
    let m = if a.0 < 0 { -a.0 } else { a.0 };
    let x = m * s;
    assert(2 * m * s == 2 * x) by (nonlinear_arith)
        requires
            x == m * s,
    ;
    assert(num(a) == if a.0 < 0 { -x } else { x }) by (nonlinear_arith)
        requires
            num(a) == a.0 * s,
            x == m * s,
            m == if a.0 < 0 { -a.0 } else { a.0 },
    ;
    assert(x >= 0 && (x > 0 <==> m > 0)) by (nonlinear_arith)
        requires
            x == m * s,
            s > 0,
            m >= 0,
    ;
    let r = (2 * x + k) / (2 * k);
    assert(2 * (r * k) <= 2 * x + k && 2 * x + k < 2 * (r * k) + 2 * k && r >= 0) by (nonlinear_arith)
        requires
            r == (2 * x + k) / (2 * k),
            k > 0,
            x >= 0,
    ;
    assert((-r) * k == -(r * k)) by (nonlinear_arith);
    if x == 0 {
        assert(r == 0) by (nonlinear_arith)
            requires
                r == (2 * x + k) / (2 * k),
                k > 0,
                x == 0,
        ;
    }
}

/// Cutting off goes toward zero by less than one.
pub proof fn lemma_trunc_toward_zero(a: (int, int))
    ensures
        num(a) >= 0 ==> 0 <= num(a) - float_trunc(a) * den(a) < den(a),
        num(a) <= 0 ==> -den(a) < num(a) - float_trunc(a) * den(a) <= 0,
{
    lemma_scale_pos(a.1);
    lemma_scale_pos(-a.1);
    let k = den(a);
    let s = scale(a.1);
    let m = if a.0 < 0 { -a.0 } else { a.0 };
    let x = m * s;
    assert(num(a) == if a.0 < 0 { -x } else { x }) by (nonlinear_arith)
        requires
            num(a) == a.0 * s,
            x == m * s,
            m == if a.0 < 0 { -a.0 } else { a.0 },
    ;
    assert(x >= 0 && (x > 0 <==> m > 0)) by (nonlinear_arith)
        requires
            x == m * s,
            s > 0,
            m >= 0,
    ;
    let r = x / k;
    assert(r * k <= x && x < r * k + k) by (nonlinear_arith)
        requires
            r == x / k,
            k > 0,
    ;
    assert((-r) * k == -(r * k)) by (nonlinear_arith);
}

/// The floor is at most the number, by less than one.
pub proof fn lemma_floor_below(a: (int, int))
    ensures
        0 <= num(a) - float_floor(a) * den(a) < den(a),
{
    lemma_scale_pos(-a.1);
    let k = den(a);
    let x = num(a);
    let r = x / k;
    assert(r * k <= x && x < r * k + k) by (nonlinear_arith)
        requires
            r == x / k,
            k > 0,
    ;
}

/// Comparing two numbers is comparing their values.
pub proof fn lemma_le_is_order(a: (int, int), b: (int, int))
    ensures
        float_le(a, b) <==> num(a) * den(b) <= num(b) * den(a),
{
    crate::geometry::lemma_le_values(a, b);
}

/// A larger number is not rounded to a smaller integer.
pub proof fn lemma_round_order(a: (int, int), b: (int, int))
    requires
        float_le(a, b),
    ensures
        float_round(a) <= float_round(b),
{
    lemma_le_is_order(a, b);
    lemma_round_nearest(a);
    lemma_round_nearest(b);
    let (x, k, r) = (num(a), den(a), float_round(a));
    let (y, l, s) = (num(b), den(b), float_round(b));
    if r > s {
        if x >= 0 || y <= 0 {
            if x >= 0 {
                assert(y >= 0) by (nonlinear_arith)
                    requires
                        x * l <= y * k,
                        x >= 0,
                        k > 0,
                        l > 0,
                ;
            } else {
                assert(x <= 0) by (nonlinear_arith)
                    requires
                        x * l <= y * k,
                        y <= 0,
                        k > 0,
                        l > 0,
                ;
            }
            lemma_round_order_aux(x, k, r, y, l, s);
        }
    }
}

proof fn lemma_round_order_aux(x: int, k: int, r: int, y: int, l: int, s: int)
    requires
        k > 0,
        l > 0,
        x * l <= y * k,
        2 * (r * k - x) <= k,
        -l <= 2 * (s * l - y),
        2 * (r * k - x) < k || -l < 2 * (s * l - y),
    ensures
        r <= s,
{
    if r >= s + 1 {
        let u = r * k;
        let v = s * l;
        assert((2 * u - k) * l <= (2 * x) * l) by (nonlinear_arith)
            requires
                2 * u - k <= 2 * x,
                l > 0,
        ;
        assert(2 * y * k <= (2 * v + l) * k) by (nonlinear_arith)
            requires
                2 * y <= 2 * v + l,
                k > 0,
        ;
        if 2 * u - k < 2 * x {
            assert((2 * u - k) * l < (2 * x) * l) by (nonlinear_arith)
                requires
                    2 * u - k < 2 * x,
                    l > 0,
            ;
        } else {
            assert(2 * y * k < (2 * v + l) * k) by (nonlinear_arith)
                requires
                    2 * y < 2 * v + l,
                    k > 0,
            ;
        }
        assert((2 * x) * l == 2 * (x * l) && 2 * y * k == 2 * (y * k)) by (nonlinear_arith);
        assert((2 * u - k) * l < (2 * v + l) * k);
        assert(false) by (nonlinear_arith)
            requires
                (2 * (r * k) - k) * l < (2 * (s * l) + l) * k,
                r >= s + 1,
                k > 0,
                l > 0,
        ;
    }
}

/// An integer below `2^p` is a number of precision `p`, and rounding gives it back.
pub proof fn lemma_round_int(p: nat, v: int)
    requires
        p > 0,
        -pow2(p) < v < pow2(p),
    ensures
        float_round(int_to_float(p, v)) == v,
        float_trunc(int_to_float(p, v)) == v,
        num(int_to_float(p, v)) == v * den(int_to_float(p, v)),
{
    lemma_int_parts(p, v);
    let a = int_to_float(p, v);
    lemma_round_nearest(a);
    lemma_trunc_toward_zero(a);
    let k = den(a);
    lemma_scale_pos(a.1);
    assert(scale(a.1) == 1);
    assert(num(a) == v * k) by (nonlinear_arith)
        requires
            num(a) == a.0 * scale(a.1),
            scale(a.1) == 1,
            a.0 == v * k,
    ;
    let r = float_round(a);
    assert(r == v) by (nonlinear_arith)
        requires
            -k <= 2 * (r * k - v * k) <= k,
            k > 0,
    ;
    let t = float_trunc(a);
    assert(t == v) by (nonlinear_arith)
        requires
            -k < v * k - t * k < k,
            k > 0,
    ;
}

} // verus!
