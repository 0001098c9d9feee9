//! How accurate the rounding of `float` is: what a chain of operations yields, compared with exact
//! arithmetic on rationals.
use crate::float::{
    close, float_add, float_div, float_le, float_mul, float_round, int_to_float, lemma_round_ratio_close,
    nearest_even, round_below, round_ratio, round_signed, scale,
};
use vstd::arithmetic::power2::{lemma2_to64, lemma_pow2_adds, lemma_pow2_pos, lemma_pow2_unfold, pow2};
use vstd::prelude::*;

verus! {

/// The numerator of `m * 2^e`.
pub open spec fn num(a: (int, int)) -> int {
    a.0 * scale(a.1)
}

/// The denominator of `m * 2^e`.
pub open spec fn den(a: (int, int)) -> int {
    scale(-a.1)
}

/// `x / y` is within `w` parts in `2^p` of `n / d`.
pub open spec fn near(p: nat, w: int, x: int, y: int, n: int, d: int) -> bool {
    -(w * (n * y)) <= pow2(p) * (x * d - n * y) <= w * (n * y)
}

pub proof fn lemma_scale_pos(a: int)
    ensures
        scale(a) > 0,
        scale(a) == 1 || scale(-a) == 1,
        scale(0) == 1,
{
    lemma2_to64();
    if a > 0 {
        lemma_pow2_pos(a as nat);
    }
}

/// `2^a * 2^b == 2^(a + b)`, with negative powers in the denominators.
pub proof fn lemma_scale_adds(a: int, b: int)
    ensures
        scale(a + b) * (scale(-a) * scale(-b)) == (scale(a) * scale(b)) * scale(-(a + b)),
{
    lemma_scale_pos(a);
    lemma_scale_pos(b);
    lemma_scale_pos(a + b);
    if a >= 0 && b >= 0 {
        if a > 0 && b > 0 {
            lemma_pow2_adds(a as nat, b as nat);
        }
        assert(scale(a + b) == scale(a) * scale(b));
        assert(scale(a + b) * (1 * 1) == scale(a + b) * 1);
    } else if a < 0 && b < 0 {
        lemma_pow2_adds((-a) as nat, (-b) as nat);
        assert(scale(-(a + b)) == scale(-a) * scale(-b));
        assert(1 * (scale(-a) * scale(-b)) == (1 * 1) * scale(-(a + b)));
    } else if a >= 0 {
        if a + b >= 0 {
            lemma_pow2_adds((a + b) as nat, (-b) as nat);
            if a > 0 && a + b > 0 {
                assert(scale(a) == scale(a + b) * scale(-b));
            } else {
                lemma2_to64();
                assert(scale(a) == scale(a + b) * scale(-b));
            }
            assert(scale(a + b) * (1 * scale(-b)) == (scale(a) * 1) * 1);
        } else {
            lemma_pow2_adds(a as nat, (-(a + b)) as nat);
            if a == 0 {
                lemma2_to64();
            }
            assert(scale(-b) == scale(a) * scale(-(a + b)));
            assert(1 * (1 * scale(-b)) == (scale(a) * 1) * scale(-(a + b)));
        }
    } else {
        if a + b >= 0 {
            lemma_pow2_adds((a + b) as nat, (-a) as nat);
            lemma2_to64();
            assert(scale(b) == scale(a + b) * scale(-a));
            assert(scale(a + b) * (scale(-a) * 1) == (1 * scale(b)) * 1);
        } else {
            lemma_pow2_adds(b as nat, (-(a + b)) as nat);
            if b == 0 {
                lemma2_to64();
            }
            assert(scale(-a) == scale(b) * scale(-(a + b)));
            assert(1 * (scale(-a) * 1) == (1 * scale(b)) * scale(-(a + b)));
        }
    }
}

/// Nearness depends on the ratio alone.
proof fn lemma_near_same_ratio(p: nat, w: int, x: int, y: int, x1: int, y1: int, n: int, d: int)
    requires
        near(p, w, x, y, n, d),
        y > 0,
        y1 > 0,
        x * y1 == x1 * y,
    ensures
        near(p, w, x1, y1, n, d),
{
    let t = pow2(p) as int;
    let lhs = t * (x * d - n * y);
    let rhs = w * (n * y);
    let lhs1 = t * (x1 * d - n * y1);
    let rhs1 = w * (n * y1);
    let u = x * d - n * y;
    let u1 = x1 * d - n * y1;
    assert(u * y1 == d * (x * y1) - n * y * y1) by (nonlinear_arith)
        requires
            u == x * d - n * y,
    ;
    assert(u1 * y == d * (x1 * y) - n * y * y1) by (nonlinear_arith)
        requires
            u1 == x1 * d - n * y1,
    ;
    assert((t * u) * y1 == t * (u * y1)) by (nonlinear_arith);
    assert((t * u1) * y == t * (u1 * y)) by (nonlinear_arith);
    assert(rhs * y1 == rhs1 * y) by (nonlinear_arith)
        requires
            rhs == w * (n * y),
            rhs1 == w * (n * y1),
    ;
    assert(-(rhs * y1) <= lhs * y1 <= rhs * y1) by (nonlinear_arith)
        requires
            -rhs <= lhs <= rhs,
            y1 > 0,
    ;
    assert(-rhs1 <= lhs1 <= rhs1) by (nonlinear_arith)
        requires
            -(rhs1 * y) <= lhs1 * y <= rhs1 * y,
            y > 0,
    ;
}

/// The same for the ratio that is approximated.
proof fn lemma_near_same_target(p: nat, w: int, x: int, y: int, n: int, d: int, n1: int, d1: int)
    requires
        near(p, w, x, y, n, d),
        d > 0,
        d1 > 0,
        n * d1 == n1 * d,
    ensures
        near(p, w, x, y, n1, d1),
{
    let t = pow2(p) as int;
    let lhs = t * (x * d - n * y);
    let rhs = w * (n * y);
    let lhs1 = t * (x * d1 - n1 * y);
    let rhs1 = w * (n1 * y);
    let u = x * d - n * y;
    let u1 = x * d1 - n1 * y;
    assert(u * d1 == x * d * d1 - y * (n * d1)) by (nonlinear_arith)
        requires
            u == x * d - n * y,
    ;
    assert(u1 * d == x * d * d1 - y * (n1 * d)) by (nonlinear_arith)
        requires
            u1 == x * d1 - n1 * y,
    ;
    assert((t * u) * d1 == t * (u * d1)) by (nonlinear_arith);
    assert((t * u1) * d == t * (u1 * d)) by (nonlinear_arith);
    assert(rhs * d1 == rhs1 * d) by (nonlinear_arith)
        requires
            rhs == w * (n * y),
            rhs1 == w * (n1 * y),
            n * d1 == n1 * d,
    ;
    assert(-(rhs * d1) <= lhs * d1 <= rhs * d1) by (nonlinear_arith)
        requires
            -rhs <= lhs <= rhs,
            d1 > 0,
    ;
    assert(-rhs1 <= lhs1 <= rhs1) by (nonlinear_arith)
        requires
            -(rhs1 * d) <= lhs1 * d <= rhs1 * d,
            d > 0,
    ;
}

/// Errors of successive roundings add up, with a little room for their product.
proof fn lemma_near_compose(p: nat, w: int, x2: int, y2: int, x1: int, y1: int, n: int, d: int)
    requires
        near(p, w, x1, y1, n, d),
        near(p, 1, x2, y2, x1, y1),
        0 <= w <= pow2(p),
        x1 >= 0,
        n >= 0,
        y1 > 0,
        y2 > 0,
        d > 0,
    ensures
        near(p, w + 2, x2, y2, n, d),
{
    let t = pow2(p) as int;
    lemma_pow2_pos(p);
    let a = x2 * y1 - x1 * y2;
    let b = x1 * d - n * y1;
    let c = x2 * d - n * y2;
    assert(c * y1 == a * d + b * y2) by (nonlinear_arith)
        requires
            a == x2 * y1 - x1 * y2,
            b == x1 * d - n * y1,
            c == x2 * d - n * y2,
    ;
    let ny1 = n * y1;
    assert(ny1 >= 0) by (nonlinear_arith)
        requires
            n >= 0,
            y1 > 0,
            ny1 == n * y1,
    ;
    assert(x1 * d <= 2 * ny1) by (nonlinear_arith)
        requires
            t * b <= w * ny1,
            w <= t,
            t > 0,
            ny1 >= 0,
            b == x1 * d - ny1,
    ;
    let x1y2 = x1 * y2;
    assert(-(x1y2 * d) <= (t * a) * d <= x1y2 * d) by (nonlinear_arith)
        requires
            -x1y2 <= t * a <= x1y2,
            d > 0,
    ;
    assert(x1y2 * d <= 2 * (ny1 * y2)) by (nonlinear_arith)
        requires
            x1y2 == x1 * y2,
            x1 * d <= 2 * ny1,
            y2 > 0,
    ;
    assert(-((w * ny1) * y2) <= (t * b) * y2 <= (w * ny1) * y2) by (nonlinear_arith)
        requires
            -(w * ny1) <= t * b <= w * ny1,
            y2 > 0,
    ;
    let cy = c * y1;
    let ad = a * d;
    let bz = b * y2;
    assert((t * c) * y1 == t * cy) by (nonlinear_arith)
        requires
            cy == c * y1,
    ;
    assert((t * a) * d == t * ad) by (nonlinear_arith)
        requires
            ad == a * d,
    ;
    assert((t * b) * y2 == t * bz) by (nonlinear_arith)
        requires
            bz == b * y2,
    ;
    assert(t * cy == t * ad + t * bz) by (nonlinear_arith)
        requires
            cy == ad + bz,
    ;
    let bound = (w + 2) * (n * y2);
    assert(bound * y1 == 2 * (ny1 * y2) + (w * ny1) * y2) by (nonlinear_arith)
        requires
            bound == (w + 2) * (n * y2),
            ny1 == n * y1,
    ;
    assert(-bound <= t * c <= bound) by (nonlinear_arith)
        requires
            -(bound * y1) <= (t * c) * y1 <= bound * y1,
            y1 > 0,
    ;
}

/// An integer below `2^p` is represented exactly.
pub proof fn lemma_int_exact(p: nat, v: int)
    requires
        p > 0,
        0 < v < pow2(p),
    ensures
        ({
            let r = int_to_float(p, v);
            r.1 <= 0 && r.0 == v * scale(-r.1) && r.0 > 0
        }),
{
    lemma2_to64();
    assert(v * 1 == v);
    lemma_int_exact_below(p, v, v, 0);
}

proof fn lemma_int_exact_below(p: nat, v: int, n: int, k: nat)
    requires
        p > 0,
        0 < n < pow2(p),
        n == v * pow2(k),
    ensures
        ({
            let r = round_below(p, n, 1);
            r.1 <= 0 && r.0 == n * scale(-r.1) && r.0 > 0
        }),
    decreases 2 * pow2((p - 1) as nat) - n,
{
    lemma_pow2_unfold(p);
    lemma_pow2_pos((p - 1) as nat);
    let half = pow2((p - 1) as nat) as int;
    assert(1 * half == half);
    if n < half {
        lemma_pow2_unfold((k + 1) as nat);
        assert(2 * n == v * (2 * pow2(k))) by (nonlinear_arith)
            requires
                n == v * pow2(k),
        ;
        lemma_int_exact_below(p, v, 2 * n, (k + 1) as nat);
        let r = round_below(p, 2 * n, 1);
        lemma2_to64();
        if r.1 < 0 {
            lemma_pow2_unfold((1 - r.1) as nat);
        }
        assert(scale(1 - r.1) == 2 * scale(-r.1));
        assert(2 * n * scale(-r.1) == n * scale(1 - r.1)) by (nonlinear_arith)
            requires
                scale(1 - r.1) == 2 * scale(-r.1),
        ;
    } else {
        assert(n / 1 == n && n % 1 == 0);
    }
}

/// Shifting the exponent multiplies both sides.
proof fn lemma_near_shift(p: nat, w: int, a: (int, int), n: int, d: int, s: int)
    requires
        near(p, w, num(a), den(a), n, d),
        d > 0,
    ensures
        near(p, w, num((a.0, a.1 + s)), den((a.0, a.1 + s)), n * scale(s), d * scale(-s)),
{
    let b = (a.0, a.1 + s);
    lemma_scale_pos(a.1);
    lemma_scale_pos(-a.1);
    lemma_scale_pos(s);
    lemma_scale_pos(-s);
    lemma_scale_pos(a.1 + s);
    lemma_scale_pos(-(a.1 + s));
    lemma_scale_adds(a.1, s);
    let t = pow2(p) as int;
    let sa = scale(a.1);
    let na = scale(-a.1);
    let ss = scale(s);
    let ns = scale(-s);
    let sb = scale(a.1 + s);
    let nb = scale(-(a.1 + s));
    let v = a.0 * sa;
    let x1 = v * ss;
    let y1 = na * ns;
    let f = ss * ns;
    assert(near(p, w, x1, y1, n * ss, d * ns)) by {
        let lhs = t * (v * d - n * na);
        let lhs1 = t * (x1 * (d * ns) - (n * ss) * y1);
        assert(x1 * (d * ns) == (v * d) * f) by (nonlinear_arith)
            requires
                x1 == v * ss,
                f == ss * ns,
        ;
        assert((n * ss) * y1 == (n * na) * f) by (nonlinear_arith)
            requires
                y1 == na * ns,
                f == ss * ns,
        ;
        assert(lhs1 == lhs * f) by (nonlinear_arith)
            requires
                lhs == t * (v * d - n * na),
                lhs1 == t * ((v * d) * f - (n * na) * f),
        ;
        let r = w * (n * na);
        assert(w * ((n * na) * f) == r * f) by (nonlinear_arith)
            requires
                r == w * (n * na),
        ;
        assert(f > 0) by (nonlinear_arith)
            requires
                f == ss * ns,
                ss > 0,
                ns > 0,
        ;
        assert(-(r * f) <= lhs * f <= r * f) by (nonlinear_arith)
            requires
                -r <= lhs <= r,
                f > 0,
        ;
    }
    assert(y1 > 0) by (nonlinear_arith)
        requires
            y1 == na * ns,
            na > 0,
            ns > 0,
    ;
    assert(x1 * nb == (a.0 * sb) * y1) by (nonlinear_arith)
        requires
            x1 == (a.0 * sa) * ss,
            y1 == na * ns,
            sb * (na * ns) == (sa * ss) * nb,
    ;
    lemma_near_same_ratio(p, w, x1, y1, num(b), den(b), n * ss, d * ns);
}

proof fn lemma_close_is_near(p: nat, a: (int, int), n: int, d: int)
    requires
        close(p, a, n, d),
    ensures
        near(p, 1, num(a), den(a), n, d),
{
    assert(1 * (n * den(a)) == n * den(a));
}

/// When `n / d` has at most `p` significant bits, rounding returns it exactly.
proof fn lemma_round_exact(p: nat, n: int, d: int, c: int, j: nat)
    requires
        p > 0,
        n > 0,
        d > 0,
        n < d * pow2(p),
        0 < c < pow2(p),
        n * pow2(j) == c * d,
    ensures
        ({
            let r = round_below(p, n, d);
            num(r) * d == n * den(r)
        }),
    decreases 2 * (d * pow2((p - 1) as nat)) - n,
{
    lemma_pow2_unfold(p);
    lemma_pow2_pos((p - 1) as nat);
    lemma2_to64();
    let half = pow2((p - 1) as nat) as int;
    assert(d * (2 * half) == 2 * (d * half)) by (nonlinear_arith);
    if n < d * half {
        if j > 0 {
            lemma_pow2_unfold(j);
            let q = pow2((j - 1) as nat) as int;
            assert((2 * n) * q == c * d) by (nonlinear_arith)
                requires
                    n * (2 * q) == c * d,
            ;
            lemma_round_exact(p, 2 * n, d, c, (j - 1) as nat);
        } else {
            assert(n * 1 == n);
            assert(c < half) by (nonlinear_arith)
                requires
                    c * d < d * half,
                    d > 0,
            ;
            assert((2 * n) * 1 == (2 * c) * d) by (nonlinear_arith)
                requires
                    n == c * d,
            ;
            lemma_round_exact(p, 2 * n, d, 2 * c, 0);
        }
        let r = round_below(p, 2 * n, d);
        lemma_scale_pos(r.1);
        lemma_scale_pos(-r.1);
        let e = r.1 - 1;
        if r.1 <= 0 {
            if r.1 < 0 {
                lemma_pow2_unfold((1 - r.1) as nat);
            }
            assert(scale(-e) == 2 * scale(-r.1));
            assert(r.0 * 1 * d == n * scale(-e)) by (nonlinear_arith)
                requires
                    r.0 * 1 * d == (2 * n) * scale(-r.1),
                    scale(-e) == 2 * scale(-r.1),
            ;
        } else {
            lemma_pow2_unfold(r.1 as nat);
            assert(scale(r.1) == 2 * scale(e));
            assert(r.0 * scale(e) * d == n * 1) by (nonlinear_arith)
                requires
                    r.0 * scale(r.1) * d == (2 * n) * 1,
                    scale(r.1) == 2 * scale(e),
            ;
        }
    } else {
        if j > 0 {
            lemma_pow2_unfold(j);
            lemma_pow2_pos((j - 1) as nat);
            let w = pow2(j) as int;
            assert(false) by (nonlinear_arith)
                requires
                    d * half <= n,
                    n * w == c * d,
                    w >= 2,
                    c < 2 * half,
                    d > 0,
                    half > 0,
            ;
        }
        assert(n * 1 == n);
        assert(n / d == c && n % d == 0) by (nonlinear_arith)
            requires
                n == c * d,
                d > 0,
        ;
        assert(c * 1 * d == n * 1);
    }
}

/// The quotient of two exactly represented integers, seen through its mantissas.
proof fn lemma_div_target(p: nat, w: int, a: int, b: int)
    requires
        p > 0,
        0 < a < pow2(p),
        0 < b < pow2(p),
        ({
            let x = int_to_float(p, a);
            let y = int_to_float(p, b);
            let r0 = round_ratio(p, x.0, y.0);
            near(p, w, num(r0), den(r0), x.0, y.0)
        }),
    ensures
        ({
            let r = float_div(p, int_to_float(p, a), int_to_float(p, b));
            r.0 > 0 && near(p, w, num(r), den(r), a, b)
        }),
{
    reveal(float_mul);
    reveal(float_div);
    lemma_int_exact(p, a);
    lemma_int_exact(p, b);
    let x = int_to_float(p, a);
    let y = int_to_float(p, b);
    lemma_round_positive(p, x.0, y.0);
    let r0 = round_ratio(p, x.0, y.0);
    let s = x.1 - y.1;
    lemma_near_shift(p, w, r0, x.0, y.0, s);
    lemma_scale_adds(x.1, -y.1);
    lemma_scale_pos(s);
    lemma_scale_pos(-s);
    lemma_scale_pos(-x.1);
    lemma_scale_pos(-y.1);
    lemma_scale_pos(x.1);
    lemma_scale_pos(y.1);
    let sx = scale(-x.1);
    let sy = scale(-y.1);
    assert(scale(s) * (sx * 1) == (1 * sy) * scale(-s)) by {
        assert(scale(x.1) == 1);
        assert(scale(y.1) == 1);
        assert(-(-y.1) == y.1);
        assert(x.1 + (-y.1) == s);
    }
    let n1 = x.0 * scale(s);
    let d1 = y.0 * scale(-s);
    assert(n1 * b == a * d1) by (nonlinear_arith)
        requires
            n1 == (a * sx) * scale(s),
            d1 == (b * sy) * scale(-s),
            scale(s) * (sx * 1) == (1 * sy) * scale(-s),
    ;
    assert(d1 > 0) by (nonlinear_arith)
        requires
            d1 == y.0 * scale(-s),
            y.0 > 0,
            scale(-s) > 0,
    ;
    let r = float_div(p, x, y);
    assert(r == (r0.0, r0.1 + s));
    lemma_near_same_target(p, w, num(r), den(r), n1, d1, a, b);
}

/// The quotient of two integers below `2^p` is within one part in `2^p`.
pub proof fn lemma_div_near(p: nat, a: int, b: int)
    requires
        p > 0,
        0 < a < pow2(p),
        0 < b < pow2(p),
    ensures
        ({
            let r = float_div(p, int_to_float(p, a), int_to_float(p, b));
            r.0 > 0 && near(p, 1, num(r), den(r), a, b)
        }),
{
    lemma_int_exact(p, a);
    lemma_int_exact(p, b);
    let x = int_to_float(p, a);
    let y = int_to_float(p, b);
    lemma_round_ratio_close(p, x.0, y.0);
    lemma_close_is_near(p, round_ratio(p, x.0, y.0), x.0, y.0);
    lemma_div_target(p, 1, a, b);
}

/// A quotient that is half an odd integer is exact.
proof fn lemma_div_half(p: nat, a: int, b: int, c: int)
    requires
        p > 0,
        0 < a < pow2(p),
        0 < b < pow2(p),
        0 < c < pow2(p),
        2 * a == c * b,
    ensures
        ({
            let r = float_div(p, int_to_float(p, a), int_to_float(p, b));
            2 * num(r) == c * den(r)
        }),
{
    lemma_int_exact(p, a);
    lemma_int_exact(p, b);
    let x = int_to_float(p, a);
    let y = int_to_float(p, b);
    lemma_int_canonical(p, a);
    lemma_int_canonical(p, b);
    lemma_pow2_unfold(p);
    lemma_pow2_pos((p - 1) as nat);
    lemma2_to64();
    let n = x.0;
    let d = y.0;
    let k = (-x.1) as nat;
    let l = (-y.1) as nat;
    assert(n == a * pow2(k));
    assert(d == b * pow2(l));
    assert(n < d * pow2(p)) by (nonlinear_arith)
        requires
            n < pow2(p),
            d >= 1,
    ;
    if k > l {
        let t = (k - l - 1) as nat;
        lemma_pow2_adds(t, (l + 1) as nat);
        lemma_pow2_unfold((l + 1) as nat);
        lemma_pow2_pos(t);
        let c1 = c * pow2(t);
        let pl = pow2(l) as int;
        let pt = pow2(t) as int;
        assert(n * 1 == c1 * d) by (nonlinear_arith)
            requires
                n == a * (pt * (2 * pl)),
                c1 == c * pt,
                d == b * pl,
                2 * a == c * b,
        ;
        assert(c1 > 0) by (nonlinear_arith)
            requires
                c1 == c * pt,
                c > 0,
                pt > 0,
        ;
        assert(c1 < pow2(p)) by (nonlinear_arith)
            requires
                n == c1 * d,
                n < pow2(p),
                d >= 1,
                c1 > 0,
        ;
        lemma_round_exact(p, n, d, c1, 0);
    } else {
        let j = (l + 1 - k) as nat;
        lemma_pow2_adds(k, j);
        lemma_pow2_unfold((l + 1) as nat);
        let pl = pow2(l) as int;
        let pk = pow2(k) as int;
        let pj = pow2(j) as int;
        assert(n * pj == c * d) by (nonlinear_arith)
            requires
                n == a * pk,
                pk * pj == 2 * pl,
                d == b * pl,
                2 * a == c * b,
        ;
        lemma_round_exact(p, n, d, c, j);
    }
    let r0 = round_ratio(p, n, d);
    assert(r0 == round_below(p, n, d));
    assert(near(p, 0, num(r0), den(r0), n, d)) by {
        assert(0 * (n * den(r0)) == 0);
        assert(pow2(p) * 0 == 0);
    }
    lemma_div_target(p, 0, a, b);
    let r = float_div(p, x, y);
    let t = pow2(p) as int;
    let u = num(r) * b - a * den(r);
    assert(0 * (a * den(r)) == 0);
    assert(u == 0) by (nonlinear_arith)
        requires
            t * u == 0,
            t > 0,
    ;
    assert((2 * num(r)) * b == (c * den(r)) * b) by (nonlinear_arith)
        requires
            num(r) * b == a * den(r),
            2 * a == c * b,
    ;
    assert(2 * num(r) == c * den(r)) by (nonlinear_arith)
        requires
            (2 * num(r)) * b == (c * den(r)) * b,
            b > 0,
    ;
}

/// The mantissa of an integer has exactly `p` bits.
proof fn lemma_int_canonical(p: nat, v: int)
    requires
        p > 0,
        0 < v < pow2(p),
    ensures
        pow2((p - 1) as nat) <= int_to_float(p, v).0 < pow2(p),
{
    lemma_pow2_unfold(p);
    assert(v < 1 * pow2(p));
    crate::float::lemma_round_below_canonical(p, v, 1);
}

/// The nearest integer to a floating-point quotient is the nearest integer to the quotient itself,
/// as long as the dividend has a bit to spare.
pub proof fn lemma_div_round(p: nat, a: int, b: int)
    requires
        p > 0,
        0 < a,
        2 * a < pow2(p),
        0 < b < pow2(p),
    ensures
        float_round(float_div(p, int_to_float(p, a), int_to_float(p, b))) == (2 * a + b) / (2 * b),
{
    lemma_div_near(p, a, b);
    lemma_pow2_pos(p);
    let r = float_div(p, int_to_float(p, a), int_to_float(p, b));
    lemma_scale_pos(-r.1);
    lemma_scale_pos(r.1);
    let x = num(r);
    let y = den(r);
    let t = pow2(p) as int;
    let n = (2 * a + b) / (2 * b);
    assert((2 * n - 1) * b <= 2 * a < (2 * n + 1) * b && n >= 0) by (nonlinear_arith)
        requires
            n == (2 * a + b) / (2 * b),
            a > 0,
            b > 0,
    ;
    let u = x * b - a * y;
    assert(1 * (a * y) == a * y);
    assert(2 * u < y && -y < 2 * u) by (nonlinear_arith)
        requires
            -(a * y) <= t * u <= a * y,
            2 * a < t,
            y > 0,
            t > 0,
            a > 0,
    ;
    // 2 * x * b == 2 * a * y + 2 * u
    let k = 2 * n + 1;
    assert(2 * x < k * y) by (nonlinear_arith)
        requires
            u == x * b - a * y,
            2 * u < y,
            2 * a + 1 <= k * b,
            y > 0,
            b > 0,
    ;
    let j = 2 * n - 1;
    if 2 * a == j * b {
        assert(0 < j) by (nonlinear_arith)
            requires
                2 * a == j * b,
                a > 0,
                b > 0,
        ;
        assert(j < t) by (nonlinear_arith)
            requires
                2 * a == j * b,
                2 * a < t,
                b >= 1,
                j > 0,
        ;
        lemma_div_half(p, a, b, j);
    } else {
        assert(j * y <= 2 * x) by (nonlinear_arith)
            requires
                u == x * b - a * y,
                -y < 2 * u,
                2 * a >= j * b + 1,
                y > 0,
                b > 0,
        ;
    }
    assert((2 * x + y) / (2 * y) == n) by (nonlinear_arith)
        requires
            j * y <= 2 * x < k * y,
            j == 2 * n - 1,
            k == 2 * n + 1,
            y > 0,
    ;
    assert(2 * r.0 * scale(r.1) == 2 * x) by (nonlinear_arith)
        requires
            x == r.0 * scale(r.1),
    ;
}

/// A rounded positive quotient is positive.
pub proof fn lemma_round_positive(p: nat, n: int, d: int)
    requires
        p > 0,
        n > 0,
        d > 0,
    ensures
        round_ratio(p, n, d).0 > 0,
{
    lemma_round_ratio_close(p, n, d);
    let r = round_ratio(p, n, d);
    lemma_scale_pos(r.1);
    lemma_scale_pos(-r.1);
    lemma_pow2_pos(p);
    lemma_pow2_unfold(p);
    lemma_pow2_pos((p - 1) as nat);
    let x = r.0 * scale(r.1) * d;
    let y = n * scale(-r.1);
    let t = pow2(p) as int;
    assert(y > 0) by (nonlinear_arith)
        requires
            y == n * scale(-r.1),
            n > 0,
            scale(-r.1) > 0,
    ;
    assert(x > 0) by (nonlinear_arith)
        requires
            -y <= t * (x - y),
            t >= 2,
            y > 0,
    ;
    assert(r.0 > 0) by (nonlinear_arith)
        requires
            x == r.0 * scale(r.1) * d,
            x > 0,
            d > 0,
            scale(r.1) > 0,
    ;
}

/// Multiplying an approximation of `n / d` by an integer below `2^p`.
pub proof fn lemma_mul_near(p: nat, w: int, c: int, a: (int, int), n: int, d: int)
    requires
        p > 0,
        0 <= w <= pow2(p),
        0 < c < pow2(p),
        a.0 > 0,
        n >= 0,
        d > 0,
        near(p, w, num(a), den(a), n, d),
    ensures
        ({
            let r = float_mul(p, int_to_float(p, c), a);
            r.0 > 0 && near(p, w + 2, num(r), den(r), c * n, d)
        }),
{
    reveal(float_mul);
    reveal(float_div);
    lemma_int_exact(p, c);
    let x = int_to_float(p, c);
    let prod = x.0 * a.0;
    assert(prod > 0) by (nonlinear_arith)
        requires
            prod == x.0 * a.0,
            x.0 > 0,
            a.0 > 0,
    ;
    lemma_round_ratio_close(p, prod, 1);
    lemma_round_positive(p, prod, 1);
    let r0 = round_ratio(p, prod, 1);
    let s = x.1 + a.1;
    lemma_close_is_near(p, r0, prod, 1);
    lemma_near_shift(p, 1, r0, prod, 1, s);
    let r = float_mul(p, x, a);
    assert(r == (r0.0, r0.1 + s));
    lemma_scale_adds(x.1, a.1);
    lemma_scale_pos(s);
    lemma_scale_pos(-s);
    lemma_scale_pos(x.1);
    lemma_scale_pos(-x.1);
    lemma_scale_pos(a.1);
    lemma_scale_pos(-a.1);
    lemma_scale_pos(r.1);
    lemma_scale_pos(-r.1);
    let sx = scale(-x.1);
    let n1 = prod * scale(s);
    let d1 = 1 * scale(-s);
    let n2 = c * num(a);
    let d2 = den(a);
    assert(scale(x.1) == 1);
    assert(n1 * d2 == n2 * d1) by (nonlinear_arith)
        requires
            n1 == ((c * sx) * a.0) * scale(s),
            d1 == 1 * scale(-s),
            n2 == c * (a.0 * scale(a.1)),
            d2 == scale(-a.1),
            scale(s) * (sx * scale(-a.1)) == (1 * scale(a.1)) * scale(-s),
    ;
    lemma_near_same_target(p, 1, num(r), den(r), n1, d1, n2, d2);
    assert(n2 >= 0) by (nonlinear_arith)
        requires
            n2 == c * (a.0 * scale(a.1)),
            c > 0,
            a.0 > 0,
            scale(a.1) > 0,
    ;
    let t = pow2(p) as int;
    assert(near(p, w, n2, d2, c * n, d)) by {
        let lhs = t * (num(a) * d - n * den(a));
        let rhs = w * (n * den(a));
        let na = num(a);
        assert(n2 * d == c * (na * d)) by (nonlinear_arith)
            requires
                n2 == c * na,
        ;
        assert((c * n) * d2 == c * (n * d2)) by (nonlinear_arith);
        let u = na * d;
        let v = n * d2;
        assert(t * (c * u - c * v) == c * (t * (u - v))) by (nonlinear_arith);
        assert(w * ((c * n) * d2) == c * rhs) by (nonlinear_arith)
            requires
                rhs == w * (n * den(a)),
                d2 == den(a),
        ;
        assert(-(c * rhs) <= c * lhs <= c * rhs) by (nonlinear_arith)
            requires
                -rhs <= lhs <= rhs,
                c > 0,
        ;
    }
    assert(c * n >= 0) by (nonlinear_arith)
        requires
            c > 0,
            n >= 0,
    ;
    lemma_near_compose(p, w, num(r), den(r), n2, d2, c * n, d);
}

/// Dividing an approximation of `n / d` by an integer below `2^p`.
pub proof fn lemma_quotient_near(p: nat, w: int, a: (int, int), n: int, d: int, b: int)
    requires
        p > 0,
        0 <= w <= pow2(p),
        0 < b < pow2(p),
        a.0 > 0,
        n >= 0,
        d > 0,
        near(p, w, num(a), den(a), n, d),
    ensures
        ({
            let r = float_div(p, a, int_to_float(p, b));
            r.0 > 0 && near(p, w + 2, num(r), den(r), n, d * b)
        }),
{
    reveal(float_mul);
    reveal(float_div);
    lemma_int_exact(p, b);
    let y = int_to_float(p, b);
    lemma_round_ratio_close(p, a.0, y.0);
    lemma_round_positive(p, a.0, y.0);
    let r0 = round_ratio(p, a.0, y.0);
    lemma_close_is_near(p, r0, a.0, y.0);
    let l = -y.1;
    let s = a.1 - y.1;
    assert(s == a.1 + l);
    lemma_near_shift(p, 1, r0, a.0, y.0, s);
    let r = float_div(p, a, y);
    assert(r == (r0.0, r0.1 + s));
    lemma_scale_adds(a.1, l);
    lemma_scale_pos(a.1);
    lemma_scale_pos(-a.1);
    lemma_scale_pos(l);
    lemma_scale_pos(-l);
    lemma_scale_pos(s);
    lemma_scale_pos(-s);
    lemma_scale_pos(-r.1);
    let sl = scale(l);
    let n1 = a.0 * scale(s);
    let d1 = y.0 * scale(-s);
    let x2 = num(a);
    let y2 = den(a) * b;
    let sa = scale(a.1);
    let na = scale(-a.1);
    let ss = scale(s);
    let ns = scale(-s);
    assert(ss * (na * 1) == (sa * sl) * ns);
    let a0 = a.0;
    let u = (sa * sl) * ns;
    assert(n1 * y2 == (a0 * b) * u) by (nonlinear_arith)
        requires
            n1 == a0 * ss,
            y2 == na * b,
            ss * (na * 1) == u,
    ;
    assert(x2 * d1 == (a0 * b) * u) by (nonlinear_arith)
        requires
            x2 == a0 * sa,
            d1 == (b * sl) * ns,
            u == (sa * sl) * ns,
    ;
    assert(d1 > 0) by (nonlinear_arith)
        requires
            d1 == y.0 * ns,
            y.0 > 0,
            ns > 0,
    ;
    assert(y2 > 0) by (nonlinear_arith)
        requires
            y2 == na * b,
            na > 0,
            b > 0,
    ;
    lemma_near_same_target(p, 1, num(r), den(r), n1, d1, x2, y2);
    let t = pow2(p) as int;
    assert(near(p, w, x2, y2, n, d * b)) by {
        let u = x2 * d;
        let v = n * na;
        assert(x2 * (d * b) == u * b) by (nonlinear_arith)
            requires
                u == x2 * d,
        ;
        assert(n * y2 == v * b) by (nonlinear_arith)
            requires
                v == n * na,
                y2 == na * b,
        ;
        let lhs = t * (u - v);
        let rhs = w * v;
        assert(t * (u * b - v * b) == lhs * b) by (nonlinear_arith)
            requires
                lhs == t * (u - v),
        ;
        assert(w * (v * b) == rhs * b) by (nonlinear_arith)
            requires
                rhs == w * v,
        ;
        assert(-(rhs * b) <= lhs * b <= rhs * b) by (nonlinear_arith)
            requires
                -rhs <= lhs <= rhs,
                b > 0,
        ;
    }
    assert(x2 >= 0) by (nonlinear_arith)
        requires
            x2 == a.0 * sa,
            a.0 > 0,
            sa > 0,
    ;
    assert(d * b > 0) by (nonlinear_arith)
        requires
            d > 0,
            b > 0,
    ;
    lemma_near_compose(p, w, num(r), den(r), x2, y2, n, d * b);
}

/// Every positive integer is represented within one part in `2^p`.
pub proof fn lemma_int_near(p: nat, v: int)
    requires
        p > 0,
        v > 0,
    ensures
        int_to_float(p, v).0 > 0,
        near(p, 1, num(int_to_float(p, v)), den(int_to_float(p, v)), v, 1),
{
    lemma_round_ratio_close(p, v, 1);
    lemma_round_positive(p, v, 1);
    lemma_close_is_near(p, round_ratio(p, v, 1), v, 1);
}

/// A common factor of two does not matter.
proof fn lemma_round_below_double(p: nat, n: int, d: int)
    requires
        p > 0,
        n > 0,
        d > 0,
    ensures
        round_below(p, 2 * n, 2 * d) == round_below(p, n, d),
    decreases 2 * (d * pow2((p - 1) as nat)) - n,
{
    lemma_pow2_pos((p - 1) as nat);
    let half = pow2((p - 1) as nat) as int;
    assert((2 * d) * half == 2 * (d * half)) by (nonlinear_arith);
    if n < d * half {
        lemma_round_below_double(p, 2 * n, d);
    } else {
        assert((2 * n) / (2 * d) == n / d && (2 * n) % (2 * d) == 2 * (n % d)) by (nonlinear_arith)
            requires
                n > 0,
                d > 0,
        ;
        assert(nearest_even(2 * n, 2 * d) == nearest_even(n, d));
    }
}

proof fn lemma_round_ratio_double(p: nat, n: int, d: int)
    requires
        p > 0,
        n > 0,
        d > 0,
    ensures
        round_ratio(p, 2 * n, 2 * d) == round_ratio(p, n, d),
    decreases n - d,
{
    lemma_pow2_unfold(p);
    lemma_pow2_pos((p - 1) as nat);
    let t = pow2(p) as int;
    assert((2 * d) * t == 2 * (d * t)) by (nonlinear_arith);
    if n >= d * t {
        assert(d * t >= 2 * d) by (nonlinear_arith)
            requires
                d > 0,
                t >= 2,
        ;
        lemma_round_ratio_double(p, n, 2 * d);
    } else {
        lemma_round_below_double(p, n, d);
    }
}

/// Doubling an integer raises the exponent of its rounding by one.
proof fn lemma_round_twice(p: nat, n: int)
    requires
        p > 0,
        n > 0,
    ensures
        round_ratio(p, 2 * n, 1) == (round_ratio(p, n, 1).0, round_ratio(p, n, 1).1 + 1),
{
    lemma_pow2_unfold(p);
    lemma_pow2_pos((p - 1) as nat);
    let t = pow2(p) as int;
    let half = pow2((p - 1) as nat) as int;
    assert(1 * t == t && 1 * half == half);
    if 2 * n >= t {
        lemma_round_ratio_double(p, n, 1);
        assert(round_ratio(p, 2 * n, 2) == round_ratio(p, n, 1));
    } else {
        assert(round_below(p, n, 1) == (round_below(p, 2 * n, 1).0, round_below(p, 2 * n, 1).1 - 1));
    }
}

proof fn lemma_round_shifted(p: nat, n: int, k: nat)
    requires
        p > 0,
        n > 0,
    ensures
        round_ratio(p, n * pow2(k), 1) == (round_ratio(p, n, 1).0, round_ratio(p, n, 1).1 + k),
    decreases k,
{
    lemma2_to64();
    if k == 0 {
        assert(n * 1 == n);
    } else {
        lemma_pow2_unfold(k);
        lemma_pow2_pos((k - 1) as nat);
        let m = n * pow2((k - 1) as nat);
        lemma_round_shifted(p, n, (k - 1) as nat);
        assert(n * pow2(k) == 2 * m) by (nonlinear_arith)
            requires
                m == n * pow2((k - 1) as nat),
                pow2(k) == 2 * pow2((k - 1) as nat),
        ;
        assert(m > 0) by (nonlinear_arith)
            requires
                m == n * pow2((k - 1) as nat),
                n > 0,
                pow2((k - 1) as nat) > 0,
        ;
        lemma_round_twice(p, m);
    }
}

/// The product of two exactly represented integers is their integer product, rounded once.
pub proof fn lemma_int_mul(p: nat, a: int, b: int)
    requires
        p > 0,
        0 < a < pow2(p),
        0 < b < pow2(p),
    ensures
        float_mul(p, int_to_float(p, a), int_to_float(p, b)) == int_to_float(p, a * b),
        a * b > 0,
{
    reveal(float_mul);
    reveal(float_div);
    lemma_int_exact(p, a);
    lemma_int_exact(p, b);
    let x = int_to_float(p, a);
    let y = int_to_float(p, b);
    let k = (-x.1) as nat;
    let l = (-y.1) as nat;
    lemma2_to64();
    assert(x.0 == a * pow2(k));
    assert(y.0 == b * pow2(l));
    lemma_pow2_adds(k, l);
    let pk = pow2(k) as int;
    let pl = pow2(l) as int;
    assert(x.0 * y.0 == (a * b) * (pk * pl)) by (nonlinear_arith)
        requires
            x.0 == a * pk,
            y.0 == b * pl,
    ;
    assert(a * b > 0) by (nonlinear_arith)
        requires
            a > 0,
            b > 0,
    ;
    assert(x.0 * y.0 > 0) by (nonlinear_arith)
        requires
            x.0 > 0,
            y.0 > 0,
    ;
    lemma_round_shifted(p, a * b, (k + l) as nat);
}

proof fn lemma_unit_below(p: nat, m: int, j: nat)
    requires
        p > 0,
        m > 0,
        j < p,
    ensures
        round_below(p, m * pow2(j), m) == (pow2((p - 1) as nat) as int, j - (p - 1)),
    decreases p - j,
{
    lemma_pow2_pos(j);
    lemma_pow2_pos((p - 1) as nat);
    lemma_pow2_unfold(p);
    let half = pow2((p - 1) as nat) as int;
    let n = m * pow2(j);
    assert(n > 0) by (nonlinear_arith)
        requires
            n == m * pow2(j),
            m > 0,
            pow2(j) > 0,
    ;
    if j == p - 1 {
        assert(n / m == half && n % m == 0) by (nonlinear_arith)
            requires
                n == m * half,
                m > 0,
        ;
    } else {
        lemma_unit_below(p, m, (j + 1) as nat);
        lemma_pow2_unfold((j + 1) as nat);
        assert(m * pow2((j + 1) as nat) == 2 * n) by (nonlinear_arith)
            requires
                n == m * pow2(j),
                pow2((j + 1) as nat) == 2 * pow2(j),
        ;
        vstd::arithmetic::power2::lemma_pow2_strictly_increases(j, (p - 1) as nat);
        assert(n < m * half) by (nonlinear_arith)
            requires
                n == m * pow2(j),
                m > 0,
                pow2(j) < half,
        ;
    }
}

/// A number divided by itself is 1.
pub proof fn lemma_unit_quotient(p: nat, a: (int, int))
    requires
        p > 0,
        a.0 > 0,
    ensures
        float_div(p, a, a) == int_to_float(p, 1),
        int_to_float(p, 1) == (pow2((p - 1) as nat) as int, 1 - p),
{
    reveal(float_mul);
    reveal(float_div);
    lemma2_to64();
    lemma_pow2_unfold(p);
    lemma_pow2_pos((p - 1) as nat);
    let t = pow2(p) as int;
    lemma_unit_below(p, a.0, 0);
    lemma_unit_below(p, 1, 0);
    assert(a.0 * 1 == a.0);
    assert(a.0 < a.0 * t) by (nonlinear_arith)
        requires
            a.0 > 0,
            t >= 2,
    ;
    assert(1 * t == t);
}

/// A number is at least 1 where its numerator is at least its denominator.
pub proof fn lemma_at_least_one(p: nat, a: (int, int))
    requires
        p > 0,
        pow2((p - 1) as nat) <= a.0,
    ensures
        float_le(int_to_float(p, 1), a) <==> den(a) <= num(a),
{
    lemma_pow2_pos((p - 1) as nat);
    lemma_unit_quotient(p, a);
    let half = pow2((p - 1) as nat) as int;
    let e = a.1;
    let up = scale(e + (p - 1));
    lemma_scale_pos(e + (p - 1));
    lemma_scale_pos(e);
    lemma2_to64();
    assert(a.0 * up >= half) by (nonlinear_arith)
        requires
            a.0 >= half,
            half > 0,
            up > 0,
    ;
    if e + (p - 1) > 0 {
        assert(half * scale(-(e + (p - 1))) == half) by (nonlinear_arith)
            requires
                scale(-(e + (p - 1))) == 1,
        ;
        assert(scale(1 - p - e) == scale(-(e + (p - 1))));
        if e < 0 {
            assert(num(a) == a.0) by (nonlinear_arith)
                requires
                    num(a) == a.0 * scale(e),
                    scale(e) == 1,
            ;
            vstd::arithmetic::power2::lemma_pow2_strictly_increases((-e) as nat, (p - 1) as nat);
        } else {
            assert(num(a) >= half) by (nonlinear_arith)
                requires
                    num(a) == a.0 * scale(e),
                    a.0 >= half,
                    half > 0,
                    scale(e) > 0,
            ;
        }
    } else {
        let k = (1 - p - e) as nat;
        lemma_pow2_adds(k, (p - 1) as nat);
        assert(scale(-e) == half * scale(1 - p - e)) by (nonlinear_arith)
            requires
                scale(-e) == pow2(k) * half,
                scale(1 - p - e) == pow2(k),
        ;
        assert(num(a) == a.0) by (nonlinear_arith)
            requires
                num(a) == a.0 * scale(e),
                scale(e) == 1,
        ;
        assert(a.0 * up == a.0) by (nonlinear_arith)
            requires
                up == 1,
        ;
    }
}

/// A small integer is represented exactly, whatever its sign.
pub proof fn lemma_int_parts(p: nat, v: int)
    requires
        p > 0,
        -pow2(p) < v < pow2(p),
    ensures
        ({
            let r = int_to_float(p, v);
            &&& r.1 <= 0
            &&& r.0 == v * scale(-r.1)
            &&& r.0 == 0 <==> v == 0
            &&& r.0 < 0 <==> v < 0
        }),
        int_to_float(p, 0) == (0int, 0int),
{
    lemma2_to64();
    lemma_pow2_pos(p);
    let r = int_to_float(p, v);
    if v > 0 {
        lemma_int_exact(p, v);
    } else if v < 0 {
        lemma_int_exact(p, -v);
        let q = int_to_float(p, -v);
        assert((-v) * scale(-q.1) == -(v * scale(-q.1))) by (nonlinear_arith);
    } else {
        assert(0 * scale(-r.1) == 0);
    }
}

pub proof fn lemma_round_signed_shifted(p: nat, n: int, k: nat)
    requires
        p > 0,
        n != 0,
    ensures
        round_signed(p, n * pow2(k), 1) == (round_signed(p, n, 1).0, round_signed(p, n, 1).1 + k),
        n * pow2(k) != 0,
{
    lemma_pow2_pos(k);
    let t = pow2(k) as int;
    if n > 0 {
        lemma_round_shifted(p, n, k);
        assert(n * t > 0) by (nonlinear_arith)
            requires
                n > 0,
                t > 0,
        ;
    } else {
        lemma_round_shifted(p, -n, k);
        assert((-n) * t == -(n * t) && (-n) * t > 0) by (nonlinear_arith)
            requires
                n < 0,
                t > 0,
        ;
    }
}

/// The sum of two exactly represented integers is their integer sum, rounded once.
pub proof fn lemma_int_add(p: nat, a: int, b: int)
    requires
        p > 0,
        -pow2(p) < a < pow2(p),
        -pow2(p) < b < pow2(p),
    ensures
        float_add(p, int_to_float(p, a), int_to_float(p, b)) == int_to_float(p, a + b),
{
    reveal(float_add);
    lemma_int_parts(p, a);
    lemma_int_parts(p, b);
    let x = int_to_float(p, a);
    let y = int_to_float(p, b);
    if a != 0 && b != 0 {
        let lo = if x.1 < y.1 { x.1 } else { y.1 };
        let k = (-lo) as nat;
        lemma_exact_term(x, a, lo);
        lemma_exact_term(y, b, lo);
        let n = x.0 * scale(x.1 - lo) + y.0 * scale(y.1 - lo);
        assert(n == (a + b) * pow2(k)) by (nonlinear_arith)
            requires
                n == a * pow2(k) + b * pow2(k),
        ;
        if a + b != 0 {
            lemma_round_signed_shifted(p, a + b, k);
        } else {
            assert(0 * pow2(k) == 0);
        }
    }
}

proof fn lemma_exact_term(x: (int, int), a: int, lo: int)
    requires
        lo <= x.1 <= 0,
        x.0 == a * scale(-x.1),
    ensures
        x.0 * scale(x.1 - lo) == a * pow2((-lo) as nat),
{
    lemma2_to64();
    lemma_pow2_adds((-x.1) as nat, (x.1 - lo) as nat);
    let s = scale(-x.1);
    let t = scale(x.1 - lo);
    assert(s == pow2((-x.1) as nat));
    assert(t == pow2((x.1 - lo) as nat));
    assert((a * s) * t == a * (s * t)) by (nonlinear_arith);
}

/// The product of two exactly represented integers is their integer product, rounded once, whatever
/// their signs.
pub proof fn lemma_int_product(p: nat, a: int, b: int)
    requires
        p > 0,
        -pow2(p) < a < pow2(p),
        -pow2(p) < b < pow2(p),
    ensures
        float_mul(p, int_to_float(p, a), int_to_float(p, b)) == int_to_float(p, a * b),
{
    reveal(float_mul);
    lemma_int_parts(p, a);
    lemma_int_parts(p, b);
    let x = int_to_float(p, a);
    let y = int_to_float(p, b);
    if a != 0 && b != 0 {
        let k = (-x.1) as nat;
        let l = (-y.1) as nat;
        lemma2_to64();
        lemma_pow2_adds(k, l);
        let pk = pow2(k) as int;
        let pl = pow2(l) as int;
        assert(x.0 * y.0 == (a * b) * (pk * pl)) by (nonlinear_arith)
            requires
                x.0 == a * pk,
                y.0 == b * pl,
        ;
        assert(a * b != 0) by (nonlinear_arith)
            requires
                a != 0,
                b != 0,
        ;
        lemma_round_signed_shifted(p, a * b, (k + l) as nat);
    } else {
        assert(a * b == 0) by (nonlinear_arith)
            requires
                a == 0 || b == 0,
        ;
    }
}

/// A common factor does not matter.
proof fn lemma_round_below_factor(p: nat, n: int, d: int, m: int)
    requires
        p > 0,
        n > 0,
        d > 0,
        m > 0,
    ensures
        round_below(p, m * n, m * d) == round_below(p, n, d),
    decreases 2 * (d * pow2((p - 1) as nat)) - n,
{
    lemma_pow2_pos((p - 1) as nat);
    let half = pow2((p - 1) as nat) as int;
    let dh = d * half;
    assert((m * d) * half == m * dh) by (nonlinear_arith)
        requires
            dh == d * half,
    ;
    assert(m * n > 0 && m * d > 0) by (nonlinear_arith)
        requires
            m > 0,
            n > 0,
            d > 0,
    ;
    assert(n < dh <==> m * n < m * dh) by (nonlinear_arith)
        requires
            m > 0,
    ;
    if n < dh {
        lemma_round_below_factor(p, 2 * n, d, m);
        assert(m * (2 * n) == 2 * (m * n)) by (nonlinear_arith);
    } else {
        let q = n / d;
        let r = n % d;
        assert(n == d * q + r && 0 <= r < d) by (nonlinear_arith)
            requires
                q == n / d,
                r == n % d,
                d > 0,
        ;
        let md = m * d;
        let mr = m * r;
        assert(m * n == md * q + mr) by (nonlinear_arith)
            requires
                n == d * q + r,
                md == m * d,
                mr == m * r,
        ;
        assert(0 <= mr < md) by (nonlinear_arith)
            requires
                md == m * d,
                mr == m * r,
                0 <= r < d,
                m > 0,
        ;
        assert((md * q + mr) / md == q && (md * q + mr) % md == mr) by (nonlinear_arith)
            requires
                0 <= mr < md,
        ;
        assert(2 * r > d <==> 2 * mr > md) by (nonlinear_arith)
            requires
                md == m * d,
                mr == m * r,
                m > 0,
        ;
        assert(2 * r == d <==> 2 * mr == md) by (nonlinear_arith)
            requires
                md == m * d,
                mr == m * r,
                m > 0,
        ;
        assert(nearest_even(m * n, md) == nearest_even(n, d));
    }
}

proof fn lemma_round_ratio_factor(p: nat, n: int, d: int, m: int)
    requires
        p > 0,
        n > 0,
        d > 0,
        m > 0,
    ensures
        round_ratio(p, m * n, m * d) == round_ratio(p, n, d),
    decreases n - d,
{
    lemma_pow2_unfold(p);
    lemma_pow2_pos((p - 1) as nat);
    let t = pow2(p) as int;
    let dt = d * t;
    assert((m * d) * t == m * dt) by (nonlinear_arith)
        requires
            dt == d * t,
    ;
    assert(m * d > 0) by (nonlinear_arith)
        requires
            m > 0,
            d > 0,
    ;
    assert(n >= dt <==> m * n >= m * dt) by (nonlinear_arith)
        requires
            m > 0,
    ;
    if n >= dt {
        assert(dt >= 2 * d) by (nonlinear_arith)
            requires
                dt == d * t,
                d > 0,
                t >= 2,
        ;
        lemma_round_ratio_factor(p, n, 2 * d, m);
        assert(m * (2 * d) == 2 * (m * d)) by (nonlinear_arith);
    } else {
        lemma_round_below_factor(p, n, d, m);
    }
}

/// Doubling the dividend raises the exponent of the quotient by one.
pub proof fn lemma_quotient_twice(p: nat, n: int, d: int)
    requires
        p > 0,
        n > 0,
        d > 0,
    ensures
        round_ratio(p, 2 * n, d) == (round_ratio(p, n, d).0, round_ratio(p, n, d).1 + 1),
{
    lemma_pow2_unfold(p);
    lemma_pow2_pos((p - 1) as nat);
    let t = pow2(p) as int;
    let half = pow2((p - 1) as nat) as int;
    assert(d * t == 2 * (d * half)) by (nonlinear_arith)
        requires
            t == 2 * half,
    ;
    if 2 * n >= d * t {
        lemma_round_ratio_double(p, n, d);
    } else {
        assert(round_below(p, n, d) == (round_below(p, 2 * n, d).0, round_below(p, 2 * n, d).1 - 1));
    }
}

proof fn lemma_quotient_shifted(p: nat, n: int, d: int, k: nat)
    requires
        p > 0,
        n > 0,
        d > 0,
    ensures
        round_ratio(p, n, d * pow2(k)) == (round_ratio(p, n, d).0, round_ratio(p, n, d).1 - k),
    decreases k,
{
    lemma2_to64();
    if k == 0 {
        assert(d * 1 == d);
    } else {
        lemma_pow2_unfold(k);
        lemma_pow2_pos((k - 1) as nat);
        let e = d * pow2((k - 1) as nat);
        assert(e > 0) by (nonlinear_arith)
            requires
                e == d * pow2((k - 1) as nat),
                d > 0,
                pow2((k - 1) as nat) > 0,
        ;
        assert(d * pow2(k) == 2 * e) by (nonlinear_arith)
            requires
                e == d * pow2((k - 1) as nat),
                pow2(k) == 2 * pow2((k - 1) as nat),
        ;
        lemma_quotient_shifted(p, n, d, (k - 1) as nat);
        lemma_round_ratio_double(p, n, e);
        lemma_quotient_twice(p, n, 2 * e);
    }
}

/// The quotient of a product and one of its factors is the other factor.
pub proof fn lemma_exact_quotient(p: nat, a: int, b: int)
    requires
        p > 0,
        0 <= a,
        0 < b < pow2(p),
        a * b < pow2(p),
    ensures
        float_div(p, int_to_float(p, a * b), int_to_float(p, b)) == int_to_float(p, a),
{
    reveal(float_div);
    lemma2_to64();
    if a == 0 {
        assert(0 * b == 0);
        lemma_int_parts(p, b);
    } else {
        let c = a * b;
        assert(0 < c && a <= c && b <= c) by (nonlinear_arith)
            requires
                c == a * b,
                a >= 1,
                b >= 1,
        ;
        lemma_int_exact(p, c);
        lemma_int_exact(p, b);
        let x = int_to_float(p, c);
        let y = int_to_float(p, b);
        let k = (-x.1) as nat;
        let l = (-y.1) as nat;
        lemma_pow2_pos(k);
        lemma_pow2_pos(l);
        let pk = pow2(k) as int;
        let pl = pow2(l) as int;
        let n = a * pk;
        assert(n > 0) by (nonlinear_arith)
            requires
                n == a * pk,
                a > 0,
                pk > 0,
        ;
        assert(x.0 == b * n) by (nonlinear_arith)
            requires
                x.0 == c * pk,
                c == a * b,
                n == a * pk,
        ;
        lemma_round_ratio_factor(p, n, pl, b);
        lemma_quotient_shifted(p, n, 1, l);
        assert(1 * pl == pl);
        lemma_round_shifted(p, a, k);
        assert(y.0 == b * pl);
    }
}

} // verus!
