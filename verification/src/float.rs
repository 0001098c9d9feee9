//! Binary floating point on integers.
//!
//! Every length on screen is a DPI ratio times a constant, computed in single precision, and which
//! pixel it lands on depends on how the product was rounded. This module gives IEEE 754 rounding
//! (to nearest, ties to even) for finite values as integer arithmetic, so that those pixels can be
//! reasoned about. A number is a pair `(m, e)` that stands for `m * 2^e`; a number of precision
//! `p` has `2^(p-1) <= |m| < 2^p`, or is `(0, 0)`. Exponents are not limited here: what is computed
//! with these numbers stays far from where the machine's overflow or lose bits at the small end.
use vstd::arithmetic::power2::{lemma_pow2_pos, lemma_pow2_strictly_increases, lemma_pow2_unfold, pow2};
use vstd::prelude::*;

verus! {

/// Significant bits of a single-precision number.
pub const SINGLE: u32 = 24;

/// Significant bits of a double-precision number.
pub const DOUBLE: u32 = 53;

/// A floating-point number: `mant * 2^exp`.
#[derive(Clone, Copy, Debug)]
pub struct Float {
    pub mant: i64,
    pub exp: i32,
}

impl View for Float {
    type V = (int, int);

    open spec fn view(&self) -> (int, int) {
        (self.mant as int, self.exp as int)
    }
}

/// `n / d` rounded to the nearest integer, ties to the even one.
pub open spec fn nearest_even(n: int, d: int) -> int {
    let q = n / d;
    let r = n % d;
    if 2 * r > d || (2 * r == d && q % 2 == 1) {
        q + 1
    } else {
        q
    }
}

/// `n / d` to `p` significant bits, for a quotient below `2^p`: the quotient is doubled until it
/// reaches `2^(p-1)`, and then rounded to an integer.
pub open spec fn round_below(p: nat, n: int, d: int) -> (int, int)
    decreases 2 * (d * pow2((p - 1) as nat)) - n,
{
    if n <= 0 || d <= 0 {
        (0, 0)
    } else if n < d * pow2((p - 1) as nat) {
        let r = round_below(p, 2 * n, d);
        (r.0, r.1 - 1)
    } else {
        let q = nearest_even(n, d);
        if q == pow2(p) {
            (pow2((p - 1) as nat) as int, 1)
        } else {
            (q, 0)
        }
    }
}

/// The non-negative rational `n / d`, rounded to `p` significant bits.
pub open spec fn round_ratio(p: nat, n: int, d: int) -> (int, int)
    decreases n - d,
{
    if d > 0 && p > 0 && n >= d * pow2(p) {
        proof {
            lemma_pow2_unfold(p);
            lemma_pow2_pos((p - 1) as nat);
            assert(d * pow2(p) >= 2 * d) by (nonlinear_arith)
                requires
                    d > 0,
                    pow2(p) >= 2,
            ;
        }
        let r = round_ratio(p, n, 2 * d);
        (r.0, r.1 + 1)
    } else {
        round_below(p, n, d)
    }
}

/// The rational `n / d`, `d` positive, rounded to `p` significant bits. Rounding is symmetric.
pub open spec fn round_signed(p: nat, n: int, d: int) -> (int, int) {
    if n < 0 {
        let r = round_ratio(p, -n, d);
        (-r.0, r.1)
    } else {
        round_ratio(p, n, d)
    }
}

/// `v` as a number of precision `p`.
pub open spec fn int_to_float(p: nat, v: int) -> (int, int) {
    round_signed(p, v, 1)
}

/// The product of two numbers, rounded.
#[verifier::opaque]
pub open spec fn float_mul(p: nat, a: (int, int), b: (int, int)) -> (int, int) {
    if a.0 == 0 || b.0 == 0 {
        (0, 0)
    } else {
        let r = round_signed(p, a.0 * b.0, 1);
        (r.0, r.1 + a.1 + b.1)
    }
}

/// The quotient of two numbers, rounded; `b` is positive.
#[verifier::opaque]
pub open spec fn float_div(p: nat, a: (int, int), b: (int, int)) -> (int, int) {
    if a.0 == 0 {
        (0, 0)
    } else {
        let r = round_signed(p, a.0, b.0);
        (r.0, r.1 + a.1 - b.1)
    }
}

/// `2^n`, and 1 for a negative `n`.
pub open spec fn scale(n: int) -> int {
    if n <= 0 {
        1
    } else {
        pow2(n as nat) as int
    }
}

/// The sum of two numbers, rounded.
#[verifier::opaque]
pub open spec fn float_add(p: nat, a: (int, int), b: (int, int)) -> (int, int) {
    if a.0 == 0 {
        b
    } else if b.0 == 0 {
        a
    } else {
        let lo = if a.1 < b.1 { a.1 } else { b.1 };
        let n = a.0 * scale(a.1 - lo) + b.0 * scale(b.1 - lo);
        if n == 0 {
            (0, 0)
        } else {
            let r = round_signed(p, n, 1);
            (r.0, r.1 + lo)
        }
    }
}

/// The number with the opposite sign.
pub open spec fn float_neg(a: (int, int)) -> (int, int) {
    (-a.0, a.1)
}

/// The absolute value.
pub open spec fn float_abs(a: (int, int)) -> (int, int) {
    if a.0 < 0 {
        float_neg(a)
    } else {
        a
    }
}

/// Whether `a <= b`.
pub open spec fn float_le(a: (int, int), b: (int, int)) -> bool {
    a.0 * scale(a.1 - b.1) <= b.0 * scale(b.1 - a.1)
}

/// The integer part, toward zero.
pub open spec fn float_trunc(a: (int, int)) -> int {
    let k = scale(-a.1);
    if a.0 < 0 {
        -((-a.0) * scale(a.1) / k)
    } else {
        a.0 * scale(a.1) / k
    }
}

/// The nearest integer, ties away from zero.
pub open spec fn float_round(a: (int, int)) -> int {
    let k = scale(-a.1);
    if a.0 < 0 {
        -((2 * (-a.0) * scale(a.1) + k) / (2 * k))
    } else {
        (2 * a.0 * scale(a.1) + k) / (2 * k)
    }
}

/// The largest integer that is not larger.
pub open spec fn float_floor(a: (int, int)) -> int {
    a.0 * scale(a.1) / scale(-a.1)
}

/// `v` brought into the range of `i32`.
pub open spec fn saturate(v: int) -> int {
    if v < i32::MIN {
        i32::MIN as int
    } else if v > i32::MAX {
        i32::MAX as int
    } else {
        v
    }
}

/// The absolute value of an exponent.
pub open spec fn distance(e: int) -> int {
    if e < 0 {
        -e
    } else {
        e
    }
}

/// A number of precision `p`.
pub open spec fn canonical(p: nat, a: (int, int)) -> bool {
    ||| a == (0int, 0int)
    ||| pow2((p - 1) as nat) <= a.0 < pow2(p)
    ||| pow2((p - 1) as nat) <= -a.0 < pow2(p)
}

pub proof fn lemma_nearest_even_range(n: int, d: int, lo: int, hi: int)
    requires
        d > 0,
        0 <= lo,
        d * lo <= n < d * hi,
    ensures
        lo <= nearest_even(n, d) <= hi,
{
    assert(lo <= n / d < hi) by (nonlinear_arith)
        requires
            d > 0,
            d * lo <= n < d * hi,
    ;
}

/// A rounded positive quotient has exactly `p` significant bits.
pub proof fn lemma_round_below_canonical(p: nat, n: int, d: int)
    requires
        p > 0,
        n > 0,
        d > 0,
        n < d * pow2(p),
    ensures
        pow2((p - 1) as nat) <= round_below(p, n, d).0 < pow2(p),
        round_below(p, n, d).1 <= 1,
    decreases 2 * (d * pow2((p - 1) as nat)) - n,
{
    lemma_pow2_unfold(p);
    lemma_pow2_pos((p - 1) as nat);
    let half = pow2((p - 1) as nat) as int;
    assert(d * (2 * half) == 2 * (d * half)) by (nonlinear_arith);
    if n < d * half {
        lemma_round_below_canonical(p, 2 * n, d);
    } else {
        lemma_nearest_even_range(n, d, half, 2 * half);
    }
}

pub proof fn lemma_round_ratio_canonical(p: nat, n: int, d: int)
    requires
        p > 0,
        n > 0,
        d > 0,
    ensures
        pow2((p - 1) as nat) <= round_ratio(p, n, d).0 < pow2(p),
    decreases n - d,
{
    if n >= d * pow2(p) {
        lemma_pow2_unfold(p);
        lemma_pow2_pos((p - 1) as nat);
        assert(d * pow2(p) >= 2 * d) by (nonlinear_arith)
            requires
                d > 0,
                pow2(p) >= 2,
        ;
        lemma_round_ratio_canonical(p, n, 2 * d);
    } else {
        lemma_round_below_canonical(p, n, d);
    }
}

/// How far `m * 2^e` is from the positive rational `n / d`, both brought to one denominator: a
/// `p`-bit number within half a unit of its last place is off by at most one part in `2^p`.
pub open spec fn close(p: nat, a: (int, int), n: int, d: int) -> bool {
    let x = a.0 * scale(a.1) * d;
    let y = n * scale(-a.1);
    -y <= pow2(p) * (x - y) <= y
}

proof fn lemma_nearest_even_error(n: int, d: int)
    requires
        d > 0,
        n >= 0,
    ensures
        -d <= 2 * (nearest_even(n, d) * d - n) <= d,
{
    let q = n / d;
    assert(n == q * d + n % d) by (nonlinear_arith)
        requires
            d > 0,
            q == n / d,
    ;
    assert((q + 1) * d == q * d + d) by (nonlinear_arith);
}

proof fn lemma_scale_step(e: int)
    ensures
        scale(e) > 0,
        e >= 0 ==> scale(e + 1) == 2 * scale(e),
{
    vstd::arithmetic::power2::lemma2_to64();
    if e > 0 {
        lemma_pow2_pos(e as nat);
        lemma_pow2_unfold((e + 1) as nat);
    }
}

/// Moving a factor of two between a quotient and its exponent keeps the distance.
proof fn lemma_close_shift(p: nat, a: (int, int), n: int, d: int)
    requires
        close(p, a, 2 * n, d),
    ensures
        close(p, (a.0, a.1 - 1), n, d),
{
    lemma_scale_step(a.1);
    lemma_scale_step(-a.1);
    lemma_scale_step(a.1 - 1);
    let x = a.0 * scale(a.1) * d;
    let y = 2 * n * scale(-a.1);
    let x1 = a.0 * scale(a.1 - 1) * d;
    let y1 = n * scale(1 - a.1);
    let t = pow2(p) as int;
    if a.1 <= 0 {
        assert(y1 == y) by (nonlinear_arith)
            requires
                y1 == n * scale(1 - a.1),
                y == 2 * n * scale(-a.1),
                scale(1 - a.1) == 2 * scale(-a.1),
        ;
    } else {
        assert(x == 2 * x1) by (nonlinear_arith)
            requires
                x == a.0 * scale(a.1) * d,
                x1 == a.0 * scale(a.1 - 1) * d,
                scale(a.1) == 2 * scale(a.1 - 1),
        ;
        assert(y == 2 * y1);
        assert(t * (x - y) == 2 * (t * (x1 - y1))) by (nonlinear_arith)
            requires
                x == 2 * x1,
                y == 2 * y1,
        ;
    }
}

proof fn lemma_round_below_close(p: nat, n: int, d: int)
    requires
        p > 0,
        n > 0,
        d > 0,
        n < d * pow2(p),
    ensures
        close(p, round_below(p, n, d), n, d),
    decreases 2 * (d * pow2((p - 1) as nat)) - n,
{
    lemma_pow2_unfold(p);
    lemma_pow2_pos((p - 1) as nat);
    let half = pow2((p - 1) as nat) as int;
    assert(d * (2 * half) == 2 * (d * half)) by (nonlinear_arith);
    if n < d * half {
        lemma_round_below_close(p, 2 * n, d);
        lemma_close_shift(p, round_below(p, 2 * n, d), n, d);
    } else {
        lemma_nearest_even_error(n, d);
        let q = nearest_even(n, d);
        let err = q * d - n;
        assert(-n <= (2 * half) * err <= n) by (nonlinear_arith)
            requires
                -d <= 2 * err <= d,
                half > 0,
                d * half <= n,
        ;
        vstd::arithmetic::power2::lemma2_to64();
        let r = round_below(p, n, d);
        let x = r.0 * scale(r.1) * d;
        assert(scale(-r.1) == 1);
        assert(n * scale(-r.1) == n) by (nonlinear_arith)
            requires
                scale(-r.1) == 1,
        ;
        if q == pow2(p) {
            assert(r.0 * scale(r.1) == q) by (nonlinear_arith)
                requires
                    r.0 == half,
                    scale(r.1) == 2,
                    q == 2 * half,
            ;
        } else {
            assert(r.0 * scale(r.1) == q) by (nonlinear_arith)
                requires
                    r.0 == q,
                    scale(r.1) == 1,
            ;
        }
        assert(x == q * d);
        assert(pow2(p) == 2 * half);
    }
}

/// A rounded quotient is within one part in `2^p` of the exact one.
pub proof fn lemma_round_ratio_close(p: nat, n: int, d: int)
    requires
        p > 0,
        n > 0,
        d > 0,
    ensures
        close(p, round_ratio(p, n, d), n, d),
    decreases n - d,
{
    if n >= d * pow2(p) {
        lemma_pow2_unfold(p);
        lemma_pow2_pos((p - 1) as nat);
        assert(d * pow2(p) >= 2 * d) by (nonlinear_arith)
            requires
                d > 0,
                pow2(p) >= 2,
        ;
        lemma_round_ratio_close(p, n, 2 * d);
        let r = round_ratio(p, n, 2 * d);
        let t = pow2(p) as int;
        lemma_scale_step(r.1);
        lemma_scale_step(-r.1);
        lemma_scale_step(-r.1 - 1);
        let x = r.0 * scale(r.1) * (2 * d);
        let y = n * scale(-r.1);
        let x1 = r.0 * scale(r.1 + 1) * d;
        let y1 = n * scale(-r.1 - 1);
        if r.1 >= 0 {
            assert(x1 == x) by (nonlinear_arith)
                requires
                    x == r.0 * scale(r.1) * (2 * d),
                    x1 == r.0 * scale(r.1 + 1) * d,
                    scale(r.1 + 1) == 2 * scale(r.1),
            ;
        } else {
            assert(x == 2 * x1) by (nonlinear_arith)
                requires
                    x == r.0 * 1 * (2 * d),
                    x1 == r.0 * 1 * d,
            ;
            assert(y == 2 * y1) by (nonlinear_arith)
                requires
                    y == n * scale(-r.1),
                    y1 == n * scale(-r.1 - 1),
                    scale(-r.1) == 2 * scale(-r.1 - 1),
            ;
            assert(t * (x - y) == 2 * (t * (x1 - y1))) by (nonlinear_arith)
                requires
                    x == 2 * x1,
                    y == 2 * y1,
            ;
        }
        assert(-(r.1 + 1) == -r.1 - 1);
    } else {
        lemma_round_below_close(p, n, d);
    }
}

/// `2^k` for a `k` that leaves it within 120 bits.
fn power(k: u32) -> (r: u128)
    requires
        k <= 120,
    ensures
        r == pow2(k as nat),
        0 < r <= 0x100_0000_0000_0000_0000_0000_0000_0000,
{
    let mut r: u128 = 1;
    let mut i: u32 = 0;
    proof {
        vstd::arithmetic::power2::lemma2_to64();
        lemma_pow2_120();
    }
    while i < k
        invariant
            i <= k <= 120,
            r == pow2(i as nat),
            r <= 0x100_0000_0000_0000_0000_0000_0000_0000,
            pow2(120) == 0x100_0000_0000_0000_0000_0000_0000_0000,
        decreases k - i,
    {
        proof {
            lemma_pow2_unfold((i + 1) as nat);
            if i + 1 < 120 {
                lemma_pow2_strictly_increases((i + 1) as nat, 120);
            }
        }
        r = r * 2;
        i = i + 1;
    }
    proof {
        lemma_pow2_pos(k as nat);
    }
    r
}

proof fn lemma_pow2_120()
    ensures
        pow2(120) == 0x100_0000_0000_0000_0000_0000_0000_0000,
{
    vstd::arithmetic::power2::lemma2_to64();
    vstd::arithmetic::power2::lemma2_to64_rest();
    vstd::arithmetic::power2::lemma_pow2_adds(60, 60);
}

/// Rounds `n / d` to `p` significant bits.
fn round_quotient(p: u32, n: u128, d: u128) -> (r: Float)
    requires
        0 < p <= 53,
        0 < n <= 0x100_0000_0000_0000_0000_0000_0000_0000,
        0 < d <= 0x1_0000_0000_0000_0000,
    ensures
        r@ == round_ratio(p as nat, n as int, d as int),
        pow2((p - 1) as nat) <= r.mant < pow2(p as nat),
        -200 <= r.exp <= 200,
{
    let top: u128 = power(p);
    let half: u128 = power(p - 1);
    let mut num: u128 = n;
    let mut den: u128 = d;
    let mut exp: i32 = 0;
    proof {
        vstd::arithmetic::power2::lemma2_to64();
        lemma_pow2_unfold(p as nat);
        if p < 53 {
            lemma_pow2_strictly_increases(p as nat, 53);
        }
        vstd::arithmetic::power2::lemma2_to64_rest();
        lemma_round_ratio_canonical(p as nat, n as int, d as int);
    }
    assert(top <= 0x20_0000_0000_0000);
    assert(den * top <= 0x1_0000_0000_0000_0000 * 0x20_0000_0000_0000) by (nonlinear_arith)
        requires
            den <= 0x1_0000_0000_0000_0000,
            top <= 0x20_0000_0000_0000,
    ;
    while num >= den * top
        invariant
            num == n,
            0 < p <= 53,
            top == pow2(p as nat),
            top == 2 * half,
            0 < half,
            0 < top <= 0x20_0000_0000_0000,
            0 < den,
            0 <= exp <= 120,
            den * top <= 0x200_0000_0000_0000_0000_0000_0000_0000,
            0 < num <= 0x100_0000_0000_0000_0000_0000_0000_0000,
            pow2(exp as nat) <= den,
            ({
                let r = round_ratio(p as nat, num as int, den as int);
                round_ratio(p as nat, n as int, d as int) == (r.0, r.1 + exp)
            }),
        decreases num - den,
    {
        proof {
            assert(den * top >= 2 * den) by (nonlinear_arith)
                requires
                    top >= 2,
                    den > 0,
            ;
            assert((2 * den) * top == 2 * (den * top)) by (nonlinear_arith);
            lemma_pow2_unfold((exp + 1) as nat);
            lemma_pow2_120();
            if exp + 1 > 120 {
                lemma_pow2_strictly_increases(120, (exp + 1) as nat);
            }
        }
        den = den * 2;
        exp = exp + 1;
    }
    let ghost up = exp;
    let ghost start = num;
    let ghost mut k: nat = 0;
    proof {
        vstd::arithmetic::power2::lemma2_to64();
        assert(den * (2 * half) == 2 * (den * half)) by (nonlinear_arith);
    }
    while num < den * half
        invariant
            0 < p <= 53,
            top == pow2(p as nat),
            half == pow2((p - 1) as nat),
            top == 2 * half,
            0 < half,
            0 < top <= 0x20_0000_0000_0000,
            0 < den,
            0 <= up <= 120,
            exp == up - k,
            k <= 122,
            den * top <= 0x200_0000_0000_0000_0000_0000_0000_0000,
            0 < num < den * top,
            pow2(k) <= num,
            ({
                let r = round_below(p as nat, num as int, den as int);
                round_ratio(p as nat, n as int, d as int) == (r.0, r.1 + exp)
            }),
            den * top == 2 * (den * half),
        decreases 2 * (den * half) - num,
    {
        proof {
            lemma_pow2_unfold((k + 1) as nat);
            lemma_pow2_120();
            lemma_pow2_unfold(121);
            lemma_pow2_unfold(122);
            if k + 1 > 122 {
                lemma_pow2_strictly_increases(122, (k + 1) as nat);
            }
            k = k + 1;
        }
        num = num * 2;
        exp = exp - 1;
    }
    proof {
        lemma_round_below_canonical(p as nat, num as int, den as int);
        lemma_nearest_even_range(num as int, den as int, half as int, top as int);
    }
    let q: u128 = num / den;
    let rem: u128 = num % den;
    let up_one: bool = rem > den - rem || (rem == den - rem && q % 2 == 1);
    let m: u128 = if up_one { q + 1 } else { q };
    if m == top {
        Float { mant: half as i64, exp: exp + 1 }
    } else {
        Float { mant: m as i64, exp }
    }
}


/// Rounding `n`, which lies between `2^(p-1) * 2^j` and `2^p * 2^j`, cuts off `j` bits.
proof fn lemma_round_ratio_bits(p: nat, n: int, i: nat, j: nat)
    requires
        p > 0,
        i <= j,
        pow2((p - 1) as nat) * pow2(j) <= n < pow2(p) * pow2(j),
    ensures
        ({
            let r = round_below(p, n, pow2(j) as int);
            round_ratio(p, n, pow2(i) as int) == (r.0, r.1 + (j - i))
        }),
    decreases j - i,
{
    lemma_pow2_pos(i);
    lemma_pow2_pos(j);
    lemma_pow2_unfold(p);
    lemma_pow2_pos((p - 1) as nat);
    if i < j {
        lemma_pow2_unfold((i + 1) as nat);
        if i + 1 < j {
            lemma_pow2_strictly_increases((i + 1) as nat, j);
        }
        let half = pow2((p - 1) as nat) as int;
        let a = pow2(i) as int;
        let b = pow2(j) as int;
        assert(half * b >= a * (2 * half)) by (nonlinear_arith)
            requires
                b >= 2 * a,
                half > 0,
        ;
        assert(pow2((i + 1) as nat) == 2 * a);
        lemma_round_ratio_bits(p, n, (i + 1) as nat, j);
    } else {
        assert(pow2(i) * pow2(p) == pow2(p) * pow2(j)) by (nonlinear_arith)
            requires
                i == j,
        ;
    }
}

/// Adding a number that is too small to matter leaves the larger one as it is.
proof fn lemma_absorb(p: nat, m: int, s: int, g: nat)
    requires
        p > 0,
        g >= 2,
        pow2((p - 1) as nat) <= m < pow2(p),
        -pow2((g - 2) as nat) < s < pow2((g - 2) as nat),
    ensures
        m * pow2(g) + s > 0,
        round_ratio(p, m * pow2(g) + s, 1) == (m, g as int),
{
    lemma_pow2_unfold(p);
    lemma_pow2_unfold(g);
    lemma_pow2_unfold((g - 1) as nat);
    lemma_pow2_pos((p - 1) as nat);
    lemma_pow2_pos((g - 2) as nat);
    vstd::arithmetic::power2::lemma2_to64();
    let half = pow2((p - 1) as nat) as int;
    let w = pow2(g) as int;
    let h = pow2((g - 1) as nat) as int;
    let n = m * w + s;
    if m == half && s < 0 {
        assert(n == (2 * half) * h + s) by (nonlinear_arith)
            requires
                n == m * w + s,
                m == half,
                w == 2 * h,
        ;
        assert(half * h <= n) by (nonlinear_arith)
            requires
                n == (2 * half) * h + s,
                half >= 1,
                h > 0,
                -s < h,
        ;
        lemma_round_ratio_bits(p, n, 0, (g - 1) as nat);
        assert(n / h == 2 * half - 1 && n % h == h + s) by (nonlinear_arith)
            requires
                n == (2 * half) * h + s,
                -h < s < 0,
        ;
        assert(n >= h * half) by (nonlinear_arith)
            requires
                half * h <= n,
        ;
        assert(round_below(p, n, h) == (half, 1int));
    } else {
        if s >= 0 {
            assert(n / w == m && n % w == s) by (nonlinear_arith)
                requires
                    n == m * w + s,
                    0 <= s < w,
            ;
            assert(half * w <= n) by (nonlinear_arith)
                requires
                    n == m * w + s,
                    m >= half,
                    w > 0,
                    s >= 0,
            ;
        } else {
            assert(n / w == m - 1 && n % w == w + s) by (nonlinear_arith)
                requires
                    n == m * w + s,
                    -w < s < 0,
            ;
            assert(half * w <= n) by (nonlinear_arith)
                requires
                    n == m * w + s,
                    m >= half + 1,
                    w > 0,
                    s > -w,
            ;
        }
        assert(n < pow2(p) * w) by (nonlinear_arith)
            requires
                n == m * w + s,
                m + 1 <= pow2(p),
                w > 0,
                s < w,
        ;
        lemma_round_ratio_bits(p, n, 0, g);
        assert(n >= w * half) by (nonlinear_arith)
            requires
                half * w <= n,
        ;
        assert(round_below(p, n, w) == (m, 0int));
    }
    assert(half * h > 0 && half * w > 0) by (nonlinear_arith)
        requires
            half > 0,
            h > 0,
            w > 0,
    ;
}

/// An integer of the form `m * 2^g`, with `p` significant bits in `m`, is a number of precision `p`.
pub proof fn lemma_shifted_int(p: nat, m: int, g: nat)
    requires
        p > 0,
        pow2((p - 1) as nat) <= m < pow2(p),
    ensures
        int_to_float(p, m * pow2(g)) == (m, g as int),
        int_to_float(p, -(m * pow2(g))) == (-m, g as int),
{
    vstd::arithmetic::power2::lemma2_to64();
    lemma_pow2_pos((p - 1) as nat);
    lemma_pow2_pos(g);
    if g >= 2 {
        lemma_pow2_pos((g - 2) as nat);
        lemma_absorb(p, m, 0, g);
    } else {
        let w = pow2(g) as int;
        let n = m * w;
        let half = pow2((p - 1) as nat) as int;
        assert(half * w <= n < pow2(p) * w) by (nonlinear_arith)
            requires
                half <= m < pow2(p),
                n == m * w,
                w > 0,
        ;
        assert(n / w == m && n % w == 0) by (nonlinear_arith)
            requires
                n == m * w,
                w > 0,
        ;
        assert(n >= w * half) by (nonlinear_arith)
            requires
                half * w <= n,
        ;
        lemma_round_ratio_bits(p, n, 0, g);
        assert(round_below(p, n, w) == (m, 0int));
    }
    assert(m * pow2(g) > 0) by (nonlinear_arith)
        requires
            m > 0,
            pow2(g) > 0,
    ;
}

proof fn lemma_precision(p: u32)
    requires
        0 < p <= 53,
    ensures
        0 < pow2((p - 1) as nat) < pow2(p as nat) <= 0x20_0000_0000_0000,
        pow2(p as nat) == 2 * pow2((p - 1) as nat),
{
    lemma_pow2_unfold(p as nat);
    lemma_pow2_pos((p - 1) as nat);
    vstd::arithmetic::power2::lemma2_to64_rest();
    if p < 53 {
        lemma_pow2_strictly_increases(p as nat, 53);
    }
}

impl Float {
    /// A number of precision `p` whose exponent is at most `k` in magnitude.
    pub open spec fn fits(self, p: nat, k: int) -> bool {
        canonical(p, self@) && -k <= self.exp <= k
    }

    /// `n / d` rounded to `p` bits, where `n` may be negative.
    fn ratio(p: u32, n: i128, d: u128) -> (r: Float)
        requires
            0 < p <= 53,
            -0x100_0000_0000_0000_0000_0000_0000_0000 <= n <= 0x100_0000_0000_0000_0000_0000_0000_0000,
            0 < d <= 0x1_0000_0000_0000_0000,
        ensures
            r@ == round_signed(p as nat, n as int, d as int),
            r.fits(p as nat, 200),
            n != 0 ==> r.mant != 0,
            r.mant < 0 <==> n < 0,
    {
        proof {
            lemma_precision(p);
        }
        if n == 0 {
            proof {
                lemma_pow2_pos(p as nat);
                assert(d * pow2(p as nat) > 0) by (nonlinear_arith)
                    requires
                        d > 0,
                        pow2(p as nat) > 0,
                ;
            }
            Float { mant: 0, exp: 0 }
        } else if n < 0 {
            let r = round_quotient(p, (-n) as u128, d);
            Float { mant: -r.mant, exp: r.exp }
        } else {
            round_quotient(p, n as u128, d)
        }
    }

    /// The integer `v`, rounded to `p` bits.
    pub fn from_int(p: u32, v: i128) -> (r: Float)
        requires
            0 < p <= 53,
            -0x1_0000_0000_0000_0000 <= v <= 0x1_0000_0000_0000_0000,
        ensures
            r@ == int_to_float(p as nat, v as int),
            r.fits(p as nat, 200),
            v != 0 ==> r.mant != 0,
            r.mant < 0 <==> v < 0,
    {
        Float::ratio(p, v, 1)
    }

    /// The product of two numbers.
    pub fn mul(self, p: u32, other: Float) -> (r: Float)
        requires
            0 < p <= 53,
            self.fits(p as nat, 100000),
            other.fits(p as nat, 100000),
        ensures
            r@ == float_mul(p as nat, self@, other@),
            canonical(p as nat, r@),
            self.mant >= 0 && other.mant >= 0 ==> r.mant >= 0,
            r.mant == 0 <==> self.mant == 0 || other.mant == 0,
            distance(r.exp as int) <= distance(self.exp as int) + distance(other.exp as int) + 200,
    {
        proof {
            reveal(float_mul);
            lemma_precision(p);
        }
        if self.mant == 0 || other.mant == 0 {
            return Float { mant: 0, exp: 0 };
        }
        let ghost a = self.mant as int;
        let ghost b = other.mant as int;
        assert(a * b <= 0x20_0000_0000_0000 * 0x20_0000_0000_0000 && a * b >= -(
        0x20_0000_0000_0000 * 0x20_0000_0000_0000)) by (nonlinear_arith)
            requires
                -0x20_0000_0000_0000 <= a <= 0x20_0000_0000_0000,
                -0x20_0000_0000_0000 <= b <= 0x20_0000_0000_0000,
        ;
        assert(a * b != 0) by (nonlinear_arith)
            requires
                a != 0,
                b != 0,
        ;
        assert(a > 0 && b > 0 ==> a * b > 0) by (nonlinear_arith);
        let r = Float::ratio(p, self.mant as i128 * other.mant as i128, 1);
        Float { mant: r.mant, exp: r.exp + self.exp + other.exp }
    }

    /// The quotient of two numbers, the divisor positive.
    pub fn div(self, p: u32, other: Float) -> (r: Float)
        requires
            0 < p <= 53,
            self.fits(p as nat, 100000),
            other.fits(p as nat, 100000),
            other.mant > 0,
        ensures
            r@ == float_div(p as nat, self@, other@),
            canonical(p as nat, r@),
            r.mant < 0 <==> self.mant < 0,
            r.mant == 0 <==> self.mant == 0,
            distance(r.exp as int) <= distance(self.exp as int) + distance(other.exp as int) + 200,
    {
        proof {
            reveal(float_div);
            lemma_precision(p);
        }
        if self.mant == 0 {
            return Float { mant: 0, exp: 0 };
        }
        let r = Float::ratio(p, self.mant as i128, other.mant as u128);
        Float { mant: r.mant, exp: r.exp + self.exp - other.exp }
    }

    /// The number with the opposite sign.
    pub fn neg(self) -> (r: Float)
        requires
            self.mant > i64::MIN,
        ensures
            r@ == float_neg(self@),
            r.exp == self.exp,
    {
        Float { mant: -self.mant, exp: self.exp }
    }

    /// The sum of two numbers.
    pub fn add(self, p: u32, other: Float) -> (r: Float)
        requires
            0 < p <= 53,
            self.fits(p as nat, 100000),
            other.fits(p as nat, 100000),
        ensures
            r@ == float_add(p as nat, self@, other@),
            canonical(p as nat, r@),
            distance(r.exp as int) <= distance(self.exp as int) + distance(other.exp as int) + 200,
    {
        proof {
            reveal(float_add);
            lemma_precision(p);
        }
        if self.mant == 0 {
            return other;
        }
        if other.mant == 0 {
            return self;
        }
        if self.exp >= other.exp {
            self.add_smaller(p, other)
        } else {
            other.add_smaller(p, self)
        }
    }

    /// The sum of two numbers, neither of them zero, the second with the smaller exponent.
    fn add_smaller(self, p: u32, other: Float) -> (r: Float)
        requires
            0 < p <= 53,
            self.fits(p as nat, 100000),
            other.fits(p as nat, 100000),
            self.mant != 0,
            other.mant != 0,
            self.exp >= other.exp,
        ensures
            r@ == float_add(p as nat, self@, other@),
            r@ == float_add(p as nat, other@, self@),
            canonical(p as nat, r@),
            r.mant == 0 || -200 <= r.exp - other.exp <= 200 || r@ == self@,
    {
        proof {
            reveal(float_add);
            lemma_precision(p);
        }
        let gap: u32 = (self.exp - other.exp) as u32;
        let ghost a = self.mant as int;
        let ghost b = other.mant as int;
        proof {
            vstd::arithmetic::power2::lemma2_to64();
        }
        if gap > 60 {
            proof {
                lemma_pow2_strictly_increases(53, (gap - 2) as nat);
                vstd::arithmetic::power2::lemma2_to64_rest();
                let w = pow2(gap as nat) as int;
                if a > 0 {
                    lemma_absorb(p as nat, a, b, gap as nat);
                } else {
                    lemma_absorb(p as nat, -a, -b, gap as nat);
                    assert((-a) * w + (-b) == -(a * w + b)) by (nonlinear_arith);
                }
            }
            return self;
        }
        let w: u128 = power(gap);
        proof {
            if gap < 60 {
                lemma_pow2_strictly_increases(gap as nat, 60);
            }
            vstd::arithmetic::power2::lemma2_to64_rest();
        }
        assert(-0x100_0000_0000_0000 * 0x1000_0000_0000_0000 <= a * w <= 0x100_0000_0000_0000
            * 0x1000_0000_0000_0000) by (nonlinear_arith)
            requires
                -0x20_0000_0000_0000 <= a <= 0x20_0000_0000_0000,
                0 < w <= 0x1000_0000_0000_0000,
        ;
        let n: i128 = self.mant as i128 * w as i128 + other.mant as i128;
        if n == 0 {
            return Float { mant: 0, exp: 0 };
        }
        let r = Float::ratio(p, n, 1);
        Float { mant: r.mant, exp: r.exp + other.exp }
    }

    /// Whether this number is at most `other`.
    pub fn le(self, p: u32, other: Float) -> (r: bool)
        requires
            0 < p <= 53,
            self.fits(p as nat, 100000),
            other.fits(p as nat, 100000),
        ensures
            r == float_le(self@, other@),
    {
        proof {
            lemma_precision(p);
            vstd::arithmetic::power2::lemma2_to64();
        }
        let ghost a = self.mant as int;
        let ghost b = other.mant as int;
        if self.exp >= other.exp {
            let gap: u32 = (self.exp - other.exp) as u32;
            let ghost w = scale(gap as int);
            if gap > 60 {
                proof {
                    lemma_pow2_strictly_increases(53, gap as nat);
                    vstd::arithmetic::power2::lemma2_to64_rest();
                    assert(a > 0 ==> a * w > b) by (nonlinear_arith)
                        requires
                            w > 0x20_0000_0000_0000,
                            b <= 0x20_0000_0000_0000,
                    ;
                    assert(a < 0 ==> a * w < b) by (nonlinear_arith)
                        requires
                            w > 0x20_0000_0000_0000,
                            b >= -0x20_0000_0000_0000,
                    ;
                    assert(a == 0 ==> a * w == 0) by (nonlinear_arith);
                }
                return self.mant < 0 || (self.mant == 0 && other.mant >= 0);
            }
            let p2: u128 = power(gap);
            proof {
                if gap < 60 {
                    lemma_pow2_strictly_increases(gap as nat, 60);
                }
                vstd::arithmetic::power2::lemma2_to64_rest();
            }
            assert(-0x100_0000_0000_0000 * 0x1000_0000_0000_0000 <= a * p2 <= 0x100_0000_0000_0000
                * 0x1000_0000_0000_0000) by (nonlinear_arith)
                requires
                    -0x20_0000_0000_0000 <= a <= 0x20_0000_0000_0000,
                    0 < p2 <= 0x1000_0000_0000_0000,
            ;
            self.mant as i128 * p2 as i128 <= other.mant as i128
        } else {
            let gap: u32 = (other.exp - self.exp) as u32;
            let ghost w = scale(gap as int);
            if gap > 60 {
                proof {
                    lemma_pow2_strictly_increases(53, gap as nat);
                    vstd::arithmetic::power2::lemma2_to64_rest();
                    assert(b > 0 ==> a < b * w) by (nonlinear_arith)
                        requires
                            w > 0x20_0000_0000_0000,
                            a <= 0x20_0000_0000_0000,
                    ;
                    assert(b < 0 ==> a > b * w) by (nonlinear_arith)
                        requires
                            w > 0x20_0000_0000_0000,
                            a >= -0x20_0000_0000_0000,
                    ;
                    assert(b == 0 ==> b * w == 0) by (nonlinear_arith);
                }
                return other.mant > 0 || (other.mant == 0 && self.mant <= 0);
            }
            let p2: u128 = power(gap);
            proof {
                if gap < 60 {
                    lemma_pow2_strictly_increases(gap as nat, 60);
                }
                vstd::arithmetic::power2::lemma2_to64_rest();
            }
            assert(-0x100_0000_0000_0000 * 0x1000_0000_0000_0000 <= b * p2 <= 0x100_0000_0000_0000
                * 0x1000_0000_0000_0000) by (nonlinear_arith)
                requires
                    -0x20_0000_0000_0000 <= b <= 0x20_0000_0000_0000,
                    0 < p2 <= 0x1000_0000_0000_0000,
            ;
            self.mant as i128 <= other.mant as i128 * p2 as i128
        }
    }

    /// The magnitude of the integer part, cut off at `2^62`, or of the nearest integer when `half`
    /// asks for it.
    fn magnitude(self, p: u32, half: bool) -> (r: u128)
        requires
            0 < p <= 53,
            self.fits(p as nat, 100000),
        ensures
            ({
                let a = (if self.mant < 0 { -self.mant } else { self.mant as int }, self.exp as int);
                let v = if half { float_round(a) } else { float_trunc(a) };
                r == v || (r == 0x4000_0000_0000_0000 && v >= r)
            }),
    {
        proof {
            lemma_precision(p);
            vstd::arithmetic::power2::lemma2_to64();
            vstd::arithmetic::power2::lemma2_to64_rest();
        }
        let m: u128 = if self.mant < 0 { (-(self.mant as i128)) as u128 } else { self.mant as u128 };
        if self.exp >= 0 {
            let e: u32 = self.exp as u32;
            let ghost w = scale(e as int);
            assert(2 * m as int * w == 2 * (m * w)) by (nonlinear_arith);
            assert((2 * (m * w) + 1) / 2 == m * w);
            if e >= 62 && m != 0 {
                proof {
                    if e > 62 {
                        lemma_pow2_strictly_increases(62, e as nat);
                    }
                    assert(m * w >= w) by (nonlinear_arith)
                        requires
                            m >= 1,
                            w > 0,
                    ;
                }
                return 0x4000_0000_0000_0000;
            }
            if m == 0 {
                assert(0 * w == 0);
                return 0;
            }
            let p2: u128 = power(e);
            proof {
                lemma_pow2_strictly_increases(e as nat, 62);
            }
            assert(m * p2 <= 0x20_0000_0000_0000 * 0x4000_0000_0000_0000) by (nonlinear_arith)
                requires
                    m <= 0x20_0000_0000_0000,
                    0 < p2 <= 0x4000_0000_0000_0000,
            ;
            m * p2
        } else {
            let k: u32 = (-self.exp) as u32;
            let ghost w = scale(k as int);
            if k > 60 {
                proof {
                    lemma_pow2_strictly_increases(60, k as nat);
                    assert(m as int / w == 0) by (nonlinear_arith)
                        requires
                            0 <= m < w,
                    ;
                    assert((2 * m as int + w) / (2 * w) == 0) by (nonlinear_arith)
                        requires
                            0 <= 2 * m < w,
                    ;
                }
                return 0;
            }
            let p2: u128 = power(k);
            proof {
                if k < 60 {
                    lemma_pow2_strictly_increases(k as nat, 60);
                }
            }
            if half {
                (2 * m + p2) / (2 * p2)
            } else {
                m / p2
            }
        }
    }

    /// The nearest integer, ties away from zero, as a number.
    pub fn round(self, p: u32) -> (r: Float)
        requires
            0 < p <= 53,
            self.fits(p as nat, 100000),
        ensures
            r@ == int_to_float(p as nat, float_round(self@)),
            canonical(p as nat, r@),
            distance(r.exp as int) <= distance(self.exp as int) + 200,
    {
        proof {
            lemma_precision(p);
            vstd::arithmetic::power2::lemma2_to64();
        }
        let ghost m = if self.mant < 0 { -self.mant } else { self.mant as int };
        if self.exp >= 0 {
            proof {
                let w = scale(self.exp as int);
                lemma_pow2_pos(self.exp as nat);
                assert(w == pow2(self.exp as nat));
                assert(2 * m * w == 2 * (m * w)) by (nonlinear_arith);
                assert((2 * (m * w) + 1) / 2 == m * w);
                if m != 0 {
                    lemma_shifted_int(p as nat, m, self.exp as nat);
                } else {
                    assert(0 * w == 0);
                    assert(pow2(p as nat) > 0);
                }
            }
            return self;
        }
        let v = self.magnitude(p, true);
        proof {
            let k = scale(-(self.exp as int));
            lemma_pow2_pos((-self.exp) as nat);
            assert((2 * m * 1 + k) / (2 * k) <= m + 1) by (nonlinear_arith)
                requires
                    m >= 0,
                    k >= 1,
            ;
        }
        if self.mant < 0 {
            Float::from_int(p, -(v as i128))
        } else {
            Float::from_int(p, v as i128)
        }
    }

    /// The absolute value.
    pub fn abs(self) -> (r: Float)
        requires
            self.mant > i64::MIN,
        ensures
            r@ == float_abs(self@),
            r.exp == self.exp,
    {
        if self.mant < 0 {
            self.neg()
        } else {
            self
        }
    }

    /// The integer part, brought into the range of `i32`.
    pub fn trunc_i32(self, p: u32) -> (r: i32)
        requires
            0 < p <= 53,
            self.fits(p as nat, 100000),
        ensures
            r == saturate(float_trunc(self@)),
    {
        let v = self.magnitude(p, false);
        to_i32(self.mant < 0, v)
    }

    /// The largest integer that is not larger, brought into the range of `i32`.
    pub fn floor_i32(self, p: u32) -> (r: i32)
        requires
            0 < p <= 53,
            self.fits(p as nat, 100000),
        ensures
            r == saturate(float_floor(self@)),
    {
        proof {
            lemma_precision(p);
            vstd::arithmetic::power2::lemma2_to64();
            vstd::arithmetic::power2::lemma2_to64_rest();
        }
        let ghost a = self.mant as int;
        if self.mant >= 0 {
            return self.trunc_i32(p);
        }
        if self.exp >= 0 {
            let ghost w = scale(self.exp as int);
            proof {
                lemma_pow2_pos(self.exp as nat);
                assert((-a) * w == -(a * w)) by (nonlinear_arith);
                assert(scale(-self.exp) == 1);
                assert((a * w) / 1 == a * w && ((-a) * w) / 1 == (-a) * w);
            }
            return self.trunc_i32(p);
        }
        let m: u128 = (-(self.mant as i128)) as u128;
        let k: u32 = (-self.exp) as u32;
        let ghost w = scale(k as int);
        assert(a * 1 == a);
        if k > 60 {
            proof {
                lemma_pow2_strictly_increases(60, k as nat);
                assert(a / w == -1) by (nonlinear_arith)
                    requires
                        -w < a < 0,
                ;
            }
            return -1;
        }
        let p2: u128 = power(k);
        proof {
            if k < 60 {
                lemma_pow2_strictly_increases(k as nat, 60);
            }
            assert(a / w == -((m + w - 1) / w)) by (nonlinear_arith)
                requires
                    a == -(m as int),
                    w > 0,
            ;
        }
        let c: u128 = (m + p2 - 1) / p2;
        assert(c <= m + p2) by (nonlinear_arith)
            requires
                c == (m + p2 - 1) / p2 as int,
                p2 > 0,
        ;
        to_i32(true, c)
    }

    /// The nearest integer, ties away from zero, brought into the range of `i32`.
    pub fn round_i32(self, p: u32) -> (r: i32)
        requires
            0 < p <= 53,
            self.fits(p as nat, 100000),
        ensures
            r == saturate(float_round(self@)),
    {
        let v = self.magnitude(p, true);
        to_i32(self.mant < 0, v)
    }

    /// The nearest integer of a number that is not negative, brought into the range of `u32`.
    pub fn round_u32(self, p: u32) -> (r: u32)
        requires
            0 < p <= 53,
            self.fits(p as nat, 100000),
            self.mant >= 0,
        ensures
            r == if float_round(self@) > u32::MAX { u32::MAX as int } else { float_round(self@) },
    {
        let v = self.magnitude(p, true);
        if v > 0xffff_ffff {
            0xffff_ffff
        } else {
            v as u32
        }
    }
}

/// A magnitude with its sign, brought into the range of `i32`.
fn to_i32(negative: bool, v: u128) -> (r: i32)
    ensures
        r == saturate(if negative { -(v as int) } else { v as int }),
{
    if negative {
        if v > 0x8000_0000 {
            i32::MIN
        } else {
            (-(v as i64)) as i32
        }
    } else if v > 0x7fff_ffff {
        i32::MAX
    } else {
        v as i32
    }
}

} // verus!
