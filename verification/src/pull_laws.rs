//! How strongly a dragged position is pulled toward the grid.
use crate::float::{canonical, float_abs, float_add, float_div, float_le, float_mul, float_neg, float_round, scale, SINGLE};
use crate::float_laws::{lemma_le_is_order, lemma_round_int, lemma_round_order};
use crate::geometry::{grid_line, half_of, lemma_half_exact, lemma_neg_single, lemma_smooth_whole, pulled, single, smooth_of};
use crate::order::{
    lemma_add_order, lemma_div_order, lemma_int_order, lemma_le_neg, lemma_le_total, lemma_le_transitive, lemma_le_zero,
    lemma_mul_commutes, lemma_mul_negated, lemma_mul_order, lemma_sub_order,
};
use crate::precision::{den, lemma_int_add, lemma_int_parts, lemma_scale_pos, lemma_unit_quotient, num};
use vstd::arithmetic::power2::{lemma2_to64, lemma_pow2_unfold};
use vstd::prelude::*;

verus! {

/// One quarter.
spec fn quarter() -> (int, int) {
    (0x80_0000, -25)
}

/// Multiplying by a power of two only moves the exponent.
proof fn lemma_times_power(a: (int, int), e: int)
    requires
        canonical(SINGLE as nat, a),
        a.0 > 0,
    ensures
        float_mul(SINGLE as nat, a, (0x80_0000, e)) == (a.0, a.1 + e + 23),
{
    reveal(float_mul);
    lemma2_to64();
    crate::float::lemma_shifted_int(24, a.0, 23);
}

/// The number 1, and 1 less a half.
proof fn lemma_one()
    ensures
        single(1) == (0x80_0000int, -23int),
        float_add(SINGLE as nat, single(1), float_neg(half_of())) == half_of(),
        canonical(SINGLE as nat, half_of()),
        canonical(SINGLE as nat, quarter()),
{
    let p = SINGLE as nat;
    lemma2_to64();
    lemma_unit_quotient(p, (0x80_0000, 0));
    crate::float::lemma_shifted_int(24, 0x80_0000, 0);
    reveal(float_add);
    assert(scale(1) == 2 && scale(0) == 1);
    assert(0x80_0000 * 2 + (-0x80_0000) * 1 == 0x80_0000int);
}

/// Comparing an integer with the half and the quarter of another one.
proof fn lemma_parts(g: int, step: int)
    requires
        0 < g < 0x40_0000,
        0 < step < 0x40_0000,
    ensures
        ({
            let s = single(step);
            &&& float_le((s.0, s.1 - 1), single(g)) <==> step <= 2 * g
            &&& float_le(single(g), (s.0, s.1 - 2)) <==> 4 * g <= step
            &&& float_le(single(g), (s.0, s.1 - 1)) <==> 2 * g <= step
            &&& s.0 > 0
        }),
{
    lemma2_to64();
    let p = SINGLE as nat;
    lemma_int_parts(p, g);
    lemma_int_parts(p, step);
    lemma_round_int(p, g);
    let s = single(step);
    let a = single(g);
    let h = (s.0, s.1 - 1);
    let q = (s.0, s.1 - 2);
    lemma_scale_pos(-s.1);
    lemma_scale_pos(-a.1);
    lemma_le_is_order(h, a);
    lemma_le_is_order(a, h);
    lemma_le_is_order(a, q);
    let k = scale(-s.1);
    let l = den(a);
    lemma_pow2_unfold((1 - s.1) as nat);
    lemma_pow2_unfold((2 - s.1) as nat);
    assert(den(h) == 2 * k);
    assert(den(q) == 4 * k);
    assert(num(h) == s.0 && num(q) == s.0) by {
        assert(s.0 * 1 == s.0);
    }
    let w = step * k;
    assert(s.0 == w);
    assert(w * l <= (g * l) * (2 * k) <==> step <= 2 * g) by (nonlinear_arith)
        requires
            w == step * k,
            k > 0,
            l > 0,
    ;
    assert((g * l) * (2 * k) <= w * l <==> 2 * g <= step) by (nonlinear_arith)
        requires
            w == step * k,
            k > 0,
            l > 0,
    ;
    assert((g * l) * (4 * k) <= w * l <==> 4 * g <= step) by (nonlinear_arith)
        requires
            w == step * k,
            k > 0,
            l > 0,
    ;
}

/// What a number is multiplied by to get its pull, for a gap of up to a quarter of a step.
proof fn lemma_closeness(g: int, step: int)
    requires
        0 < g < 0x10_0000,
        0 < step < 0x40_0000,
        4 * g <= step,
    ensures
        ({
            let p = SINGLE as nat;
            let reach = float_mul(p, single(step), half_of());
            let t = float_add(p, single(1), float_neg(float_div(p, single(g), reach)));
            &&& reach.0 > 0
            &&& !float_le(reach, single(g))
            &&& canonical(p, float_mul(p, t, t))
            &&& float_le(quarter(), float_mul(p, t, t))
            &&& float_mul(p, t, t).0 >= 0
        }),
{
    let p = SINGLE as nat;
    lemma2_to64();
    lemma_one();
    lemma_half_exact(step);
    lemma_parts(g, step);
    lemma_int_order(p, g, g);
    lemma_int_parts(p, g);
    lemma_int_order(p, step, step);
    lemma_int_order(p, 1, 1);
    let s = single(step);
    let reach = (s.0, s.1 - 1);
    let x = (s.0, s.1 - 2);
    assert(canonical(p, reach) && canonical(p, x));
    let d = float_div(p, single(g), reach);
    lemma_div_order(p, single(g), x, reach);
    lemma_unit_quotient(p, reach);
    assert(float_div(p, x, reach) == half_of()) by {
        reveal(float_div);
    }
    lemma_sub_order(p, single(1), d, half_of());
    let t = float_add(p, single(1), float_neg(d));
    assert(float_le(half_of(), t));
    lemma_le_zero(half_of());
    lemma_le_zero(t);
    lemma_le_transitive((0, 0), half_of(), t);
    lemma_mul_order(p, half_of(), t, t);
    lemma_le_total(t, t);
    lemma_mul_order(p, t, t, t);
    lemma_mul_order(p, half_of(), t, half_of());
    lemma_mul_commutes(p, half_of(), t);
    lemma_times_power(half_of(), -24);
    lemma_le_transitive(quarter(), float_mul(p, half_of(), t), float_mul(p, t, t));
}

/// Within a quarter of a cell of a grid line, a dragged position is pulled at least a quarter of the way to the line,
/// cut off to pixels, and never past it.
pub proof fn lemma_smooth_pulls(x: int, step: int, origin: int)
    requires
        0 < step < 0x40_0000,
        -0x10_0000 < x < 0x10_0000,
        -0x10_0000 < origin < 0x10_0000,
    ensures
        ({
            let line = grid_line(x, step, origin);
            let r = float_round(smooth_of(single(x), step, origin, half_of()));
            &&& 0 <= 4 * (line - x) <= step ==> x + (line - x) / 4 <= r <= line
            &&& 0 <= 4 * (x - line) <= step ==> line <= r <= x - (x - line) / 4
        }),
{
    let p = SINGLE as nat;
    lemma2_to64();
    lemma_one();
    lemma_smooth_whole(x, step, origin, half_of());
    let line = grid_line(x, step, origin);
    let r = smooth_of(single(x), step, origin, half_of());
    lemma_round_int(p, x);
    lemma_round_int(p, line);
    if x <= line {
        lemma_round_order(single(x), r);
        lemma_round_order(r, single(line));
    } else {
        lemma_round_order(single(line), r);
        lemma_round_order(r, single(x));
    }
    let g = if x <= line { line - x } else { x - line };
    if 0 < 4 * g <= step {
        lemma_closeness(g, step);
        lemma_neg_single(x);
        lemma_neg_single(g);
        lemma_int_add(p, line, -x);
        let gap = single(line - x);
        let reach = float_mul(p, single(step), half_of());
        let t = float_add(p, single(1), float_neg(float_div(p, single(g), reach)));
        let tt = float_mul(p, t, t);
        lemma_int_order(p, g, g);
        lemma_int_parts(p, g);
        lemma_int_order(p, x, x);
        assert(float_abs(gap) == single(g));
        lemma_le_zero(reach);
        lemma_le_total(reach, (0, 0));
        assert(!float_le(reach, (0, 0))) by {
            lemma_scale_pos(reach.1);
            assert(reach.0 * scale(reach.1) > 0) by (nonlinear_arith)
                requires
                    reach.0 > 0,
                    scale(reach.1) > 0,
            ;
            assert(0 * scale(0 - reach.1) == 0) by (nonlinear_arith);
        }
        assert(r == pulled(single(x), gap, reach));
        // the pull is at least a quarter of the gap
        let least = (single(g).0, single(g).1 - 2);
        let way = float_mul(p, single(g), tt);
        lemma_mul_order(p, quarter(), tt, single(g));
        lemma_mul_commutes(p, quarter(), single(g));
        lemma_mul_commutes(p, tt, single(g));
        lemma_times_power(single(g), -25);
        lemma_le_total(tt, tt);
        lemma_mul_order(p, tt, tt, single(g));
        let q = g / 4;
        lemma_int_order(p, q, q);
        if q > 0 {
            lemma_parts(q, g);
        } else {
            lemma_le_zero(least);
        }
        assert(float_le(single(q), least));
        lemma_le_transitive(single(q), least, way);
        if x <= line {
            lemma_add_order(p, single(x), single(q), way);
            lemma_int_add(p, x, q);
            lemma_round_order(single(x + q), r);
            lemma_round_int(p, x + q);
        } else {
            lemma_neg_single(q);
            lemma_mul_commutes(p, gap, tt);
            lemma_mul_negated(p, tt, gap);
            lemma_le_neg(single(q), way);
            assert(float_neg(float_neg(single(g))) == single(g));
            assert(float_mul(p, gap, tt) == float_neg(way));
            lemma_int_order(p, -q, -q);
            assert(canonical(p, float_neg(way)));
            lemma_add_order(p, single(x), float_neg(way), single(-q));
            lemma_int_add(p, x, -q);
            lemma_round_order(r, single(x - q));
            lemma_round_int(p, x - q);
        }
    }
}

} // verus!
