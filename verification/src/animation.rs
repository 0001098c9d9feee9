//! How a page animation moves: toward its page, frame by frame, and never past it.
use crate::fence::{
    arrived, between, eased, lemma_animation_length, progress_of, stepped, Fence, ANIM_FRAMES,
};
use crate::float::{canonical, float_add, float_div, float_le, float_mul, float_neg, SINGLE};
use crate::geometry::single;
use crate::order::{
    lemma_add_order, lemma_div_order, lemma_int_order, lemma_le_total, lemma_le_transitive, lemma_le_zero,
    lemma_mul_commutes, lemma_mul_negated, lemma_mul_one, lemma_mul_order, lemma_sub_order, lemma_sub_self,
};
use crate::precision::{lemma_int_add, lemma_int_parts, lemma_unit_quotient};
use vstd::arithmetic::power2::lemma2_to64;
use vstd::prelude::*;

verus! {

/// Larger integers are larger numbers.
proof fn lemma_single_order(a: int, b: int)
    requires
        -0x100_0000 < a <= b < 0x100_0000,
    ensures
        float_le(single(a), single(b)),
        canonical(SINGLE as nat, single(a)),
        canonical(SINGLE as nat, single(b)),
        single(a).0 > 0 <==> a > 0,
        single(a).0 < 0 <==> a < 0,
        single(0) == (0int, 0int),
{
    lemma_int_order(SINGLE as nat, a, b);
}

/// An animation comes farther with each frame, from 0 to 1.
pub proof fn lemma_progress_order(a: int, b: int)
    requires
        1 <= a <= b <= ANIM_FRAMES,
    ensures
        float_le(progress_of(a), progress_of(b)),
        float_le((0, 0), progress_of(a)),
        float_le(progress_of(b), single(1)),
        canonical(SINGLE as nat, progress_of(a)),
        canonical(SINGLE as nat, progress_of(b)),
        progress_of(ANIM_FRAMES as int) == single(1),
{
    let p = SINGLE as nat;
    let n = ANIM_FRAMES as int;
    lemma_single_order(a, b);
    lemma_single_order(b, n);
    lemma_single_order(1, 1);
    lemma_single_order(n, n);
    lemma_div_order(p, single(a), single(b), single(n));
    lemma_div_order(p, single(b), single(n), single(n));
    let ta = float_div(p, single(a), single(n));
    let tb = float_div(p, single(b), single(n));
    lemma_le_total(single(1), ta);
    lemma_le_total(single(1), tb);
    lemma_le_total(single(1), single(1));
    lemma_le_zero(ta);
    lemma_le_zero(single(1));
    lemma_animation_length(n);
    lemma_animation_length(b);
    if float_le(single(1), ta) {
        lemma_le_transitive(single(1), ta, tb);
    }
    let tn = float_div(p, single(n), single(n));
    assert(arrived(n));
    lemma_unit_quotient(p, single(n));
    assert(tn == single(1));
}

/// The easing keeps the order, and leads from 0 to 1.
pub proof fn lemma_eased_order(s: (int, int), t: (int, int))
    requires
        canonical(SINGLE as nat, s),
        canonical(SINGLE as nat, t),
        float_le((0, 0), s),
        float_le(s, t),
        float_le(t, single(1)),
    ensures
        float_le(eased(s), eased(t)),
        float_le((0, 0), eased(s)),
        float_le(eased(t), single(1)),
        canonical(SINGLE as nat, eased(s)),
        canonical(SINGLE as nat, eased(t)),
        eased(single(1)) == single(1),
{
    let p = SINGLE as nat;
    let one = single(1);
    lemma2_to64();
    lemma_single_order(1, 1);
    let us = float_add(p, one, float_neg(s));
    let ut = float_add(p, one, float_neg(t));
    lemma_sub_self(p, one);
    lemma_sub_order(p, one, s, t);
    lemma_sub_order(p, one, t, one);
    lemma_sub_order(p, one, (0, 0), s);
    assert(float_neg((0, 0)) == (0int, 0int));
    // 0 <= ut <= us <= 1
    lemma_le_zero(ut);
    lemma_le_transitive((0, 0), ut, us);
    lemma_le_zero(us);
    let cs = float_mul(p, float_mul(p, us, us), us);
    let ct = float_mul(p, float_mul(p, ut, ut), ut);
    lemma_cube_order(ut, us);
    lemma_cube_order(us, one);
    lemma_mul_one(p, one);
    assert(float_mul(p, float_mul(p, one, one), one) == one);
    // 0 <= ct <= cs <= 1
    lemma_le_zero(ct);
    lemma_sub_order(p, one, ct, cs);
    lemma_sub_order(p, one, cs, one);
    lemma_sub_order(p, one, (0, 0), ct);
    // the end of the easing
    let zero = (0int, 0int);
    lemma_zero_cube();
    assert(eased(one) == float_add(p, one, zero));
}

proof fn lemma_zero_cube()
    ensures
        float_mul(SINGLE as nat, float_mul(SINGLE as nat, (0, 0), (0, 0)), (0, 0)) == (0int, 0int),
{
    reveal(float_mul);
}

/// The cube keeps the order of numbers that are not negative.
proof fn lemma_cube_order(a: (int, int), b: (int, int))
    requires
        canonical(SINGLE as nat, a),
        canonical(SINGLE as nat, b),
        a.0 >= 0,
        b.0 >= 0,
        float_le(a, b),
    ensures
        ({
            let p = SINGLE as nat;
            let x = float_mul(p, float_mul(p, a, a), a);
            let y = float_mul(p, float_mul(p, b, b), b);
            &&& float_le(x, y)
            &&& canonical(p, x)
            &&& canonical(p, y)
            &&& x.0 >= 0
        }),
{
    let p = SINGLE as nat;
    lemma_le_total(b, b);
    lemma_mul_order(p, a, b, a);
    lemma_mul_order(p, a, b, b);
    lemma_mul_order(p, b, b, b);
    lemma_mul_commutes(p, a, b);
    let aa = float_mul(p, a, a);
    let bb = float_mul(p, b, b);
    lemma_le_transitive(aa, float_mul(p, b, a), bb);
    lemma_mul_order(p, aa, bb, a);
    lemma_mul_order(p, a, b, bb);
    lemma_mul_commutes(p, a, bb);
    lemma_mul_commutes(p, b, bb);
    lemma_le_total(bb, bb);
    lemma_mul_order(p, bb, bb, b);
    lemma_le_transitive(float_mul(p, aa, a), float_mul(p, bb, a), float_mul(p, bb, b));
}

/// Where a row on the way stands, for two points of the animation: the later one is nearer to the end,
/// and neither is before the start.
proof fn lemma_between_order(from: (int, int), target: (int, int), s: (int, int), t: (int, int))
    requires
        canonical(SINGLE as nat, from),
        canonical(SINGLE as nat, target),
        canonical(SINGLE as nat, s),
        canonical(SINGLE as nat, t),
        float_le((0, 0), s),
        float_le(s, t),
        float_le(t, single(1)),
    ensures
        float_le(from, target) ==> float_le(from, between(from, target, s)) && float_le(
            between(from, target, s),
            between(from, target, t),
        ),
        float_le(target, from) ==> float_le(between(from, target, s), from) && float_le(
            between(from, target, t),
            between(from, target, s),
        ),
{
    let p = SINGLE as nat;
    lemma2_to64();
    lemma_eased_order(s, t);
    let es = eased(s);
    let et = eased(t);
    lemma_le_zero(es);
    lemma_le_transitive((0, 0), es, et);
    lemma_le_zero(et);
    let way = float_add(p, target, float_neg(from));
    lemma_sub_self(p, target);
    lemma_sub_self(p, from);
    lemma_le_total(from, from);
    lemma_sub_order(p, target, from, from);
    lemma_mul_commutes(p, way, es);
    lemma_mul_commutes(p, way, et);
    if float_le(from, target) {
        lemma_sub_order(p, target, from, target);
        lemma_le_zero(way);
        lemma_mul_order(p, es, et, way);
        lemma_le_total(et, et);
        lemma_mul_order(p, et, et, way);
        let ms = float_mul(p, es, way);
        let mt = float_mul(p, et, way);
        lemma_le_zero(ms);
        lemma_add_order(p, from, ms, mt);
        lemma_add_order(p, from, (0, 0), ms);
    }
    if float_le(target, from) {
        lemma_sub_order(p, target, target, from);
        lemma_le_zero(way);
        let back = float_neg(way);
        lemma_mul_negated(p, es, way);
        lemma_mul_negated(p, et, way);
        lemma_mul_order(p, es, et, back);
        lemma_le_total(et, et);
        lemma_mul_order(p, et, et, back);
        let ms = float_mul(p, es, back);
        let mt = float_mul(p, et, back);
        lemma_le_zero(ms);
        lemma_sub_order(p, from, ms, mt);
        lemma_sub_order(p, from, (0, 0), ms);
        assert(float_neg((0, 0)) == (0int, 0int));
    }
}

/// From frame to frame the top row moves toward its target and does not turn back. It does not leave
/// its start on the wrong side, and does not go beyond where the way from the start to the target, as
/// rounded, leads.
pub proof fn lemma_animation_order(from: (int, int), target: (int, int), a: int, b: int)
    requires
        canonical(SINGLE as nat, from),
        canonical(SINGLE as nat, target),
        1 <= a <= b <= ANIM_FRAMES,
    ensures
        ({
            let x = between(from, target, progress_of(a));
            let y = between(from, target, progress_of(b));
            let end = float_add(SINGLE as nat, from, float_add(SINGLE as nat, target, float_neg(from)));
            &&& float_le(from, target) ==> float_le(from, x) && float_le(x, y) && float_le(y, end)
            &&& float_le(target, from) ==> float_le(x, from) && float_le(y, x) && float_le(end, y)
        }),
{
    let p = SINGLE as nat;
    let n = ANIM_FRAMES as int;
    lemma_progress_order(a, b);
    lemma_progress_order(b, n);
    lemma_progress_order(n, n);
    lemma_le_transitive((0, 0), progress_of(a), progress_of(b));
    lemma_between_order(from, target, progress_of(a), progress_of(b));
    lemma_between_order(from, target, progress_of(b), progress_of(n));
    lemma_eased_order(progress_of(n), progress_of(n));
    let way = float_add(p, target, float_neg(from));
    lemma2_to64();
    lemma_le_total(from, from);
    lemma_sub_order(p, target, from, from);
    lemma_mul_one(p, way);
}

/// Between two rows that are whole numbers below `2^24`, no frame goes past the target, and the last
/// point of the way is the target itself.
pub proof fn lemma_animation_exact(from: int, target: int, a: int)
    requires
        0 <= from < 0x100_0000,
        0 <= target < 0x100_0000,
        1 <= a <= ANIM_FRAMES,
    ensures
        ({
            let x = between(single(from), single(target), progress_of(a));
            &&& from <= target ==> float_le(single(from), x) && float_le(x, single(target))
            &&& target <= from ==> float_le(single(target), x) && float_le(x, single(from))
        }),
{
    let p = SINGLE as nat;
    lemma2_to64();
    lemma_single_order(from, from);
    lemma_single_order(target, target);
    if from <= target {
        lemma_single_order(from, target);
    }
    if target <= from {
        lemma_single_order(target, from);
    }
    lemma_animation_order(single(from), single(target), a, a);
    lemma_int_parts(p, from);
    assert(float_neg(single(from)) == single(-from)) by {
        if from == 0 {
            lemma_int_parts(p, 0);
        }
    }
    lemma_int_add(p, target, -from);
    lemma_int_add(p, from, target - from);
}

/// The fences of an animation from its start, one for each frame: only the frame, the row at the top
/// and, at the end, the animation itself change.
proof fn lemma_run_fields(run: Seq<Fence>, icon_px: u32, k: int)
    requires
        run.len() == ANIM_FRAMES + 1,
        run[0].anim_frames == 0,
        forall|i: int| 0 <= i < ANIM_FRAMES ==> stepped(#[trigger] run[i], icon_px, run[i + 1]),
        0 <= k <= ANIM_FRAMES,
    ensures
        run[k].anim_frames == k,
        run[k].anim_from == run[0].anim_from,
        run[k].page_row(icon_px) == run[0].page_row(icon_px),
        k < ANIM_FRAMES ==> run[k].animating == run[0].animating,
        k > 0 ==> run[k].top_row@ == (if k == ANIM_FRAMES {
            run[0].page_row(icon_px)
        } else {
            between(run[0].anim_from@, run[0].page_row(icon_px), progress_of(k))
        }),
        k == ANIM_FRAMES ==> !run[k].animating,
    decreases k,
{
    if k > 0 {
        lemma_run_fields(run, icon_px, k - 1);
        assert(stepped(run[k - 1], icon_px, run[k - 1 + 1]));
        lemma_animation_length(k);
    }
}

/// A whole animation between two rows that are whole numbers below `2^24`: after its last frame the
/// row at the top is exactly that of the page and the animation is over, before that it is not over,
/// and from frame to frame the row moves toward the page, does not turn back and does not go past it.
pub proof fn lemma_animation_run(run: Seq<Fence>, icon_px: u32, from: int, target: int)
    requires
        run.len() == ANIM_FRAMES + 1,
        run[0].animating,
        run[0].anim_frames == 0,
        run[0].anim_from == run[0].top_row,
        run[0].top_row@ == single(from),
        run[0].page_row(icon_px) == single(target),
        0 <= from < 0x100_0000,
        0 <= target < 0x100_0000,
        forall|i: int| 0 <= i < ANIM_FRAMES ==> stepped(#[trigger] run[i], icon_px, run[i + 1]),
    ensures
        run[ANIM_FRAMES as int].top_row@ == single(target),
        !run[ANIM_FRAMES as int].animating,
        forall|i: int| 0 <= i < ANIM_FRAMES ==> (#[trigger] run[i]).animating,
        from <= target ==> forall|i: int, j: int|
            0 <= i <= j <= ANIM_FRAMES ==> float_le((#[trigger] run[i]).top_row@, (#[trigger] run[j]).top_row@),
        target <= from ==> forall|i: int, j: int|
            0 <= i <= j <= ANIM_FRAMES ==> float_le((#[trigger] run[j]).top_row@, (#[trigger] run[i]).top_row@),
{
    let n = ANIM_FRAMES as int;
    lemma_run_fields(run, icon_px, n);
    assert forall|i: int| 0 <= i < n implies (#[trigger] run[i]).animating by {
        lemma_run_fields(run, icon_px, i);
    }
    lemma2_to64();
    lemma_single_order(from, from);
    lemma_single_order(target, target);
    if from <= target {
        lemma_single_order(from, target);
        assert forall|i: int, j: int| 0 <= i <= j <= n implies float_le(
            (#[trigger] run[i]).top_row@,
            (#[trigger] run[j]).top_row@,
        ) by {
            lemma_run_pair(run, icon_px, from, target, i, j);
        }
    }
    if target <= from {
        lemma_single_order(target, from);
        assert forall|i: int, j: int| 0 <= i <= j <= n implies float_le(
            (#[trigger] run[j]).top_row@,
            (#[trigger] run[i]).top_row@,
        ) by {
            lemma_run_pair(run, icon_px, from, target, i, j);
        }
    }
}

proof fn lemma_run_pair(run: Seq<Fence>, icon_px: u32, from: int, target: int, i: int, j: int)
    requires
        run.len() == ANIM_FRAMES + 1,
        run[0].anim_frames == 0,
        run[0].anim_from == run[0].top_row,
        run[0].top_row@ == single(from),
        run[0].page_row(icon_px) == single(target),
        0 <= from < 0x100_0000,
        0 <= target < 0x100_0000,
        forall|k: int| 0 <= k < ANIM_FRAMES ==> stepped(#[trigger] run[k], icon_px, run[k + 1]),
        0 <= i <= j <= ANIM_FRAMES,
    ensures
        from <= target ==> float_le(run[i].top_row@, run[j].top_row@),
        target <= from ==> float_le(run[j].top_row@, run[i].top_row@),
{
    let n = ANIM_FRAMES as int;
    lemma_run_fields(run, icon_px, i);
    lemma_run_fields(run, icon_px, j);
    lemma2_to64();
    lemma_single_order(from, from);
    lemma_single_order(target, target);
    if from <= target {
        lemma_single_order(from, target);
    }
    if target <= from {
        lemma_single_order(target, from);
    }
    lemma_le_total(run[i].top_row@, run[j].top_row@);
    if i < j {
        if 0 < i {
            lemma_animation_exact(from, target, i);
            if j < n {
                lemma_animation_order(single(from), single(target), i, j);
            }
        } else if j < n {
            lemma_animation_exact(from, target, j);
        }
    }
}

} // verus!
