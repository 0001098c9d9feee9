//! What holds of the mouse on a fence, wherever it is and however it moves.
use crate::effect::Effect;
use crate::fence::{border_at, item_at, lemma_pages, Fence, ResizeDir};
use crate::float::{float_add, float_div, float_round, saturate, SINGLE};
use crate::float_laws::{lemma_round_int, lemma_round_order};
use crate::geometry::{cell_h_of, cell_w_of, grid_line, half_of, lemma_neg_single, lemma_scaled_px_bound, lemma_smooth_whole, scaled_px, single, smooth_of, MAX_DPI};
use crate::layout_laws::is_brought_in;
use crate::order::{lemma_add_order, lemma_int_order};
use crate::precision::lemma_int_add;
use crate::pull_laws::lemma_smooth_pulls;
use crate::mouse::{
    grabbable, stretchable, wheeled, dragged, dragged_to, fitted_extent, in_motion, mouse_moved, moved_over, notches, past_threshold, press_effects,
    pressed, released, resized, stretched, turned_page, Mouse,
};
use crate::state::Global;
use vstd::prelude::*;

verus! {

/// Whether `t` is the distance from which on a press becomes a drag: four pixels, or what the system
/// says for either direction where that is more.
pub open spec fn is_threshold(m: Mouse, t: int) -> bool {
    t >= 4 && t >= m.drag_w && t >= m.drag_h && (t == 4 || t == m.drag_w || t == m.drag_h)
}

/// The mouse has moved far enough for a drag exactly when its distance from the press reaches the
/// threshold to the left, to the right, up or down.
pub proof fn lemma_threshold(f: Fence, m: Mouse, t: int)
    requires
        is_threshold(m, t),
    ensures
        m.x >= f.drag_down.0 + t ==> past_threshold(f, m),
        m.x <= f.drag_down.0 - t ==> past_threshold(f, m),
        m.y >= f.drag_down.1 + t ==> past_threshold(f, m),
        m.y <= f.drag_down.1 - t ==> past_threshold(f, m),
        f.drag_down.0 - t < m.x < f.drag_down.0 + t && f.drag_down.1 - t < m.y < f.drag_down.1 + t ==> !past_threshold(f, m),
{
}

/// It does not matter to which side of the press the mouse has moved, nor whether across or down.
pub proof fn lemma_threshold_symmetric(f: Fence, m: Mouse, f2: Fence, m2: Mouse)
    requires
        m2.drag_w == m.drag_w,
        m2.drag_h == m.drag_h,
        ({
            let (dx, dy) = (m.x - f.drag_down.0, m.y - f.drag_down.1);
            let (dx2, dy2) = (m2.x - f2.drag_down.0, m2.y - f2.drag_down.1);
            ||| (dx2 == dx || dx2 == -dx) && (dy2 == dy || dy2 == -dy)
            ||| (dx2 == dy || dx2 == -dy) && (dy2 == dx || dy2 == -dx)
        }),
    ensures
        past_threshold(f, m) == past_threshold(f2, m2),
{
}

/// With an entry pressed, a move that reaches the threshold in any of the four directions drags that
/// entry out, by its path; a shorter one changes nothing.
pub proof fn lemma_drag_out(
    f: Fence,
    m: Mouse,
    icon_px: u32,
    f2: Fence,
    fx: Seq<Effect>,
    render: bool,
    drag: Option<String>,
    i: usize,
    t: int,
)
    requires
        mouse_moved(f, m, icon_px, f2, fx, render, drag),
        !f.moving,
        f.resizing is None,
        f.drag_idx == Some(i),
        i < f.entries@.len(),
        is_threshold(m, t),
    ensures
        m.x - f.drag_down.0 >= t || f.drag_down.0 - m.x >= t || m.y - f.drag_down.1 >= t || f.drag_down.1 - m.y >= t ==> {
            &&& drag == Some(f.entries@[i as int].path)
            &&& f2.drag_idx is None
            &&& f2.hover is None
            &&& f2.entries == f.entries
            &&& f2.cfg == f.cfg
            &&& fx == seq![Effect::ReleaseCapture]
            &&& render
        },
        m.x - f.drag_down.0 < t && f.drag_down.0 - m.x < t && m.y - f.drag_down.1 < t && f.drag_down.1 - m.y < t ==> {
            &&& drag is None
            &&& f2 == f
            &&& fx.len() == 0
            &&& !render
        },
{
}

/// The same of the message as a whole: the path that comes back is that of the pressed entry.
pub proof fn lemma_drag_out_path(old: Global, i: int, m: Mouse, g: Global, fx: Seq<Effect>, drag: Option<String>, t: int)
    requires
        0 <= i < old.fences@.len(),
        moved_over(old, i, m, g, fx, drag),
        !old.fences@[i].moving,
        old.fences@[i].resizing is None,
        old.fences@[i].drag_idx is Some,
        old.fences@[i].drag_idx->0 < old.fences@[i].entries@.len(),
        is_threshold(m, t),
    ensures
        ({
            let f = old.fences@[i];
            let p = f.drag_down;
            drag == if m.x - p.0 >= t || p.0 - m.x >= t || m.y - p.1 >= t || p.1 - m.y >= t {
                Some(f.entries@[f.drag_idx->0 as int].path)
            } else {
                None
            }
        }),
{
}

/// The window follows the mouse: the place it would have at the mouse is at most half a cell away, and
/// the window never goes to the far side of the nearest grid line; where it is kept in the work area,
/// it is brought in from there.
pub proof fn lemma_drag_follows(cursor: int, off: int, step: int, lo: int, hi: int, extent: int)
    requires
        0 < step < 0x80_0000,
        -0x80_0000 < cursor - off < 0x80_0000,
        -0x80_0000 < lo < 0x80_0000,
        -0x80_0000 < cursor - off - lo < 0x80_0000,
    ensures
        exists|p: int|
            {
                &&& #[trigger] is_brought_in(dragged_to(cursor, off, step, lo, hi, extent), p, extent, lo, hi)
                &&& -step <= 2 * (p - (cursor - off)) <= step
                &&& is_between(p, cursor - off, grid_line(cursor - off, step, lo))
            },
{
    let x = cursor - off;
    let r = smooth_of(single(x), step, lo, half_of());
    vstd::arithmetic::power2::lemma2_to64();
    assert(crate::float::canonical(24, half_of()));
    lemma_smooth_whole(x, step, lo, half_of());
    let line = grid_line(x, step, lo);
    lemma_round_int(SINGLE as nat, x);
    lemma_round_int(SINGLE as nat, line);
    let p = float_round(r);
    if x <= line {
        lemma_round_order(single(x), r);
        lemma_round_order(r, single(line));
    } else {
        lemma_round_order(single(line), r);
        lemma_round_order(r, single(x));
    }
    assert(saturate(p) == p);
    assert(is_brought_in(dragged_to(cursor, off, step, lo, hi, extent), p, extent, lo, hi));
}

/// Whether `p` is one of two places or lies between them.
pub open spec fn is_between(p: int, a: int, b: int) -> bool {
    a <= p <= b || b <= p <= a
}

/// Close to a grid line a moved window is pulled toward it: within a quarter of a cell, at least a quarter of the
/// way.
pub proof fn lemma_drag_pulls(cursor: int, off: int, step: int, lo: int, hi: int, extent: int)
    requires
        0 < step < 0x40_0000,
        -0x10_0000 < cursor - off < 0x10_0000,
        -0x10_0000 < lo < 0x10_0000,
    ensures
        exists|p: int|
            {
                &&& #[trigger] is_brought_in(dragged_to(cursor, off, step, lo, hi, extent), p, extent, lo, hi)
                &&& is_pulled(p, cursor - off, grid_line(cursor - off, step, lo), step)
            },
{
    let x = cursor - off;
    lemma_smooth_pulls(x, step, lo);
    vstd::arithmetic::power2::lemma2_to64();
    assert(crate::float::canonical(24, half_of()));
    lemma_smooth_whole(x, step, lo, half_of());
    let r = smooth_of(single(x), step, lo, half_of());
    let line = grid_line(x, step, lo);
    lemma_round_int(SINGLE as nat, x);
    lemma_round_int(SINGLE as nat, line);
    if x <= line {
        lemma_round_order(single(x), r);
        lemma_round_order(r, single(line));
    } else {
        lemma_round_order(single(line), r);
        lemma_round_order(r, single(x));
    }
    let p = float_round(r);
    assert(saturate(p) == p);
    assert(is_brought_in(dragged_to(cursor, off, step, lo, hi, extent), p, extent, lo, hi));
}

/// Whether `p` is where `x` is pulled to by a line: between the two, and where the line is within a quarter of a
/// step, at least a quarter of the way to it.
pub open spec fn is_pulled(p: int, x: int, line: int, step: int) -> bool {
    &&& is_between(p, x, line)
    &&& 0 <= 4 * (line - x) <= step ==> p >= x + (line - x) / 4
    &&& 0 <= 4 * (x - line) <= step ==> p <= x - (x - line) / 4
}

/// Both coordinates of a moved fence go by their own axis: across by the widths, down by the heights;
/// nothing else of the fence changes.
pub proof fn lemma_dragged(f: Fence, m: Mouse, icon_px: u32)
    requires
        i32::MIN <= dragged_to(m.cursor.0 as int, f.move_off.0 as int, cell_w_of(icon_px as int, f.dpi as int), m.wa.left as int, m.wa.right as int, f.cfg.w as int) <= i32::MAX,
        i32::MIN <= dragged_to(m.cursor.1 as int, f.move_off.1 as int, cell_h_of(icon_px as int, f.dpi as int), m.wa.top as int, m.wa.bottom as int, f.cfg.h as int) <= i32::MAX,
    ensures
        ({
            let d = dragged(f, m, icon_px);
            &&& d.cfg.x == dragged_to(m.cursor.0 as int, f.move_off.0 as int, cell_w_of(icon_px as int, f.dpi as int), m.wa.left as int, m.wa.right as int, f.cfg.w as int)
            &&& d.cfg.y == dragged_to(m.cursor.1 as int, f.move_off.1 as int, cell_h_of(icon_px as int, f.dpi as int), m.wa.top as int, m.wa.bottom as int, f.cfg.h as int)
            &&& d.cfg.w == f.cfg.w && d.cfg.h == f.cfg.h && d.cfg.id == f.cfg.id
            &&& d.entries == f.entries && d.move_off == f.move_off && d.moving == f.moving && d.page == f.page && d.hwnd == f.hwnd
        }),
{
}

/// A pressed title is held where it was pressed: the place in the window at which the mouse is stays
/// the same while the window is moved.
pub proof fn lemma_grab(f: Fence, m: Mouse, icon_px: u32)
    requires
        m.y < scaled_px(30, f.dpi as int),
        grabbable(m),
    ensures
        ({
            let p = pressed(f, m, icon_px);
            &&& p.moving
            &&& m.rect.left + p.move_off.0 == m.cursor.0
            &&& m.rect.top + p.move_off.1 == m.cursor.1
            &&& p.cfg == f.cfg && p.resizing == f.resizing && p.selected == f.selected && p.drag_idx == f.drag_idx
            &&& press_effects(f, m, icon_px) == seq![Effect::Capture(f.hwnd)]
        }),
{
}

/// Below the title, a press within reach of an edge begins to move that edge, and one on an entry selects
/// just this entry, from where the mouse is; elsewhere it ends the selection.
pub proof fn lemma_press_below_title(f: Fence, m: Mouse, icon_px: u32)
    requires
        m.y >= scaled_px(30, f.dpi as int),
    ensures
        ({
            let p = pressed(f, m, icon_px);
            let edge = border_at(f.cfg.w as int, f.cfg.h as int, scaled_px(8, f.dpi as int), m.x as int, m.y as int);
            let item = item_at(f, icon_px, m.x as int, m.y as int, f.cols(icon_px));
            &&& p.cfg == f.cfg && p.entries == f.entries && p.moving == f.moving && p.page == f.page && p.hover == f.hover
            &&& edge is Some ==> p.resizing == edge && p.selected == f.selected && p.drag_idx == f.drag_idx
            &&& edge is None && item is Some ==> p.selected == item && p.drag_idx == item && p.drag_down == (m.x, m.y)
                && p.resizing == f.resizing
            &&& edge is None && item is None ==> p.selected is None && p.drag_idx == f.drag_idx && p.resizing == f.resizing
        }),
{
}

/// Which edge is grabbed: the mouse is within reach of it, at a corner of both edges, and elsewhere of
/// none.
pub proof fn lemma_border(w: int, h: int, b: int, x: int, y: int)
    requires
        b >= 0,
        w >= 2 * b,
        h >= 2 * b,
    ensures
        ({
            let left = x < b;
            let right = x >= w - b;
            let top = y < b;
            let bottom = y >= h - b;
            let d = border_at(w, h, b, x, y);
            &&& d is None <==> !left && !right && !top && !bottom
            &&& d is Some ==> {
                &&& left <==> d->0 == ResizeDir::W || d->0 == ResizeDir::NW || d->0 == ResizeDir::SW
                &&& right <==> d->0 == ResizeDir::E || d->0 == ResizeDir::NE || d->0 == ResizeDir::SE
                &&& top <==> d->0 == ResizeDir::N || d->0 == ResizeDir::NW || d->0 == ResizeDir::NE
                &&& bottom <==> d->0 == ResizeDir::S || d->0 == ResizeDir::SW || d->0 == ResizeDir::SE
            }
        }),
{
}

/// The edge that the mouse holds goes to the mouse, as far as the least extent allows; without a held
/// edge nothing changes along this axis.
pub proof fn lemma_held_edge(near: bool, far: bool, lo: int, hi: int, cursor: int, least: int)
    ensures
        ({
            let s = stretched(near, far, lo, hi, cursor, least);
            &&& far && cursor - lo >= least ==> s.0 + s.1 == cursor
            &&& far && cursor - lo < least ==> s.1 == least
            &&& near && !far && hi - cursor >= least ==> s.0 == cursor
            &&& near && !far && hi - cursor < least ==> s.1 == least
            &&& !near && !far ==> s.0 == lo && s.0 + s.1 == hi
        }),
{
}

/// A resized extent follows the mouse: where the room allows it lies between what the mouse has and the
/// nearest extent of a whole number of cells, which is at most half a cell away; where not, it fills the
/// room, or is the least extent.
pub proof fn lemma_fitted(extent: int, cell: int, frame: int, at: int, hi: int, least: int)
    requires
        0 < cell < 0x40_0000,
        0 <= frame < 0x40_0000,
        -0x40_0000 < extent < 0x40_0000,
    ensures
        exists|p: int, k: int|
            {
                &&& #[trigger] is_limited(fitted_extent(extent, cell, frame, at, hi, least), p, at, hi, least)
                &&& is_between(p, extent, #[trigger] grown(frame, cell, k))
                &&& -cell <= 2 * (grown(frame, cell, k) - extent) <= cell
            },
{
    let q = SINGLE as nat;
    let x = extent - frame;
    vstd::arithmetic::power2::lemma2_to64();
    assert(crate::float::canonical(24, half_of()));
    lemma_neg_single(frame);
    lemma_int_add(q, extent, -frame);
    lemma_smooth_whole(x, cell, 0, half_of());
    let line = grid_line(x, cell, 0);
    let r = smooth_of(single(x), cell, 0, half_of());
    let a = float_add(q, r, single(frame));
    lemma_int_order(q, frame, frame);
    lemma_int_order(q, x, x);
    lemma_int_order(q, line, line);
    lemma_add_commutes(q, r, single(frame));
    lemma_int_add(q, frame, x);
    lemma_int_add(q, frame, line);
    if x <= line {
        lemma_add_order(q, single(frame), single(x), r);
        lemma_add_order(q, single(frame), r, single(line));
        lemma_round_order(single(extent), a);
        lemma_round_order(a, single(frame + line));
    } else {
        lemma_add_order(q, single(frame), single(line), r);
        lemma_add_order(q, single(frame), r, single(x));
        lemma_round_order(single(frame + line), a);
        lemma_round_order(a, single(extent));
    }
    lemma_round_int(q, extent);
    lemma_round_int(q, frame + line);
    let p = float_round(a);
    let k = saturate(float_round(float_div(q, single(x), single(cell))));
    assert(grid_line(x, cell, 0) == k * cell);
    assert(grown(frame, cell, k) == frame + line);
    assert(is_limited(fitted_extent(extent, cell, frame, at, hi, least), p, at, hi, least));
}

/// The extent of `k` cells in a frame.
pub open spec fn grown(frame: int, cell: int, k: int) -> int {
    frame + k * cell
}

/// Whether `r` is the extent `p`, limited to the room from `at` to `hi`, which counts as no less than the
/// least extent.
pub open spec fn is_limited(r: int, p: int, at: int, hi: int, least: int) -> bool {
    &&& r == p || r == hi - at || r == least
    &&& p <= hi - at || p <= least ==> r == p
    &&& p > hi - at && p > least && hi - at >= least ==> at + r == hi
    &&& p > hi - at && p > least && hi - at < least ==> r == least
}

/// A sum does not depend on the order.
pub proof fn lemma_add_commutes(p: nat, a: (int, int), b: (int, int))
    requires
        crate::float::canonical(p, a),
        crate::float::canonical(p, b),
    ensures
        float_add(p, a, b) == float_add(p, b, a),
{
    reveal(float_add);
    vstd::arithmetic::power2::lemma_pow2_pos((p - 1) as nat);
}

/// Whether the mouse holds the left, right, upper or lower edge of a window that is resized.
pub open spec fn holds_edge(d: ResizeDir, left: bool, right: bool, top: bool, bottom: bool) -> bool {
    match d {
        ResizeDir::N => !left && !right && top && !bottom,
        ResizeDir::S => !left && !right && !top && bottom,
        ResizeDir::W => left && !right && !top && !bottom,
        ResizeDir::E => !left && right && !top && !bottom,
        ResizeDir::NW => left && !right && top && !bottom,
        ResizeDir::NE => !left && right && top && !bottom,
        ResizeDir::SW => left && !right && !top && bottom,
        ResizeDir::SE => !left && right && !top && bottom,
    }
}

/// Where a resized window begins: where the mouse is along an axis on which it holds the near edge, as
/// far as the least size allows, and where it began along any other axis. Its size is fitted from the
/// other edge, or from the mouse on an axis on which it holds the far edge.
pub proof fn lemma_resized(
    f: Fence,
    d: ResizeDir,
    m: Mouse,
    icon_px: u32,
    left: bool,
    right: bool,
    top: bool,
    bottom: bool,
    least_w: int,
    least_h: int,
    x: int,
    y: int,
    w: int,
    h: int,
)
    requires
        holds_edge(d, left, right, top, bottom),
        least_w == scaled_px(180, f.dpi as int),
        least_h == scaled_px(100, f.dpi as int),
        stretchable(f, m),
        left ==> x == if m.cursor.0 <= m.rect.right - least_w {
            m.cursor.0 as int
        } else {
            m.rect.right - least_w
        },
        top ==> y == if m.cursor.1 <= m.rect.bottom - least_h {
            m.cursor.1 as int
        } else {
            m.rect.bottom - least_h
        },
        !left ==> x == m.rect.left,
        !top ==> y == m.rect.top,
        !right ==> w == m.rect.right - x,
        !bottom ==> h == m.rect.bottom - y,
        right ==> w == if m.cursor.0 - m.rect.left >= least_w {
            m.cursor.0 - m.rect.left
        } else {
            least_w
        },
        bottom ==> h == if m.cursor.1 - m.rect.top >= least_h {
            m.cursor.1 - m.rect.top
        } else {
            least_h
        },
    ensures
        ({
            let r = resized(f, d, m, icon_px);
            let across = 2 * scaled_px(10, f.dpi as int) + scaled_px(22, f.dpi as int);
            let down = scaled_px(30, f.dpi as int) + 2 * scaled_px(10, f.dpi as int);
            &&& r.cfg.x == x && r.cfg.y == y
            &&& r.cfg.w == fitted_extent(w, cell_w_of(icon_px as int, f.dpi as int), across, x, m.wa.right as int, least_w) as i32
            &&& r.cfg.h == fitted_extent(h, cell_h_of(icon_px as int, f.dpi as int), down, y, m.wa.bottom as int, least_h) as i32
            &&& r.cfg.id == f.cfg.id && r.cfg.folder == f.cfg.folder && r.entries == f.entries && r.hwnd == f.hwnd
        }),
{
    crate::geometry::lemma_px_range(180, f.dpi as int);
    crate::geometry::lemma_px_range(100, f.dpi as int);
}

/// A fence that is released is neither moved nor resized nor dragged from, and is the same otherwise.
pub proof fn lemma_released(f: Fence)
    ensures
        !in_motion(released(f)),
        released(f).drag_idx is None,
        released(f).cfg == f.cfg,
        released(f).entries == f.entries,
        released(f).selected == f.selected,
        released(f).hover == f.hover,
        released(f).page == f.page,
        released(f).valid == f.valid,
        released(f).hwnd == f.hwnd,
        !in_motion(f) && f.drag_idx is None ==> released(f) == f,
        in_motion(f) <==> f.moving || f.resizing is Some,
{
}

/// The wheel turns as many pages as whole notches fit in the turn, in its direction, and what is left
/// goes the same way.
pub proof fn lemma_notches_exact(acc: int, n: int)
    requires
        acc >= 0 ==> 120 * n <= acc < 120 * n + 120,
        acc < 0 ==> 120 * n - 120 < acc <= 120 * n,
    ensures
        notches(acc) == n,
        notches(-acc) == -n,
{
}

/// Turning the wheel goes on by one page for each notch down and back by one for each notch up, and stops
/// at the first and the last page; turning as far back as on leads back unless an end was reached.
pub proof fn lemma_turned(page: int, pages: int, steps: int)
    requires
        0 <= page < pages,
    ensures
        0 <= page - steps < pages ==> turned_page(page, pages, steps) == page - steps,
        page - steps < 0 ==> turned_page(page, pages, steps) == 0,
        page - steps >= pages ==> turned_page(page, pages, steps) == pages - 1,
        0 <= page - steps < pages ==> turned_page(turned_page(page, pages, steps), pages, -steps) == page,
{
}

/// A turn of the wheel: what it leaves and the whole notches together are what there was, and the page goes on by
/// one for each notch down and back by one for each notch up, as far as there are pages.
pub proof fn lemma_wheeled(f: Fence, raw: int, icon_px: u32, f2: Fence, fx: Seq<Effect>, n: int)
    requires
        wheeled(f, raw, icon_px, f2, fx),
        -0x8000 <= raw < 0x8000,
        -120 < f.wheel_acc < 120,
        f.anim_frames < u32::MAX,
        f.page < f.pages(icon_px),
        f.wheel_acc + raw >= 0 ==> 120 * n <= f.wheel_acc + raw < 120 * n + 120,
        f.wheel_acc + raw < 0 ==> 120 * n - 120 < f.wheel_acc + raw <= 120 * n,
    ensures
        f2.wheel_acc + 120 * n == f.wheel_acc + raw,
        0 <= f.page - n < f.pages(icon_px) ==> f2.page == f.page - n,
        f.page - n < 0 ==> f2.page == 0,
        f.page - n >= f.pages(icon_px) ==> f2.page + 1 == f.pages(icon_px),
        n == 0 ==> f2.top_row == f.top_row && f2.animating == f.animating && fx.len() == 0,
        n != 0 ==> fx.contains(Effect::Render(f.hwnd)),
        f2.page != f.page && !f.animating && f.hwnd != 0 ==> fx.contains(Effect::StartAnimation(f.hwnd)) && f2.anim_from
            == f.top_row,
        f2.page != f.page && !f.animating && f.hwnd != 0 ==> f2.anim_frames == 1,
        f2.page != f.page && (f.animating || f.hwnd == 0) ==> f2.anim_from == f.anim_from && f2.anim_frames == f.anim_frames
            + 1,
        f2.cfg == f.cfg && f2.entries == f.entries && f2.selected == f.selected,
{
    lemma_notches_exact(f.wheel_acc + raw, n);
    lemma_pages(f.entries@.len() as int, f.per_page(icon_px));
    assert(f.entries.len() == f.entries@.len());
    if n != 0 {
        assert(fx[fx.len() - 1] == Effect::Render(f.hwnd));
    }
    if f2.page != f.page && !f.animating && f.hwnd != 0 {
        assert(fx[0] == Effect::StartAnimation(f.hwnd));
    }
}

/// Where nothing is held, the entry under the mouse is the one that is marked, and the fence is drawn exactly
/// when that changes.
pub proof fn lemma_hover(f: Fence, m: Mouse, icon_px: u32, f2: Fence, fx: Seq<Effect>, render: bool, drag: Option<String>)
    requires
        mouse_moved(f, m, icon_px, f2, fx, render, drag),
        !f.moving,
        f.resizing is None,
        f.drag_idx is None,
    ensures
        f2.hover == item_at(f, icon_px, m.x as int, m.y as int, f.cols(icon_px)),
        render <==> f2.hover != f.hover,
        fx.len() == 0,
        drag is None,
        f2.cfg == f.cfg && f2.entries == f.entries && f2.selected == f.selected && f2.page == f.page,
{
}

/// A fence that is held by its title is moved and nothing else, and one that is held by an edge is resized and
/// nothing else; no entry is dragged out of either.
pub proof fn lemma_held(f: Fence, m: Mouse, icon_px: u32, f2: Fence, fx: Seq<Effect>, render: bool, drag: Option<String>)
    requires
        mouse_moved(f, m, icon_px, f2, fx, render, drag),
        f.moving || f.resizing is Some,
    ensures
        drag is None,
        f2.moving == f.moving && f2.resizing == f.resizing,
        f2.entries == f.entries && f2.selected == f.selected && f2.hover == f.hover,
        f.moving ==> f2.cfg.w == f.cfg.w && f2.cfg.h == f.cfg.h && fx == seq![
            Effect::Move { hwnd: f.hwnd, x: f2.cfg.x, y: f2.cfg.y },
        ],
        !f.moving ==> render && fx[0] == (Effect::Place {
            hwnd: f.hwnd,
            x: f2.cfg.x,
            y: f2.cfg.y,
            w: f2.cfg.w,
            h: f2.cfg.h,
        }),
{
}

/// The mouse makes a fence that has faded visible, once, has its leaving reported, and has it drawn.
pub proof fn lemma_noticed(old: Global, i: int, m: Mouse, g: Global, fx: Seq<Effect>, drag: Option<String>)
    requires
        0 <= i < old.fences@.len(),
        moved_over(old, i, m, g, fx, drag),
    ensures
        old.config.ghost_mode ==> g.fences@[i].hover_visible,
        !old.config.ghost_mode ==> g.fences@[i].hover_visible == old.fences@[i].hover_visible,
        old.config.ghost_mode && !old.fences@[i].hover_visible ==> fx.contains(Effect::TrackLeave(old.fences@[i].hwnd))
            && fx.contains(Effect::Render(old.fences@[i].hwnd)),
{
    let f = old.fences@[i];
    if old.config.ghost_mode && !f.hover_visible {
        assert(fx[0] == Effect::TrackLeave(f.hwnd));
        assert(fx[fx.len() - 1] == Effect::Render(f.hwnd));
    }
}

/// A press holds the mouse wherever something is held, and draws the fence wherever the selection may have
/// changed.
pub proof fn lemma_press_asks(f: Fence, m: Mouse, icon_px: u32)
    ensures
        ({
            let p = pressed(f, m, icon_px);
            let fx = press_effects(f, m, icon_px);
            &&& m.y < scaled_px(30, f.dpi as int) ==> fx.contains(Effect::Capture(f.hwnd))
            &&& p.resizing != f.resizing ==> fx.contains(Effect::Capture(f.hwnd))
            &&& p.drag_idx != f.drag_idx ==> fx.contains(Effect::Capture(f.hwnd))
            &&& p.selected != f.selected ==> fx.contains(Effect::Render(f.hwnd))
            &&& forall|j: int|
                0 <= j < fx.len() ==> (#[trigger] fx[j]) == Effect::Capture(f.hwnd) || fx[j] == Effect::Render(f.hwnd)
        }),
{
    let p = pressed(f, m, icon_px);
    let fx = press_effects(f, m, icon_px);
    if m.y < scaled_px(30, f.dpi as int) || p.resizing != f.resizing || p.drag_idx != f.drag_idx {
        assert(fx[0] == Effect::Capture(f.hwnd));
    }
    if p.selected != f.selected {
        assert(fx[fx.len() - 1] == Effect::Render(f.hwnd));
    }
}

/// A window can be grabbed and resized wherever the places that result are within the range of a position.
pub proof fn lemma_can_hold(f: Fence, m: Mouse)
    requires
        f.dpi <= MAX_DPI,
        i32::MIN <= m.cursor.0 - m.rect.left <= i32::MAX,
        i32::MIN <= m.cursor.1 - m.rect.top <= i32::MAX,
        -0x7000_0000 <= m.rect.right,
        -0x7000_0000 <= m.rect.bottom,
    ensures
        grabbable(m),
        stretchable(f, m),
{
    lemma_scaled_px_bound(180, f.dpi as int);
    lemma_scaled_px_bound(100, f.dpi as int);
}

} // verus!
