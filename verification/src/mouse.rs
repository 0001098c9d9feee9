//! What a fence does about the mouse: moving, resizing, dragging entries out, hovering, clicking,
//! and turning pages by the wheel.
use crate::config::FenceCfg;
use crate::effect::{added, extends, Effect};
use crate::fence::{
    border_at, grid_dims, high16, hit_item, item_at, resize_dir_at, signed16, start_page_anim, step_page_anim,
    stepped, stop_effects, sync_page, synced, total_pages, Fence, ResizeDir, WHEEL_NOTCH,
};
use crate::float::{float_round, saturate, Float, SINGLE};
use crate::geometry::{
    cell_h, cell_h_of, cell_w, cell_w_of, clamp_of, drawable, half, half_of, lemma_cell_range, magnet_size_smooth,
    magnet_smooth, margin, max_of, min_h, min_of, min_w, place_within, rail, scaled_px, single, smooth_of, smooth_size_of, title_h,
    window_dpi, Rect, BASE_DPI,
};
use crate::layout::{placed, settle_effects, settle_fence, settled_rect, snappable};
use crate::mouse_laws::is_threshold;
use crate::state::{fence_idx, index_of, lemma_fence_replaced, Global};
use vstd::prelude::*;

verus! {

/// Where the mouse is and what it moves in.
#[derive(Clone, Copy, Debug)]
pub struct Mouse {
    /// In the window.
    pub x: i32,
    pub y: i32,
    /// On the screen.
    pub cursor: (i32, i32),
    /// The window's rectangle.
    pub rect: Rect,
    /// The work area of the window's display.
    pub wa: Rect,
    /// How far the mouse must move for a drag, across and down.
    pub drag_w: i32,
    pub drag_h: i32,
}

/// Where one coordinate of a dragged window goes: pulled toward the grid, and kept in the work area.
pub open spec fn dragged_to(cursor: int, off: int, step: int, lo: int, hi: int, extent: int) -> int {
    clamp_of(
        saturate(float_round(smooth_of(single(cursor - off), step, lo, half_of()))),
        lo,
        max_of(hi - extent, lo),
    )
}

fn drag_to(cursor: i32, off: i32, step: i32, lo: i32, hi: i32, extent: i32) -> (r: i32)
    ensures
        r == dragged_to(cursor as int, off as int, step as int, lo as int, hi as int, extent as int),
{
    let v = Float::from_int(SINGLE, cursor as i128 - off as i128);
    let p: i32 = magnet_smooth(v, step, lo, half()).round_i32(SINGLE);
    place_within(p as i64, lo, hi, extent as i64)
}

/// A fence that is being moved, with its window where the mouse has taken it.
pub open spec fn dragged(f: Fence, m: Mouse, icon_px: u32) -> Fence {
    let x = dragged_to(
        m.cursor.0 as int,
        f.move_off.0 as int,
        cell_w_of(icon_px as int, f.dpi as int),
        m.wa.left as int,
        m.wa.right as int,
        f.cfg.w as int,
    );
    let y = dragged_to(
        m.cursor.1 as int,
        f.move_off.1 as int,
        cell_h_of(icon_px as int, f.dpi as int),
        m.wa.top as int,
        m.wa.bottom as int,
        f.cfg.h as int,
    );
    Fence { cfg: FenceCfg { x: x as i32, y: y as i32, ..f.cfg }, ..f }
}

/// Moves a fence with the mouse.
fn drag_window(f: &mut Fence, m: &Mouse, icon_px: u32, fx: &mut Vec<Effect>)
    requires
        drawable(icon_px, old(f).dpi),
    ensures
        *final(f) == dragged(*old(f), *m, icon_px),
        final(fx)@ == old(fx)@.push(
            Effect::Move { hwnd: old(f).hwnd, x: final(f).cfg.x, y: final(f).cfg.y },
        ),
{
    proof {
        lemma_cell_range(icon_px as int, f.dpi as int);
    }
    let nx: i32 = drag_to(m.cursor.0, f.move_off.0, cell_w(icon_px, f.dpi), m.wa.left, m.wa.right, f.cfg.w);
    let ny: i32 = drag_to(m.cursor.1, f.move_off.1, cell_h(icon_px, f.dpi), m.wa.top, m.wa.bottom, f.cfg.h);
    fx.push(Effect::Move { hwnd: f.hwnd, x: nx, y: ny });
    f.cfg.x = nx;
    f.cfg.y = ny;
}

/// Whether a resize direction moves the right, the left, the lower, or the upper edge.
pub open spec fn moves_right(d: ResizeDir) -> bool {
    d == ResizeDir::E || d == ResizeDir::NE || d == ResizeDir::SE
}

pub open spec fn moves_left(d: ResizeDir) -> bool {
    d == ResizeDir::W || d == ResizeDir::NW || d == ResizeDir::SW
}

pub open spec fn moves_bottom(d: ResizeDir) -> bool {
    d == ResizeDir::S || d == ResizeDir::SE || d == ResizeDir::SW
}

pub open spec fn moves_top(d: ResizeDir) -> bool {
    d == ResizeDir::N || d == ResizeDir::NE || d == ResizeDir::NW
}

/// The near edge and the extent of a window between `lo` and `hi` when the mouse moves one of its
/// edges to `cursor`; the extent is at least `least`, and the other edge stays.
pub open spec fn stretched(near: bool, far: bool, lo: int, hi: int, cursor: int, least: int) -> (int, int) {
    if far {
        (lo, max_of(cursor - lo, least))
    } else if near {
        let at = min_of(cursor, hi - least);
        (at, hi - at)
    } else {
        (lo, hi - lo)
    }
}

/// An extent that is being resized: pulled toward a whole number of cells, and kept in the work area
/// as far as the least size allows.
pub open spec fn fitted_extent(extent: int, cell: int, frame: int, at: int, hi: int, least: int) -> int {
    min_of(
        saturate(float_round(smooth_size_of(single(extent), cell, frame, half_of()))),
        max_of(hi - at, least),
    )
}

fn stretch(near: bool, far: bool, lo: i32, hi: i32, cursor: i32, least: i32) -> (r: (i32, i64))
    requires
        least >= 0,
        near ==> hi - least >= i32::MIN,
    ensures
        (r.0 as int, r.1 as int) == stretched(near, far, lo as int, hi as int, cursor as int, least as int),
        -0x1_0000_0000 <= r.1 <= 0x1_0000_0000,
{
    if far {
        let v: i64 = cursor as i64 - lo as i64;
        (lo, if v >= least as i64 { v } else { least as i64 })
    } else if near {
        let last: i32 = hi - least;
        let at: i32 = if cursor <= last { cursor } else { last };
        (at, hi as i64 - at as i64)
    } else {
        (lo, hi as i64 - lo as i64)
    }
}

fn fit_extent(extent: i64, cell: i32, frame: i32, at: i32, hi: i32, least: i32) -> (r: i32)
    requires
        -0x1_0000_0000 <= extent <= 0x1_0000_0000,
        least >= 0,
    ensures
        r == fitted_extent(extent as int, cell as int, frame as int, at as int, hi as int, least as int),
{
    let v = Float::from_int(SINGLE, extent as i128);
    let s: i32 = magnet_size_smooth(v, cell, frame, half()).round_i32(SINGLE);
    let room: i64 = hi as i64 - at as i64;
    let room: i64 = if room >= least as i64 { room } else { least as i64 };
    if s as i64 <= room {
        s
    } else {
        room as i32
    }
}

/// Whether the edges of a window leave room for the least size within the machine's integers.
pub open spec fn stretchable(f: Fence, m: Mouse) -> bool {
    &&& m.rect.right - scaled_px(180, f.dpi as int) >= i32::MIN
    &&& m.rect.bottom - scaled_px(100, f.dpi as int) >= i32::MIN
}

/// Whether the edges of a window leave room for the least size within the machine's integers.
pub fn can_stretch(f: &Fence, m: &Mouse) -> (r: bool)
    ensures
        r == stretchable(*f, *m),
{
    m.rect.right as i64 - min_w(f.dpi) as i64 >= i32::MIN as i64 && m.rect.bottom as i64 - min_h(f.dpi) as i64
        >= i32::MIN as i64
}

/// A fence that is being resized, with the rectangle that the mouse has given it.
pub open spec fn resized(f: Fence, d: ResizeDir, m: Mouse, icon_px: u32) -> Fence {
    let dpi = f.dpi as int;
    let least_w = scaled_px(180, dpi);
    let least_h = scaled_px(100, dpi);
    let across = stretched(
        moves_left(d),
        moves_right(d),
        m.rect.left as int,
        m.rect.right as int,
        m.cursor.0 as int,
        least_w,
    );
    let down = stretched(
        moves_top(d),
        moves_bottom(d),
        m.rect.top as int,
        m.rect.bottom as int,
        m.cursor.1 as int,
        least_h,
    );
    let w = fitted_extent(
        across.1,
        cell_w_of(icon_px as int, dpi),
        2 * scaled_px(10, dpi) + scaled_px(22, dpi),
        across.0,
        m.wa.right as int,
        least_w,
    );
    let h = fitted_extent(
        down.1,
        cell_h_of(icon_px as int, dpi),
        scaled_px(30, dpi) + 2 * scaled_px(10, dpi),
        down.0,
        m.wa.bottom as int,
        least_h,
    );
    placed(f, across.0 as i32, down.0 as i32, w as i32, h as i32)
}

fn is_left(d: ResizeDir) -> (r: bool)
    ensures
        r == moves_left(d),
{
    match d {
        ResizeDir::W | ResizeDir::NW | ResizeDir::SW => true,
        _ => false,
    }
}

fn is_right(d: ResizeDir) -> (r: bool)
    ensures
        r == moves_right(d),
{
    match d {
        ResizeDir::E | ResizeDir::NE | ResizeDir::SE => true,
        _ => false,
    }
}

fn is_top(d: ResizeDir) -> (r: bool)
    ensures
        r == moves_top(d),
{
    match d {
        ResizeDir::N | ResizeDir::NE | ResizeDir::NW => true,
        _ => false,
    }
}

fn is_bottom(d: ResizeDir) -> (r: bool)
    ensures
        r == moves_bottom(d),
{
    match d {
        ResizeDir::S | ResizeDir::SE | ResizeDir::SW => true,
        _ => false,
    }
}

/// Resizes a fence with the mouse.
fn drag_border(f: &mut Fence, d: ResizeDir, m: &Mouse, icon_px: u32, fx: &mut Vec<Effect>)
    requires
        drawable(icon_px, old(f).dpi),
        old(f).wf(),
        stretchable(*old(f), *m),
    ensures
        synced(resized(*old(f), d, *m, icon_px), icon_px, *final(f)),
        final(f).wf(),
        final(fx)@ == old(fx)@ + seq![
            Effect::Place {
                hwnd: old(f).hwnd,
                x: final(f).cfg.x,
                y: final(f).cfg.y,
                w: final(f).cfg.w,
                h: final(f).cfg.h,
            },
        ] + stop_effects(old(f).hwnd),
{
    let ghost f0 = *f;
    let ghost fx0 = fx@;
    proof {
        lemma_cell_range(icon_px as int, f.dpi as int);
    }
    let dpi: u32 = f.dpi;
    let least_w: i32 = min_w(dpi);
    let least_h: i32 = min_h(dpi);
    let (nx, ew) = stretch(is_left(d), is_right(d), m.rect.left, m.rect.right, m.cursor.0, least_w);
    let (ny, eh) = stretch(is_top(d), is_bottom(d), m.rect.top, m.rect.bottom, m.cursor.1, least_h);
    let nw: i32 = fit_extent(ew, cell_w(icon_px, dpi), 2 * margin(dpi) + rail(dpi), nx, m.wa.right, least_w);
    let nh: i32 = fit_extent(eh, cell_h(icon_px, dpi), title_h(dpi) + 2 * margin(dpi), ny, m.wa.bottom, least_h);
    fx.push(Effect::Place { hwnd: f.hwnd, x: nx, y: ny, w: nw, h: nh });
    f.cfg.x = nx;
    f.cfg.y = ny;
    f.cfg.w = nw;
    f.cfg.h = nh;
    assert(*f == resized(f0, d, *m, icon_px));
    sync_page(f, icon_px, fx);
    assert(fx@ =~= fx0 + seq![Effect::Place { hwnd: f.hwnd, x: nx, y: ny, w: nw, h: nh }] + stop_effects(f0.hwnd));
}

/// Whether the mouse has moved far enough for a drag.
pub open spec fn past_threshold(f: Fence, m: Mouse) -> bool {
    let t = max_of(max_of(m.drag_w as int, m.drag_h as int), 4);
    let dx = m.x - f.drag_down.0;
    let dy = m.y - f.drag_down.1;
    dx >= t || -dx >= t || dy >= t || -dy >= t
}

fn is_past_threshold(f: &Fence, m: &Mouse) -> (r: bool)
    ensures
        r == past_threshold(*f, *m),
        forall|t: int| #[trigger]
            is_threshold(*m, t) ==> r == (m.x - f.drag_down.0 >= t || f.drag_down.0 - m.x >= t || m.y - f.drag_down.1 >= t
                || f.drag_down.1 - m.y >= t),
{
    let t: i32 = if m.drag_w >= m.drag_h { m.drag_w } else { m.drag_h };
    let t: i64 = if t >= 4 { t as i64 } else { 4 };
    let dx: i64 = m.x as i64 - f.drag_down.0 as i64;
    let dy: i64 = m.y as i64 - f.drag_down.1 as i64;
    dx >= t || -dx >= t || dy >= t || -dy >= t
}

/// What a move of the mouse does to a fence.
pub struct MoveOutcome {
    /// Whether the fence is drawn anew.
    pub render: bool,
    /// The path of the entry that is dragged out.
    pub drag: Option<String>,
}

/// The fence once the mouse is over it: one that fades is shown.
pub open spec fn noticed(f: Fence, ghost_mode: bool) -> Fence {
    Fence { hover_visible: f.hover_visible || ghost_mode, ..f }
}

/// The fence after the mouse has moved over it, where nothing is dragged.
pub open spec fn hovered(f: Fence, m: Mouse, icon_px: u32) -> Fence {
    Fence { hover: item_at(f, icon_px, m.x as int, m.y as int, f.cols(icon_px)), ..f }
}

/// The path of the entry that is dragged out.
pub open spec fn dragged_path(f: Fence) -> Option<String> {
    match f.drag_idx {
        Some(i) => if i < f.entries@.len() {
            Some(f.entries@[i as int].path)
        } else {
            None
        },
        None => None,
    }
}

/// Whether `f2` is what a move of the mouse makes of a fence, with what it asks for: the mouse moves
/// the fence, resizes it, drags an entry out or hovers over it.
pub open spec fn mouse_moved(
    f: Fence,
    m: Mouse,
    icon_px: u32,
    f2: Fence,
    fx: Seq<Effect>,
    render: bool,
    drag: Option<String>,
) -> bool {
    if f.moving {
        &&& f2 == dragged(f, m, icon_px)
        &&& fx == seq![Effect::Move { hwnd: f.hwnd, x: f2.cfg.x, y: f2.cfg.y }]
        &&& !render
        &&& drag is None
    } else if f.resizing is Some {
        &&& synced(resized(f, f.resizing->0, m, icon_px), icon_px, f2)
        &&& fx == seq![
            Effect::Place { hwnd: f.hwnd, x: f2.cfg.x, y: f2.cfg.y, w: f2.cfg.w, h: f2.cfg.h },
        ] + stop_effects(f.hwnd)
        &&& render
        &&& drag is None
    } else if f.drag_idx is Some {
        if past_threshold(f, m) {
            &&& f2 == (Fence { drag_idx: None, hover: None, ..f })
            &&& fx == (if dragged_path(f) is Some { seq![Effect::ReleaseCapture] } else { Seq::empty() })
            &&& render
            &&& drag == dragged_path(f)
        } else {
            f2 == f && fx == Seq::<Effect>::empty() && !render && drag is None
        }
    } else {
        &&& f2 == hovered(f, m, icon_px)
        &&& fx == Seq::<Effect>::empty()
        &&& render == (f2.hover != f.hover)
        &&& drag is None
    }
}

fn same_index(a: Option<usize>, b: Option<usize>) -> (r: bool)
    ensures
        r == (a == b),
{
    match (a, b) {
        (Some(x), Some(y)) => x == y,
        (None, None) => true,
        _ => false,
    }
}

fn move_over(f: &mut Fence, m: &Mouse, icon_px: u32, fx: &mut Vec<Effect>) -> (r: MoveOutcome)
    requires
        drawable(icon_px, old(f).dpi),
        old(f).wf(),
        !old(f).moving && old(f).resizing is Some ==> stretchable(*old(f), *m),
    ensures
        final(f).wf(),
        extends(old(fx)@, final(fx)@),
        mouse_moved(
            *old(f),
            *m,
            icon_px,
            *final(f),
            added(old(fx)@, final(fx)@),
            r.render,
            r.drag,
        ),
        final(f).dpi == old(f).dpi,
{
    let ghost f0 = *f;
    let ghost fx0 = fx@;
    if f.moving {
        drag_window(f, m, icon_px, fx);
        proof {
            assert(fx@.take(fx0.len() as int) =~= fx0);
            assert(fx@.skip(fx0.len() as int) =~= seq![Effect::Move { hwnd: f0.hwnd, x: f.cfg.x, y: f.cfg.y }]);
        }
        return MoveOutcome { render: false, drag: None };
    }
    if let Some(d) = f.resizing {
        drag_border(f, d, m, icon_px, fx);
        proof {
            assert(fx@.take(fx0.len() as int) =~= fx0);
            assert(fx@.skip(fx0.len() as int) =~= seq![
                Effect::Place { hwnd: f0.hwnd, x: f.cfg.x, y: f.cfg.y, w: f.cfg.w, h: f.cfg.h },
            ] + stop_effects(f0.hwnd));
        }
        return MoveOutcome { render: true, drag: None };
    }
    if let Some(i) = f.drag_idx {
        if is_past_threshold(f, m) {
            f.drag_idx = None;
            f.hover = None;
            let drag: Option<String> = if i < f.entries.len() {
                fx.push(Effect::ReleaseCapture);
                Some(f.entries[i].path.clone())
            } else {
                None
            };
            proof {
                assert(fx@.take(fx0.len() as int) =~= fx0);
                assert(fx@.skip(fx0.len() as int) =~= (if dragged_path(f0) is Some {
                    seq![Effect::ReleaseCapture]
                } else {
                    Seq::empty()
                }));
            }
            return MoveOutcome { render: true, drag };
        }
        proof {
            assert(fx@.take(fx0.len() as int) =~= fx0);
            assert(fx@.skip(fx0.len() as int) =~= Seq::<Effect>::empty());
        }
        return MoveOutcome { render: false, drag: None };
    }
    let (cols, _) = grid_dims(f, icon_px);
    let hover = hit_item(f, icon_px, m.x, m.y, cols);
    let changed: bool = !same_index(hover, f.hover);
    f.hover = hover;
    proof {
        assert(fx@.take(fx0.len() as int) =~= fx0);
        assert(fx@.skip(fx0.len() as int) =~= Seq::<Effect>::empty());
    }
    MoveOutcome { render: changed, drag: None }
}

/// What a fade-in asks for.
pub open spec fn notice_effects(f: Fence, ghost_mode: bool) -> Seq<Effect> {
    if ghost_mode && !f.hover_visible {
        seq![Effect::TrackLeave(f.hwnd)]
    } else {
        Seq::empty()
    }
}

/// Whether `g` is `old` after a move of the mouse over a fence, with what that asks for.
pub open spec fn moved_over(old: Global, i: int, m: Mouse, g: Global, fx: Seq<Effect>, drag: Option<String>) -> bool {
    let f = old.fences@[i];
    let ghost_mode = old.config.ghost_mode;
    exists|mid: Seq<Effect>, render: bool| #[trigger]
        mouse_moved(noticed(f, ghost_mode), m, old.icon_px, g.fences@[i], mid, render, drag) && fx
            == notice_effects(f, ghost_mode) + mid + (if render || (ghost_mode && !f.hover_visible) {
            seq![Effect::Render(f.hwnd)]
        } else {
            Seq::empty()
        })
}

/// The mouse moves over a fence. The result is the path of the entry that is dragged out, if any: the
/// drag itself is up to the caller, after which the fence is refreshed.
#[verifier::rlimit(40)]
pub fn on_mouse_move(g: &mut Global, hwnd: u64, m: &Mouse, fx: &mut Vec<Effect>) -> (r: Option<String>)
    requires
        old(g).wf(),
        match index_of(old(g).fences@, hwnd) {
            Some(i) => !old(g).fences@[i as int].moving && old(g).fences@[i as int].resizing is Some ==> stretchable(
                old(g).fences@[i as int],
                *m,
            ),
            None => true,
        },
    ensures
        final(g).wf(),
        extends(old(fx)@, final(fx)@),
        match index_of(old(g).fences@, hwnd) {
            Some(i) => {
                &&& final(g).only_fence_changed(*old(g), i as int)
                &&& moved_over(
                    *old(g),
                    i as int,
                    *m,
                    *final(g),
                    added(old(fx)@, final(fx)@),
                    r,
                )
            },
            None => *final(g) == *old(g) && final(fx)@ == old(fx)@ && r is None,
        },
{
    let ghost before = *g;
    let ghost fx0 = fx@;
    match fence_idx(g, hwnd) {
        Some(i) => {
            let ghost_mode: bool = g.config.ghost_mode;
            let icon_px: u32 = g.icon_px;
            let mut render: bool = false;
            assert(g.fences@[i as int].wf());
            if ghost_mode && !g.fences[i].hover_visible {
                g.fences[i].hover_visible = true;
                fx.push(Effect::TrackLeave(hwnd));
                render = true;
            }
            let ghost f0 = before.fences@[i as int];
            assert(g.fences@[i as int] == noticed(f0, ghost_mode));
            let ghost fx1 = fx@;
            let out = move_over(&mut g.fences[i], m, icon_px, fx);
            let ghost mid = fx@.skip(fx1.len() as int);
            assert(fx@ =~= fx1 + mid) by {
                assert(fx@ =~= fx@.take(fx1.len() as int) + mid);
            }
            if render || out.render {
                fx.push(Effect::Render(hwnd));
            }
            proof {
                assert(g.fences@ =~= before.fences@.update(i as int, g.fences@[i as int]));
                lemma_fence_replaced(before, *g, i as int);
                assert(fx@.take(fx0.len() as int) =~= fx0);
                assert(fx@.skip(fx0.len() as int) =~= notice_effects(f0, ghost_mode) + mid + (if out.render || (
                ghost_mode && !f0.hover_visible) {
                    seq![Effect::Render(f0.hwnd)]
                } else {
                    Seq::empty()
                }));
                assert(mouse_moved(
                    noticed(f0, ghost_mode),
                    *m,
                    icon_px,
                    g.fences@[i as int],
                    mid,
                    out.render,
                    out.drag,
                ));
            }
            out.drag
        },
        None => {
            assert(fx@.take(fx0.len() as int) =~= fx0);
            None
        },
    }
}

/// A fence that is moved stays in the work area, as far as it is not larger.
pub proof fn lemma_drag_inside(cursor: int, off: int, step: int, lo: int, hi: int, extent: int)
    requires
        lo + extent <= hi,
    ensures
        lo <= dragged_to(cursor, off, step, lo, hi, extent),
        dragged_to(cursor, off, step, lo, hi, extent) + extent <= hi,
{
}

/// While a fence is resized, the edge that the mouse does not hold stays, and the extent does not
/// fall below the least one.
pub proof fn lemma_stretch(near: bool, far: bool, lo: int, hi: int, cursor: int, least: int)
    ensures
        far ==> stretched(near, far, lo, hi, cursor, least).0 == lo,
        near && !far ==> stretched(near, far, lo, hi, cursor, least).0 + stretched(
            near,
            far,
            lo,
            hi,
            cursor,
            least,
        ).1 == hi,
        near || far ==> stretched(near, far, lo, hi, cursor, least).1 >= least,
{
}

/// What a press of the mouse does to a fence: on the title it begins a move, on a border a resize, on
/// an entry it selects the entry, which may then be dragged out, and elsewhere it ends a selection.
pub open spec fn pressed(f: Fence, m: Mouse, icon_px: u32) -> Fence {
    let dir = border_at(f.cfg.w as int, f.cfg.h as int, scaled_px(8, f.dpi as int), m.x as int, m.y as int);
    let item = item_at(f, icon_px, m.x as int, m.y as int, f.cols(icon_px));
    if m.y < scaled_px(30, f.dpi as int) {
        Fence {
            moving: true,
            move_off: ((m.cursor.0 - m.rect.left) as i32, (m.cursor.1 - m.rect.top) as i32),
            ..f
        }
    } else if dir is Some {
        Fence { resizing: dir, ..f }
    } else if item is Some {
        Fence { selected: item, drag_idx: item, drag_down: (m.x, m.y), ..f }
    } else {
        Fence { selected: None, ..f }
    }
}

/// What a press of the mouse asks for.
pub open spec fn press_effects(f: Fence, m: Mouse, icon_px: u32) -> Seq<Effect> {
    let dir = border_at(f.cfg.w as int, f.cfg.h as int, scaled_px(8, f.dpi as int), m.x as int, m.y as int);
    let item = item_at(f, icon_px, m.x as int, m.y as int, f.cols(icon_px));
    if m.y < scaled_px(30, f.dpi as int) || dir is Some {
        seq![Effect::Capture(f.hwnd)]
    } else if item is Some {
        seq![Effect::Capture(f.hwnd), Effect::Render(f.hwnd)]
    } else if f.selected is Some {
        seq![Effect::Render(f.hwnd)]
    } else {
        Seq::empty()
    }
}

/// Whether the place at which a window is grabbed is within the machine's integers.
pub open spec fn grabbable(m: Mouse) -> bool {
    &&& i32::MIN <= m.cursor.0 - m.rect.left <= i32::MAX
    &&& i32::MIN <= m.cursor.1 - m.rect.top <= i32::MAX
}

/// Whether the place at which a window is grabbed is within the machine's integers.
pub fn can_grab(m: &Mouse) -> (r: bool)
    ensures
        r == grabbable(*m),
{
    let dx: i64 = m.cursor.0 as i64 - m.rect.left as i64;
    let dy: i64 = m.cursor.1 as i64 - m.rect.top as i64;
    i32::MIN as i64 <= dx && dx <= i32::MAX as i64 && i32::MIN as i64 <= dy && dy <= i32::MAX as i64
}

fn press(f: &mut Fence, m: &Mouse, icon_px: u32, fx: &mut Vec<Effect>)
    requires
        drawable(icon_px, old(f).dpi),
        old(f).wf(),
        m.y < scaled_px(30, old(f).dpi as int) ==> grabbable(*m),
    ensures
        *final(f) == pressed(*old(f), *m, icon_px),
        final(f).wf(),
        final(fx)@ == old(fx)@ + press_effects(*old(f), *m, icon_px),
{
    let ghost f0 = *f;
    let ghost fx0 = fx@;
    if m.y < title_h(f.dpi) {
        f.moving = true;
        f.move_off = (m.cursor.0 - m.rect.left, m.cursor.1 - m.rect.top);
        fx.push(Effect::Capture(f.hwnd));
    } else if let Some(d) = resize_dir_at(f, m.x, m.y) {
        f.resizing = Some(d);
        fx.push(Effect::Capture(f.hwnd));
    } else {
        let (cols, _) = grid_dims(f, icon_px);
        match hit_item(f, icon_px, m.x, m.y, cols) {
            Some(i) => {
                f.selected = Some(i);
                f.drag_idx = Some(i);
                f.drag_down = (m.x, m.y);
                fx.push(Effect::Capture(f.hwnd));
                fx.push(Effect::Render(f.hwnd));
            },
            None => {
                if f.selected.is_some() {
                    f.selected = None;
                    fx.push(Effect::Render(f.hwnd));
                }
            },
        }
    }
    assert(fx@ =~= fx0 + press_effects(f0, *m, icon_px));
}

/// The mouse is pressed on a fence, which comes to the front.
pub fn on_button_down(g: &mut Global, hwnd: u64, m: &Mouse, fx: &mut Vec<Effect>)
    requires
        old(g).wf(),
        match index_of(old(g).fences@, hwnd) {
            Some(i) => m.y < scaled_px(30, old(g).fences@[i as int].dpi as int) ==> grabbable(*m),
            None => true,
        },
    ensures
        final(g).wf(),
        match index_of(old(g).fences@, hwnd) {
            Some(i) => {
                let f = old(g).fences@[i as int];
                &&& final(g).only_fence_changed(*old(g), i as int)
                &&& final(g).fences@[i as int] == pressed(f, *m, old(g).icon_px)
                &&& final(fx)@ == old(fx)@ + seq![Effect::Focus(hwnd)] + press_effects(f, *m, old(g).icon_px)
            },
            None => *final(g) == *old(g) && final(fx)@ == old(fx)@.push(Effect::Focus(hwnd)),
        },
{
    let ghost before = *g;
    let ghost fx0 = fx@;
    fx.push(Effect::Focus(hwnd));
    if let Some(i) = fence_idx(g, hwnd) {
        let icon_px: u32 = g.icon_px;
        assert(g.fences@[i as int].wf());
        press(&mut g.fences[i], m, icon_px, fx);
        proof {
            assert(g.fences@ =~= before.fences@.update(i as int, g.fences@[i as int]));
            lemma_fence_replaced(before, *g, i as int);
            assert(fx@ =~= fx0 + seq![Effect::Focus(hwnd)] + press_effects(before.fences@[i as int], *m, icon_px));
        }
    }
}

/// A fence after the mouse was released.
pub open spec fn released(f: Fence) -> Fence {
    Fence { moving: false, resizing: None, drag_idx: None, ..f }
}

/// Whether a fence is being moved or resized.
pub open spec fn in_motion(f: Fence) -> bool {
    f.moving || f.resizing is Some
}

/// The mouse is released: a fence that was moved or resized settles.
pub fn on_button_up(g: &mut Global, hwnd: u64, wa: Rect, fx: &mut Vec<Effect>)
    requires
        old(g).wf(),
        match index_of(old(g).fences@, hwnd) {
            Some(i) => in_motion(old(g).fences@[i as int]) ==> snappable(
                old(g).fences@[i as int],
                old(g).icon_px,
            ),
            None => true,
        },
    ensures
        final(g).wf(),
        match index_of(old(g).fences@, hwnd) {
            Some(i) => {
                let f = old(g).fences@[i as int];
                let release = if in_motion(f) || f.drag_idx is Some {
                    seq![Effect::ReleaseCapture]
                } else {
                    Seq::empty()
                };
                if in_motion(f) {
                    let let_go = old(g).fences@.update(i as int, released(f));
                    let r = settled_rect(let_go, i, old(g).icon_px, wa);
                    &&& final(g).only_fences_changed(*old(g))
                    &&& final(g).fences@ == old(g).fences@.update(i as int, final(g).fences@[i as int])
                    &&& synced(
                        placed(released(f), r.0 as i32, r.1 as i32, r.2 as i32, r.3 as i32),
                        old(g).icon_px,
                        final(g).fences@[i as int],
                    )
                    &&& final(g).config.fences@ == crate::fence::snapshots(final(g).fences@)
                    &&& final(fx)@ == old(fx)@ + release + settle_effects(
                        hwnd,
                        r.0 as i32,
                        r.1 as i32,
                        r.2 as i32,
                        r.3 as i32,
                    )
                } else {
                    &&& final(g).only_fence_changed(*old(g), i as int)
                    &&& final(g).fences@[i as int] == released(f)
                    &&& final(fx)@ == old(fx)@ + release
                }
            },
            None => *final(g) == *old(g) && final(fx)@ == old(fx)@,
        },
{
    let ghost before = *g;
    let ghost fx0 = fx@;
    if let Some(i) = fence_idx(g, hwnd) {
        assert(g.fences@[i as int].wf());
        let was_drag: bool = g.fences[i].moving || g.fences[i].resizing.is_some();
        let had_item_press: bool = g.fences[i].drag_idx.is_some();
        g.fences[i].moving = false;
        g.fences[i].resizing = None;
        g.fences[i].drag_idx = None;
        if was_drag || had_item_press {
            fx.push(Effect::ReleaseCapture);
        }
        let ghost f = before.fences@[i as int];
        proof {
            assert(g.fences@[i as int] == released(f));
            assert(g.fences@ =~= before.fences@.update(i as int, released(f)));
            lemma_fence_replaced(before, *g, i as int);
        }
        let ghost release = if in_motion(f) || f.drag_idx is Some {
            seq![Effect::ReleaseCapture]
        } else {
            Seq::empty()
        };
        assert(fx@ =~= fx0 + release);
        if was_drag {
            settle_fence(g, i, wa, fx);
            assert(g.fences@ =~= before.fences@.update(i as int, g.fences@[i as int]));
        }
    }
}

/// A double click on a fence: on the title the fence is renamed, on an entry the entry is opened.
pub fn on_double_click(g: &Global, hwnd: u64, reported_dpi: u32, x: i32, y: i32, fx: &mut Vec<Effect>)
    requires
        g.wf(),
    ensures
        final(fx)@ == (if y < scaled_px(30, max_of(reported_dpi as int, BASE_DPI as int)) {
            old(fx)@.push(Effect::Rename(hwnd))
        } else {
            match index_of(g.fences@, hwnd) {
                Some(i) => {
                    let f = g.fences@[i as int];
                    match item_at(f, g.icon_px, x as int, y as int, f.cols(g.icon_px)) {
                        Some(k) => old(fx)@.push(Effect::Open(f.entries@[k as int].path)),
                        None => old(fx)@,
                    }
                },
                None => old(fx)@,
            }
        }),
{
    if y < title_h(window_dpi(reported_dpi)) {
        fx.push(Effect::Rename(hwnd));
        return;
    }
    if let Some(i) = fence_idx(g, hwnd) {
        let f = &g.fences[i];
        assert(g.fences@[i as int].wf());
        let (cols, _) = grid_dims(f, g.icon_px);
        if let Some(k) = hit_item(f, g.icon_px, x, y, cols) {
            fx.push(Effect::Open(f.entries[k].path.clone()));
        }
    }
}

/// How many whole notches the wheel has turned.
pub open spec fn notches(acc: int) -> int {
    if acc >= 0 {
        acc / WHEEL_NOTCH as int
    } else {
        -((-acc) / WHEEL_NOTCH as int)
    }
}

/// The page that a turn of the wheel leads to: back for a positive turn, on for a negative one.
pub open spec fn turned_page(page: int, pages: int, steps: int) -> int {
    clamp_of(page - steps, 0, pages - 1)
}

/// A fence whose animation to its page has begun, unless one runs.
pub open spec fn begun(f: Fence) -> Fence {
    if !f.animating && f.hwnd != 0 {
        Fence { animating: true, anim_frames: 0, anim_from: f.top_row, ..f }
    } else {
        f
    }
}

/// Whether one more frame of a fence's animation can be counted. Only without a window does the count
/// go on after the animation.
pub open spec fn countable(f: Fence) -> bool {
    f.hwnd != 0 || f.anim_frames < u32::MAX
}

/// Whether `f2` is what a turn of the wheel makes of a fence, with what it asks for: every whole notch
/// turns a page, what is left is kept, and the animation makes its first step at once.
pub open spec fn wheeled(f: Fence, raw: int, icon_px: u32, f2: Fence, fx: Seq<Effect>) -> bool {
    let acc = f.wheel_acc + raw;
    let steps = notches(acc);
    let kept = (Fence { wheel_acc: (acc - steps * WHEEL_NOTCH) as i32, ..f });
    let page = turned_page(f.page as int, f.pages(icon_px), steps);
    if steps == 0 {
        f2 == kept && fx == Seq::<Effect>::empty()
    } else if page == f.page {
        f2 == kept && fx == seq![Effect::Render(f.hwnd)]
    } else {
        let on = begun(Fence { page: page as usize, ..kept });
        &&& stepped(on, icon_px, f2)
        &&& fx == (if !f.animating && f.hwnd != 0 {
            seq![Effect::StartAnimation(f.hwnd)]
        } else {
            Seq::empty()
        }) + (if f2.animating {
            Seq::empty()
        } else {
            stop_effects(f.hwnd)
        }) + seq![Effect::Render(f.hwnd)]
    }
}

proof fn lemma_notches(acc: int)
    ensures
        -WHEEL_NOTCH < acc - notches(acc) * WHEEL_NOTCH < WHEEL_NOTCH,
        acc >= 0 ==> 0 <= notches(acc) <= acc,
        acc <= 0 ==> acc <= notches(acc) <= 0,
{
}

fn turn_page(f: &mut Fence, page: usize, icon_px: u32, fx: &mut Vec<Effect>)
    requires
        drawable(icon_px, old(f).dpi),
        old(f).wf(),
        countable(*old(f)),
    ensures
        stepped(begun(Fence { page, ..*old(f) }), icon_px, *final(f)),
        final(f).wf(),
        final(fx)@ == old(fx)@ + (if !old(f).animating && old(f).hwnd != 0 {
            seq![Effect::StartAnimation(old(f).hwnd)]
        } else {
            Seq::empty()
        }) + (if final(f).animating {
            Seq::empty()
        } else {
            stop_effects(old(f).hwnd)
        }),
{
    let ghost f0 = *f;
    let ghost fx0 = fx@;
    f.page = page;
    start_page_anim(f, fx);
    step_page_anim(f, icon_px, fx);
    assert(fx@ =~= fx0 + (if !f0.animating && f0.hwnd != 0 {
        seq![Effect::StartAnimation(f0.hwnd)]
    } else {
        Seq::empty()
    }) + (if f.animating {
        Seq::empty()
    } else {
        stop_effects(f0.hwnd)
    }));
}

fn count_notches(acc: i32) -> (r: i32)
    requires
        -0x1_0000 <= acc <= 0x1_0000,
    ensures
        r == notches(acc as int),
        -WHEEL_NOTCH < acc - r * WHEEL_NOTCH < WHEEL_NOTCH,
        -0x1_0000 <= r <= 0x1_0000,
{
    if acc >= 0 {
        acc / WHEEL_NOTCH
    } else {
        -((-acc) / WHEEL_NOTCH)
    }
}

fn page_after(f: &Fence, steps: i32, icon_px: u32) -> (r: usize)
    requires
        drawable(icon_px, f.dpi),
    ensures
        r == turned_page(f.page as int, f.pages(icon_px), steps as int),
{
    let pages: usize = total_pages(f, icon_px);
    let want: i128 = f.page as i128 - steps as i128;
    if want < 0 {
        0
    } else if want > pages as i128 - 1 {
        pages - 1
    } else {
        want as usize
    }
}

#[verifier::rlimit(40)]
fn wheel(f: &mut Fence, raw: i32, icon_px: u32, fx: &mut Vec<Effect>)
    requires
        drawable(icon_px, old(f).dpi),
        old(f).wf(),
        countable(*old(f)),
        -0x8000 <= raw < 0x8000,
    ensures
        final(f).wf(),
        final(f).dpi == old(f).dpi,
        extends(old(fx)@, final(fx)@),
        wheeled(*old(f), raw as int, icon_px, *final(f), added(old(fx)@, final(fx)@)),
{
    let ghost f0 = *f;
    let ghost fx0 = fx@;
    let acc: i32 = f.wheel_acc + raw;
    let steps: i32 = count_notches(acc);
    f.wheel_acc = acc - steps * WHEEL_NOTCH;
    let ghost kept = *f;
    assert(kept == (Fence { wheel_acc: (acc - steps * WHEEL_NOTCH) as i32, ..f0 }));
    if steps == 0 {
        proof {
            assert(fx@.take(fx0.len() as int) =~= fx0);
            assert(added(fx0, fx@) =~= Seq::<Effect>::empty());
        }
        return;
    }
    let page: usize = page_after(f, steps, icon_px);
    assert(kept.pages(icon_px) == f0.pages(icon_px));
    if page != f.page {
        turn_page(f, page, icon_px, fx);
    }
    fx.push(Effect::Render(f.hwnd));
    proof {
        assert(fx@.take(fx0.len() as int) =~= fx0);
        if page == f0.page {
            assert(added(fx0, fx@) =~= seq![Effect::Render(f0.hwnd)]);
        } else {
            assert(added(fx0, fx@) =~= (if !f0.animating && f0.hwnd != 0 {
                seq![Effect::StartAnimation(f0.hwnd)]
            } else {
                Seq::empty()
            }) + (if f.animating {
                Seq::empty()
            } else {
                stop_effects(f0.hwnd)
            }) + seq![Effect::Render(f0.hwnd)]);
        }
    }
}

/// The wheel is turned over a fence.
pub fn on_wheel(g: &mut Global, hwnd: u64, wparam: u64, fx: &mut Vec<Effect>)
    requires
        old(g).wf(),
        match index_of(old(g).fences@, hwnd) {
            Some(i) => countable(old(g).fences@[i as int]),
            None => true,
        },
    ensures
        final(g).wf(),
        extends(old(fx)@, final(fx)@),
        match index_of(old(g).fences@, hwnd) {
            Some(i) => if signed16(wparam as int / 0x1_0000) == 0 {
                *final(g) == *old(g) && final(fx)@ == old(fx)@
            } else {
                &&& final(g).only_fence_changed(*old(g), i as int)
                &&& wheeled(
                    old(g).fences@[i as int],
                    signed16(wparam as int / 0x1_0000),
                    old(g).icon_px,
                    final(g).fences@[i as int],
                    added(old(fx)@, final(fx)@),
                )
            },
            None => *final(g) == *old(g) && final(fx)@ == old(fx)@,
        },
{
    let ghost before = *g;
    let ghost fx0 = fx@;
    assert(fx@.take(fx0.len() as int) =~= fx0);
    let raw: i32 = high16(wparam);
    if raw == 0 {
        return;
    }
    if let Some(i) = fence_idx(g, hwnd) {
        let icon_px: u32 = g.icon_px;
        assert(g.fences@[i as int].wf());
        wheel(&mut g.fences[i], raw, icon_px, fx);
        proof {
            assert(g.fences@ =~= before.fences@.update(i as int, g.fences@[i as int]));
            lemma_fence_replaced(before, *g, i as int);
        }
    }
}

/// A turn of the wheel never leaves the pages, and leaves less than a notch behind.
pub proof fn lemma_wheel(acc: int, page: int, pages: int)
    requires
        pages >= 1,
    ensures
        0 <= turned_page(page, pages, notches(acc)) < pages,
        -WHEEL_NOTCH < acc - notches(acc) * WHEEL_NOTCH < WHEEL_NOTCH,
{
    lemma_notches(acc);
}

/// Small turns in one direction add up: together they turn as many notches as one large turn.
pub proof fn lemma_wheel_adds_up(acc: int, first: int, second: int)
    requires
        acc >= 0 && first >= 0 && second >= 0 || acc <= 0 && first <= 0 && second <= 0,
    ensures
        ({
            let a = acc + first;
            let rest = a - notches(a) * WHEEL_NOTCH;
            notches(a) + notches(rest + second) == notches(a + second)
        }),
{
    lemma_notches(acc + first);
}

} // verus!
