//! What holds of where fences settle, for every work area and whatever other fences there are.
use crate::choice::count;
use crate::float::{canonical, float_div, float_le, float_round, saturate, SINGLE};
use crate::fence::{synced, Fence};
use crate::geometry::{
    cell_h_of, cell_w_of, drawable, fewest_of, grid_line, half_of, lemma_cell_range, lemma_fewest, lemma_magnet_snaps,
    lemma_snap_bounds, lemma_snap_on_grid, magnet_of, scaled_px, single, snap_h_of, snap_w_of, snapped_cells, Rect, MAX_DPI, MAX_ICON,
};
use crate::layout::{all_settled, crowded, laid_out, layout_effects, settle_effects, settled, settled_rect, snappable, snapped, Search};
use crate::effect::Effect;
use crate::state::Global;
use vstd::prelude::*;

verus! {

/// Whether a rectangle shares no pixel with a valid fence other than the fence `idx`: each lies wholly
/// to one side of it.
pub open spec fn is_clear(fences: Seq<Fence>, idx: int, x: int, y: int, w: int, h: int) -> bool {
    forall|i: int|
        0 <= i < fences.len() && i != idx && (#[trigger] fences[i]).valid ==> {
            ||| x + w <= fences[i].cfg.x
            ||| fences[i].cfg.x + fences[i].cfg.w <= x
            ||| y + h <= fences[i].cfg.y
            ||| fences[i].cfg.y + fences[i].cfg.h <= y
        }
}

proof fn lemma_clear(fences: Seq<Fence>, idx: int, x: int, y: int, w: int, h: int)
    ensures
        is_clear(fences, idx, x, y, w, h) == !crowded(fences, idx, x, y, w, h),
{
}

/// Where a fence of an extent that begins at `g` comes to stand in a range: where it is if it fits
/// there, else as near to that as keeps it in the range, and at the range's begin where it is too long.
pub open spec fn is_brought_in(r: int, g: int, extent: int, lo: int, hi: int) -> bool {
    &&& lo <= g && g + extent <= hi ==> r == g
    &&& g < lo ==> r == lo
    &&& g >= lo && g + extent > hi && lo + extent <= hi ==> r + extent == hi
    &&& lo + extent > hi ==> r == lo
}

/// Whether `g` is the grid line nearest to `v`, no other one being as near.
pub open spec fn is_nearest(g: int, v: int, origin: int, step: int, k: int) -> bool {
    g == origin + k * step && -step < 2 * (g - v) < step
}

proof fn lemma_nearest_unique(a: int, b: int, step: int, v: int, origin: int)
    requires
        step > 0,
        -step < 2 * (origin + a * step - v) < step,
        -step <= 2 * (origin + b * step - v) <= step,
    ensures
        a == b,
{
    assert(a == b) by (nonlinear_arith)
        requires
            step > 0,
            -step < 2 * (origin + a * step - v) < step,
            -step <= 2 * (origin + b * step - v) <= step,
    ;
}

proof fn lemma_magnet_nearest(g: int, v: int, origin: int, step: int, k: int)
    requires
        0 < step < 0x100_0000,
        -0x80_0000 < v - origin < 0x80_0000,
        is_nearest(g, v, origin, step, k),
    ensures
        magnet_of(v, step, origin, half_of()) == g,
{
    vstd::arithmetic::power2::lemma2_to64();
    assert(canonical(24, half_of()));
    assert(float_le(half_of(), half_of()));
    lemma_magnet_snaps(v, step, origin, half_of());
    let r = magnet_of(v, step, origin, half_of());
    let j = choose|j: int| r == origin + #[trigger] (j * step);
    lemma_nearest_unique(k, j, step, v, origin);
}

/// What the laws on settling ask of a fence: its size and its cells are within what can be reckoned
/// exactly, and so is its distance from the corner of the work area.
pub open spec fn is_in_reach(f: Fence, icon_px: u32, wa: Rect) -> bool {
    &&& drawable(icon_px, f.dpi)
    &&& snappable(f, icon_px)
    &&& 0 < cell_w_of(icon_px as int, f.dpi as int) < 0x100_0000
    &&& 0 < cell_h_of(icon_px as int, f.dpi as int) < 0x100_0000
    &&& -0x80_0000 < f.cfg.x - wa.left < 0x80_0000
    &&& -0x80_0000 < f.cfg.y - wa.top < 0x80_0000
}

/// Whether the grid point `g` is the nearest one to the fence `idx`, and keeps a fence of the given size inside
/// the work area and clear of the others; `k` counts its cells from the corner of the work area.
pub open spec fn is_open_nearest(
    fences: Seq<Fence>,
    idx: int,
    icon_px: u32,
    wa: Rect,
    g: (int, int),
    k: (int, int),
    w: int,
    h: int,
) -> bool {
    let f = fences[idx];
    &&& is_in_reach(f, icon_px, wa)
    &&& is_nearest(g.0, f.cfg.x as int, wa.left as int, cell_w_of(icon_px as int, f.dpi as int), k.0)
    &&& is_nearest(g.1, f.cfg.y as int, wa.top as int, cell_h_of(icon_px as int, f.dpi as int), k.1)
    &&& is_free_place(fences, idx, wa, g.0, g.1, w, h)
}

/// Where the nearest grid point keeps the fence inside the work area and clear of the others, the fence
/// settles there, at most half a cell from where it was let go; the grid begins at the corner of the
/// work area, wherever that lies.
pub proof fn lemma_settles_on_nearest(fences: Seq<Fence>, idx: usize, icon_px: u32, wa: Rect, gx: int, gy: int, kx: int, ky: int)
    requires
        idx < fences.len(),
        is_in_reach(fences[idx as int], icon_px, wa),
        is_nearest(gx, fences[idx as int].cfg.x as int, wa.left as int, cell_w_of(icon_px as int, fences[idx as int].dpi as int), kx),
        is_nearest(gy, fences[idx as int].cfg.y as int, wa.top as int, cell_h_of(icon_px as int, fences[idx as int].dpi as int), ky),
        ({
            let r = settled_rect(fences, idx, icon_px, wa);
            &&& wa.left <= gx && gx + r.2 <= wa.right
            &&& wa.top <= gy && gy + r.3 <= wa.bottom
            &&& is_clear(fences, idx as int, gx, gy, r.2, r.3)
        }),
    ensures
        ({
            let r = settled_rect(fences, idx, icon_px, wa);
            let f = fences[idx as int];
            &&& r.0 == gx && r.1 == gy
            &&& -cell_w_of(icon_px as int, f.dpi as int) <= 2 * (r.0 - f.cfg.x) <= cell_w_of(icon_px as int, f.dpi as int)
            &&& -cell_h_of(icon_px as int, f.dpi as int) <= 2 * (r.1 - f.cfg.y) <= cell_h_of(icon_px as int, f.dpi as int)
        }),
{
    lemma_settles_near(fences, idx, icon_px, wa, gx, gy, kx, ky, gx, gy);
}

/// A fence settles on the nearest grid point, brought into the work area, wherever that is clear of the
/// others.
pub proof fn lemma_settles_near(
    fences: Seq<Fence>,
    idx: usize,
    icon_px: u32,
    wa: Rect,
    gx: int,
    gy: int,
    kx: int,
    ky: int,
    x: int,
    y: int,
)
    requires
        idx < fences.len(),
        is_in_reach(fences[idx as int], icon_px, wa),
        is_nearest(gx, fences[idx as int].cfg.x as int, wa.left as int, cell_w_of(icon_px as int, fences[idx as int].dpi as int), kx),
        is_nearest(gy, fences[idx as int].cfg.y as int, wa.top as int, cell_h_of(icon_px as int, fences[idx as int].dpi as int), ky),
        ({
            let r = settled_rect(fences, idx, icon_px, wa);
            &&& is_brought_in(x, gx, r.2, wa.left as int, wa.right as int)
            &&& is_brought_in(y, gy, r.3, wa.top as int, wa.bottom as int)
            &&& is_clear(fences, idx as int, x, y, r.2, r.3)
        }),
    ensures
        settled_rect(fences, idx, icon_px, wa).0 == x,
        settled_rect(fences, idx, icon_px, wa).1 == y,
{
    reveal(settled_rect);
    lemma_start(fences[idx as int], idx, icon_px, wa, gx, gy, kx, ky, x, y);
    let s = snapped(fences[idx as int], idx, icon_px, wa);
    lemma_clear(fences, idx as int, x, y, s.w as int, s.h as int);
}

proof fn lemma_start(f: Fence, idx: usize, icon_px: u32, wa: Rect, gx: int, gy: int, kx: int, ky: int, x: int, y: int)
    requires
        is_in_reach(f, icon_px, wa),
        is_nearest(gx, f.cfg.x as int, wa.left as int, cell_w_of(icon_px as int, f.dpi as int), kx),
        is_nearest(gy, f.cfg.y as int, wa.top as int, cell_h_of(icon_px as int, f.dpi as int), ky),
        ({
            let s = snapped(f, idx, icon_px, wa);
            &&& is_brought_in(x, gx, s.w as int, wa.left as int, wa.right as int)
            &&& is_brought_in(y, gy, s.h as int, wa.top as int, wa.bottom as int)
        }),
    ensures
        ({
            let s = snapped(f, idx, icon_px, wa);
            &&& s.x == x && s.y == y
            &&& s.w == snap_w_of(icon_px as int, f.dpi as int, f.cfg.w as int)
            &&& s.h == snap_h_of(icon_px as int, f.dpi as int, f.cfg.h as int)
            &&& s.slot_w == cell_w_of(icon_px as int, f.dpi as int)
            &&& s.slot_h == cell_h_of(icon_px as int, f.dpi as int)
            &&& s.w >= 0 && s.h >= 0
        }),
{
    lemma_cell_range(icon_px as int, f.dpi as int);
    lemma_magnet_nearest(gx, f.cfg.x as int, wa.left as int, cell_w_of(icon_px as int, f.dpi as int), kx);
    lemma_magnet_nearest(gy, f.cfg.y as int, wa.top as int, cell_h_of(icon_px as int, f.dpi as int), ky);
    let w = snap_w_of(icon_px as int, f.dpi as int, f.cfg.w as int);
    let h = snap_h_of(icon_px as int, f.dpi as int, f.cfg.h as int);
    assert(w >= 0 && h >= 0);
}

/// Whether `r` is an extent of whole cells in a frame, at least one of them, that reaches the least extent,
/// and no other such extent is nearer to `v`.
pub open spec fn is_best_extent(r: int, v: int, frame: int, cell: int, least: int) -> bool {
    &&& r >= least
    &&& exists|k: int| k >= 1 && r == #[trigger] in_frame(frame, cell, k)
    &&& forall|k: int|
        k >= 1 && #[trigger] in_frame(frame, cell, k) >= least ==> {
            let other = in_frame(frame, cell, k);
            (if r >= v { r - v } else { v - r }) <= (if other >= v { other - v } else { v - other })
        }
}

/// The extent of `k` cells in a frame.
pub open spec fn in_frame(frame: int, cell: int, k: int) -> int {
    frame + k * cell
}

/// The number of cells that an extent is brought to is the best one.
pub proof fn lemma_cells_best(frame: int, cell: int, least: int, v: int)
    requires
        0 < cell < 0x100_0000,
        -0x80_0000 < v - frame < 0x80_0000,
    ensures
        is_best_extent(frame + snapped_cells(frame, cell, least, v) * cell, v, frame, cell, least),
{
    let len = v - frame;
    vstd::arithmetic::power2::lemma2_to64();
    assert(canonical(24, half_of()));
    assert(float_le(half_of(), half_of()));
    lemma_magnet_snaps(len, cell, 0, half_of());
    let near = grid_line(len, cell, 0);
    let n = saturate(float_round(float_div(SINGLE as nat, single(len), single(cell))));
    assert(near == n * cell);
    lemma_fewest(frame, cell, least);
    let q = fewest_of(frame, cell, least);
    let m = snapped_cells(frame, cell, least, v);
    assert(m >= n && m >= q && m >= 1);
    assert(m == n || m == q || m == 1);
    let r = in_frame(frame, cell, m);
    assert(m * cell >= q * cell) by (nonlinear_arith)
        requires
            m >= q,
            cell > 0,
    ;
    assert forall|k: int| k >= 1 && #[trigger] in_frame(frame, cell, k) >= least implies {
        let other = in_frame(frame, cell, k);
        (if r >= v { r - v } else { v - r }) <= (if other >= v { other - v } else { v - other })
    } by {
        assert(frame + k * cell >= least);
        assert(k >= q);
        lemma_nearest_is_best(n, m, k, cell, len);
    }
}

proof fn lemma_nearest_is_best(n: int, m: int, k: int, cell: int, len: int)
    requires
        cell > 0,
        -cell <= 2 * (n * cell - len) <= cell,
        m == n || (n < m && m <= k),
    ensures
        (if m * cell >= len { m * cell - len } else { len - m * cell }) <= (if k * cell >= len {
            k * cell - len
        } else {
            len - k * cell
        }),
{
    if k > n {
        assert(k * cell >= n * cell + cell) by (nonlinear_arith)
            requires
                k >= n + 1,
                cell > 0,
        ;
    }
    if k < n {
        assert(k * cell <= n * cell - cell) by (nonlinear_arith)
            requires
                k <= n - 1,
                cell > 0,
        ;
    }
    if m > n {
        assert(m * cell >= n * cell + cell && k * cell >= m * cell) by (nonlinear_arith)
            requires
                m >= n + 1,
                k >= m,
                cell > 0,
        ;
    }
}

/// A settled fence has, across and down, the extent of whole cells that is nearest to the one it had, of
/// those that are not below the least size.
pub proof fn lemma_settles_best_size(fences: Seq<Fence>, idx: usize, icon_px: u32, wa: Rect)
    requires
        idx < fences.len(),
        drawable(icon_px, fences[idx as int].dpi),
        snappable(fences[idx as int], icon_px),
        0 < cell_w_of(icon_px as int, fences[idx as int].dpi as int) < 0x100_0000,
        0 < cell_h_of(icon_px as int, fences[idx as int].dpi as int) < 0x100_0000,
        0 <= 2 * scaled_px(10, fences[idx as int].dpi as int) + scaled_px(22, fences[idx as int].dpi as int) < 0x40_0000,
        0 <= scaled_px(30, fences[idx as int].dpi as int) + 2 * scaled_px(10, fences[idx as int].dpi as int) < 0x40_0000,
        -0x40_0000 < fences[idx as int].cfg.w < 0x40_0000,
        -0x40_0000 < fences[idx as int].cfg.h < 0x40_0000,
    ensures
        ({
            let f = fences[idx as int];
            let dpi = f.dpi as int;
            let r = settled_rect(fences, idx, icon_px, wa);
            &&& is_best_extent(
                r.2,
                f.cfg.w as int,
                2 * scaled_px(10, dpi) + scaled_px(22, dpi),
                cell_w_of(icon_px as int, dpi),
                scaled_px(180, dpi),
            )
            &&& is_best_extent(
                r.3,
                f.cfg.h as int,
                scaled_px(30, dpi) + 2 * scaled_px(10, dpi),
                cell_h_of(icon_px as int, dpi),
                scaled_px(100, dpi),
            )
        }),
{
    reveal(settled_rect);
    let f = fences[idx as int];
    let dpi = f.dpi as int;
    lemma_snap_on_grid(icon_px, f.dpi, f.cfg.w as int, f.cfg.h as int);
    lemma_cells_best(
        2 * scaled_px(10, dpi) + scaled_px(22, dpi),
        cell_w_of(icon_px as int, dpi),
        scaled_px(180, dpi),
        f.cfg.w as int,
    );
    lemma_cells_best(
        scaled_px(30, dpi) + 2 * scaled_px(10, dpi),
        cell_h_of(icon_px as int, dpi),
        scaled_px(100, dpi),
        f.cfg.h as int,
    );
}

/// The place `d` steps from `x`, `y` in one of the four directions: left, right, up and down.
pub open spec fn is_step(x2: int, y2: int, x: int, y: int, cw: int, ch: int, d: int, dir: int) -> bool {
    &&& 0 <= dir < 4
    &&& dir == 0 ==> x2 + d * cw == x && y2 == y
    &&& dir == 1 ==> x2 - d * cw == x && y2 == y
    &&& dir == 2 ==> y2 + d * ch == y && x2 == x
    &&& dir == 3 ==> y2 - d * ch == y && x2 == x
}

proof fn lemma_step_slot(s: Search, x2: int, y2: int, d: int, dir: int)
    requires
        d >= 1,
        is_step(x2, y2, s.x as int, s.y as int, s.slot_w as int, s.slot_h as int, d, dir),
    ensures
        s.slot(4 * (d - 1) + dir) == (x2, y2),
{
    let k = 4 * (d - 1) + dir;
    assert(k / 4 + 1 == d && k % 4 == dir);
}

proof fn lemma_found_first(s: Search, fences: Seq<Fence>, k: int, j: int)
    requires
        0 <= k <= j < 380,
        s.free(fences, j),
    ensures
        exists|i: int| k <= i <= j && #[trigger] s.free(fences, i) && s.found(fences, k) == s.slot(i),
    decreases j - k,
{
    if !s.free(fences, k) {
        lemma_found_first(s, fences, k + 1, j);
        let i = choose|i: int| k + 1 <= i <= j && #[trigger] s.free(fences, i) && s.found(fences, k + 1) == s.slot(i);
        assert(s.free(fences, i) && s.found(fences, k) == s.slot(i));
    }
}

proof fn lemma_found_none(s: Search, fences: Seq<Fence>, k: int)
    requires
        0 <= k,
        forall|j: int| k <= j < 380 ==> !#[trigger] s.free(fences, j),
    ensures
        s.found(fences, k) == (s.x as int, s.y as int),
    decreases 380 - k,
{
    if k < 380 {
        assert(!s.free(fences, k));
        lemma_found_none(s, fences, k + 1);
    }
}

/// Whether the fence `idx` in the rectangle lies inside the work area and clear of the others.
pub open spec fn is_free_place(fences: Seq<Fence>, idx: int, wa: Rect, x: int, y: int, w: int, h: int) -> bool {
    wa.left <= x && x + w <= wa.right && wa.top <= y && y + h <= wa.bottom && is_clear(fences, idx, x, y, w, h)
}

/// Whether `r` is a free place in fewer than `d` steps from `x`, `y`, or in `d` steps and no later a
/// direction than `dir`.
pub open spec fn is_no_farther(
    fences: Seq<Fence>,
    idx: int,
    wa: Rect,
    r: (int, int, int, int),
    x: int,
    y: int,
    cw: int,
    ch: int,
    d: int,
    dir: int,
) -> bool {
    &&& is_free_place(fences, idx, wa, r.0, r.1, r.2, r.3)
    &&& exists|e: int, t: int|
        1 <= e <= d && (e == d ==> t <= dir) && #[trigger] is_step(r.0, r.1, x, y, cw, ch, e, t)
}

/// Where the nearest grid point, brought into the work area, is taken, and there is a free place at most
/// 95 steps from it in one of the four directions, the fence settles on a free place that is no
/// farther; of those equally far the left one goes before the right one, that one before the upper
/// one, and that one before the lower one.
pub proof fn lemma_settles_at_first_free(
    fences: Seq<Fence>,
    idx: usize,
    icon_px: u32,
    wa: Rect,
    g: (int, int),
    k: (int, int),
    at: (int, int),
    free: (int, int),
    d: int,
    dir: int,
)
    requires
        idx < fences.len(),
        is_in_reach(fences[idx as int], icon_px, wa),
        is_nearest(g.0, fences[idx as int].cfg.x as int, wa.left as int, cell_w_of(icon_px as int, fences[idx as int].dpi as int), k.0),
        is_nearest(g.1, fences[idx as int].cfg.y as int, wa.top as int, cell_h_of(icon_px as int, fences[idx as int].dpi as int), k.1),
        1 <= d <= 95,
        ({
            let r = settled_rect(fences, idx, icon_px, wa);
            let cw = cell_w_of(icon_px as int, fences[idx as int].dpi as int);
            let ch = cell_h_of(icon_px as int, fences[idx as int].dpi as int);
            &&& is_brought_in(at.0, g.0, r.2, wa.left as int, wa.right as int)
            &&& is_brought_in(at.1, g.1, r.3, wa.top as int, wa.bottom as int)
            &&& !is_clear(fences, idx as int, at.0, at.1, r.2, r.3)
            &&& is_free_place(fences, idx as int, wa, free.0, free.1, r.2, r.3)
            &&& is_step(free.0, free.1, at.0, at.1, cw, ch, d, dir)
        }),
    ensures
        is_no_farther(
            fences,
            idx as int,
            wa,
            settled_rect(fences, idx, icon_px, wa),
            at.0,
            at.1,
            cell_w_of(icon_px as int, fences[idx as int].dpi as int),
            cell_h_of(icon_px as int, fences[idx as int].dpi as int),
            d,
            dir,
        ),
{
    reveal(settled_rect);
    let f = fences[idx as int];
    lemma_start(f, idx, icon_px, wa, g.0, g.1, k.0, k.1, at.0, at.1);
    let s = snapped(f, idx, icon_px, wa);
    let r = settled_rect(fences, idx, icon_px, wa);
    lemma_clear(fences, idx as int, at.0, at.1, s.w as int, s.h as int);
    lemma_clear(fences, idx as int, free.0, free.1, s.w as int, s.h as int);
    lemma_step_slot(s, free.0, free.1, d, dir);
    let j = 4 * (d - 1) + dir;
    assert(s.free(fences, j));
    lemma_found_first(s, fences, 0, j);
    let i = choose|i: int| 0 <= i <= j && #[trigger] s.free(fences, i) && s.found(fences, 0) == s.slot(i);
    let p = s.slot(i);
    lemma_clear(fences, idx as int, p.0, p.1, s.w as int, s.h as int);
    let e = i / 4 + 1;
    let t = i % 4;
    assert(is_step(r.0, r.1, at.0, at.1, s.slot_w as int, s.slot_h as int, e, t));
}

/// Where no place at most 95 steps away is free, the fence settles where it snaps to, though that is
/// taken.
pub proof fn lemma_settles_though_taken(
    fences: Seq<Fence>,
    idx: usize,
    icon_px: u32,
    wa: Rect,
    g: (int, int),
    k: (int, int),
    at: (int, int),
)
    requires
        idx < fences.len(),
        is_in_reach(fences[idx as int], icon_px, wa),
        is_nearest(g.0, fences[idx as int].cfg.x as int, wa.left as int, cell_w_of(icon_px as int, fences[idx as int].dpi as int), k.0),
        is_nearest(g.1, fences[idx as int].cfg.y as int, wa.top as int, cell_h_of(icon_px as int, fences[idx as int].dpi as int), k.1),
        ({
            let r = settled_rect(fences, idx, icon_px, wa);
            &&& is_brought_in(at.0, g.0, r.2, wa.left as int, wa.right as int)
            &&& is_brought_in(at.1, g.1, r.3, wa.top as int, wa.bottom as int)
        }),
        forall|x: int, y: int, d: int, dir: int|
            1 <= d <= 95 && #[trigger] is_step(
                x,
                y,
                at.0,
                at.1,
                cell_w_of(icon_px as int, fences[idx as int].dpi as int),
                cell_h_of(icon_px as int, fences[idx as int].dpi as int),
                d,
                dir,
            ) ==> !is_free_place(
                fences,
                idx as int,
                wa,
                x,
                y,
                settled_rect(fences, idx, icon_px, wa).2,
                settled_rect(fences, idx, icon_px, wa).3,
            ),
    ensures
        settled_rect(fences, idx, icon_px, wa).0 == at.0,
        settled_rect(fences, idx, icon_px, wa).1 == at.1,
{
    reveal(settled_rect);
    let f = fences[idx as int];
    lemma_start(f, idx, icon_px, wa, g.0, g.1, k.0, k.1, at.0, at.1);
    let s = snapped(f, idx, icon_px, wa);
    assert forall|j: int| 0 <= j < 380 implies !#[trigger] s.free(fences, j) by {
        let p = s.slot(j);
        lemma_clear(fences, idx as int, p.0, p.1, s.w as int, s.h as int);
        assert(is_step(p.0, p.1, at.0, at.1, s.slot_w as int, s.slot_h as int, j / 4 + 1, j % 4));
    }
    lemma_found_none(s, fences, 0);
}

/// Settling asks for the window to be placed where the fence has settled, drawn there, the settings
/// saved and the desktop's icons kept out.
pub proof fn lemma_settling_asks(hwnd: u64, x: i32, y: i32, w: i32, h: i32)
    ensures
        settle_effects(hwnd, x, y, w, h)[0] == (Effect::Place { hwnd, x, y, w, h }),
        settle_effects(hwnd, x, y, w, h).contains(Effect::Render(hwnd)),
        settle_effects(hwnd, x, y, w, h).contains(Effect::Save),
        settle_effects(hwnd, x, y, w, h).contains(Effect::Reserve),
{
    let fx = settle_effects(hwnd, x, y, w, h);
    let n = fx.len() as int;
    assert(fx[n - 3] == Effect::Render(hwnd));
    assert(fx[n - 2] == Effect::Save);
    assert(fx[n - 1] == Effect::Reserve);
}

/// Settling all fences changes the rectangle of each and nothing else of it, and each settles as it
/// would alone among the fences before it, settled, and those after it, where they were.
pub proof fn lemma_layout_each(fences: Seq<Fence>, icon_px: u32, areas: Seq<Rect>, n: int, i: int)
    requires
        0 <= i < n <= fences.len() <= usize::MAX,
    ensures
        ({
            let q = laid_out(fences, icon_px, areas, n);
            let p = laid_out(fences, icon_px, areas, i);
            let r = settled_rect(p, i as usize, icon_px, areas[i]);
            &&& q.len() == fences.len()
            &&& p[i] == fences[i]
            &&& q[i].cfg.x == r.0 as i32 && q[i].cfg.y == r.1 as i32 && q[i].cfg.w == r.2 as i32 && q[i].cfg.h == r.3 as i32
            &&& q[i].cfg.id == fences[i].cfg.id && q[i].cfg.folder == fences[i].cfg.folder && q[i].valid == fences[i].valid
            &&& q[i].hwnd == fences[i].hwnd && q[i].entries == fences[i].entries && q[i].dpi == fences[i].dpi
            &&& forall|j: int| 0 <= j < i ==> #[trigger] p[j] == q[j]
            &&& forall|j: int| i <= j < fences.len() ==> #[trigger] p[j] == fences[j]
        }),
    decreases n,
{
    lemma_layout_parts(fences, icon_px, areas, i, i);
    lemma_layout_parts(fences, icon_px, areas, n, i);
    lemma_layout_parts(fences, icon_px, areas, n, i + 1);
    lemma_layout_parts(fences, icon_px, areas, i + 1, i + 1);
    let q = laid_out(fences, icon_px, areas, n);
    let m = laid_out(fences, icon_px, areas, i + 1);
    assert(m[i] == q[i]);
}

proof fn lemma_layout_parts(fences: Seq<Fence>, icon_px: u32, areas: Seq<Rect>, n: int, i: int)
    requires
        0 <= i <= n <= fences.len() <= usize::MAX,
    ensures
        laid_out(fences, icon_px, areas, n).len() == fences.len(),
        forall|j: int|
            0 <= j < i ==> #[trigger] laid_out(fences, icon_px, areas, i)[j] == laid_out(fences, icon_px, areas, n)[j],
        forall|j: int| n <= j < fences.len() ==> #[trigger] laid_out(fences, icon_px, areas, n)[j] == fences[j],
    decreases n,
{
    if n > i {
        lemma_layout_parts(fences, icon_px, areas, n - 1, i);
    } else if n > 0 {
        lemma_layout_parts(fences, icon_px, areas, n - 1, n - 1);
    }
}

/// Settling all fences asks for each window to be placed where its fence has settled, in the order of the fences.
pub proof fn lemma_layout_places(fences: Seq<Fence>, icon_px: u32, areas: Seq<Rect>, n: int, i: int)
    requires
        0 <= i < n <= fences.len() <= usize::MAX,
    ensures
        ({
            let f = laid_out(fences, icon_px, areas, n)[i];
            layout_effects(fences, icon_px, areas, n).contains(
                Effect::Place { hwnd: f.hwnd, x: f.cfg.x, y: f.cfg.y, w: f.cfg.w, h: f.cfg.h },
            )
        }),
    decreases n,
{
    let all = layout_effects(fences, icon_px, areas, n);
    let head = layout_effects(fences, icon_px, areas, n - 1);
    let f = laid_out(fences, icon_px, areas, n)[i];
    let x = Effect::Place { hwnd: f.hwnd, x: f.cfg.x, y: f.cfg.y, w: f.cfg.w, h: f.cfg.h };
    if i == n - 1 {
        lemma_layout_each(fences, icon_px, areas, n, i);
        assert(all[head.len() as int] == x);
    } else {
        lemma_layout_places(fences, icon_px, areas, n - 1, i);
        lemma_layout_parts(fences, icon_px, areas, n, n - 1);
        let j = head.index_of(x);
        assert(all[j] == x);
    }
}

/// Every fence whose size is within a quarter of the range of a size can be brought to the grid.
pub proof fn lemma_snappable(f: Fence, icon_px: u32)
    requires
        icon_px <= MAX_ICON,
        f.dpi <= MAX_DPI,
        drawable(icon_px, f.dpi),
        f.cfg.w <= 0x2000_0000,
        f.cfg.h <= 0x2000_0000,
    ensures
        snappable(f, icon_px),
{
    lemma_snap_bounds(icon_px as int, f.dpi as int, f.cfg.w as int, f.cfg.h as int);
}

/// Whether `g` is a grid line at most half a step from `v`.
pub open spec fn is_near(g: int, v: int, origin: int, step: int, k: int) -> bool {
    g == origin + k * step && -step <= 2 * (g - v) <= step
}

/// Wherever a fence is let go, there is a grid point at most half a cell away, across and down, where it settles:
/// brought into the work area, and unless that place is taken.
pub proof fn lemma_settles_somewhere_near(fences: Seq<Fence>, idx: usize, icon_px: u32, wa: Rect)
    requires
        idx < fences.len(),
        is_in_reach(fences[idx as int], icon_px, wa),
    ensures
        exists|g: (int, int), k: (int, int), at: (int, int)| #[trigger]
            settles_at(fences, idx, icon_px, wa, g, k, at),
{
    reveal(settled_rect);
    let f = fences[idx as int];
    let cw = cell_w_of(icon_px as int, f.dpi as int);
    let ch = cell_h_of(icon_px as int, f.dpi as int);
    vstd::arithmetic::power2::lemma2_to64();
    assert(canonical(24, half_of()));
    assert(float_le(half_of(), half_of()));
    lemma_cell_range(icon_px as int, f.dpi as int);
    lemma_magnet_snaps(f.cfg.x as int, cw, wa.left as int, half_of());
    lemma_magnet_snaps(f.cfg.y as int, ch, wa.top as int, half_of());
    let x = magnet_of(f.cfg.x as int, cw, wa.left as int, half_of());
    let y = magnet_of(f.cfg.y as int, ch, wa.top as int, half_of());
    let kx = choose|k: int| x == wa.left + #[trigger] (k * cw);
    let ky = choose|k: int| y == wa.top + #[trigger] (k * ch);
    let s = snapped(f, idx, icon_px, wa);
    assert(s.w == snap_w_of(icon_px as int, f.dpi as int, f.cfg.w as int));
    assert(s.h == snap_h_of(icon_px as int, f.dpi as int, f.cfg.h as int));
    lemma_clear(fences, idx as int, s.x as int, s.y as int, s.w as int, s.h as int);
    assert(settles_at(fences, idx, icon_px, wa, (x, y), (kx, ky), (s.x as int, s.y as int)));
}

/// Whether the fence `idx` settles at `at` unless that is taken, where `at` is the near grid point `g`, brought into the
/// work area.
pub open spec fn settles_at(
    fences: Seq<Fence>,
    idx: usize,
    icon_px: u32,
    wa: Rect,
    g: (int, int),
    k: (int, int),
    at: (int, int),
) -> bool {
    let f = fences[idx as int];
    let r = settled_rect(fences, idx, icon_px, wa);
    &&& is_near(g.0, f.cfg.x as int, wa.left as int, cell_w_of(icon_px as int, f.dpi as int), k.0)
    &&& is_near(g.1, f.cfg.y as int, wa.top as int, cell_h_of(icon_px as int, f.dpi as int), k.1)
    &&& is_brought_in(at.0, g.0, r.2, wa.left as int, wa.right as int)
    &&& is_brought_in(at.1, g.1, r.3, wa.top as int, wa.bottom as int)
    &&& is_clear(fences, idx as int, at.0, at.1, r.2, r.3) ==> r.0 == at.0 && r.1 == at.1
}

/// A fence that has settled has the rectangle that was found for it, the other fences stay as they are, and what is
/// saved is what all of them have then.
pub proof fn lemma_settled(old: Global, idx: usize, wa: Rect, g: Global)
    requires
        settled(old, idx, wa, g),
        idx < old.fences@.len(),
    ensures
        ({
            let r = settled_rect(old.fences@, idx, old.icon_px, wa);
            let f = g.fences@[idx as int];
            &&& f.cfg.x == r.0 as i32 && f.cfg.y == r.1 as i32 && f.cfg.w == r.2 as i32 && f.cfg.h == r.3 as i32
            &&& f.cfg.id == old.fences@[idx as int].cfg.id && f.entries == old.fences@[idx as int].entries
            &&& f.hwnd == old.fences@[idx as int].hwnd && !f.animating
        }),
        g.fences@.len() == old.fences@.len(),
        forall|j: int| 0 <= j < old.fences@.len() && j != idx ==> #[trigger] g.fences@[j] == old.fences@[j],
        g.config.fences@.len() == g.fences@.len(),
        forall|j: int|
            0 <= j < g.fences@.len() ==> (#[trigger] g.config.fences@[j]).x == g.fences@[j].cfg.x && g.config.fences@[j].y
                == g.fences@[j].cfg.y && g.config.fences@[j].w == g.fences@[j].cfg.w && g.config.fences@[j].h
                == g.fences@[j].cfg.h,
        g.zen == old.zen && g.download_pending == old.download_pending && g.icon_px == old.icon_px,
{
}

/// Once all fences have settled, each has the rectangle of the layout and keeps its id, its entries and its window,
/// and what is saved is what they have then.
pub proof fn lemma_all_settled(old: Global, areas: Seq<Rect>, g: Global, i: int)
    requires
        all_settled(old, areas, g),
        0 <= i < old.fences@.len() <= usize::MAX,
    ensures
        g.fences@.len() == old.fences@.len(),
        ({
            let f = laid_out(old.fences@, old.icon_px, areas, old.fences@.len() as int)[i];
            let s = g.fences@[i];
            &&& s.cfg.x == f.cfg.x && s.cfg.y == f.cfg.y && s.cfg.w == f.cfg.w && s.cfg.h == f.cfg.h
            &&& s.cfg.id == old.fences@[i].cfg.id && s.hwnd == old.fences@[i].hwnd && s.entries == old.fences@[i].entries
            &&& s.valid == old.fences@[i].valid
        }),
        g.config.fences@.len() == g.fences@.len(),
        g.config.fences@[i].x == g.fences@[i].cfg.x && g.config.fences@[i].y == g.fences@[i].cfg.y,
        g.config.fences@[i].w == g.fences@[i].cfg.w && g.config.fences@[i].h == g.fences@[i].cfg.h,
        g.config.icon == old.config.icon && g.icon_px == old.icon_px && g.zen == old.zen,
{
    let n = old.fences@.len() as int;
    lemma_layout_each(old.fences@, old.icon_px, areas, n, i);
    assert(synced(laid_out(old.fences@, old.icon_px, areas, n)[i], old.icon_px, g.fences@[i]));
}

/// Settling asks for nothing twice: without fences for nothing, and for each fence for four things, or five where its
/// window has an animation to stop.
pub proof fn lemma_layout_asks_once(fences: Seq<Fence>, icon_px: u32, areas: Seq<Rect>, windows: Seq<bool>, n: int)
    requires
        0 <= n <= fences.len(),
        windows.len() == fences.len(),
        forall|i: int| 0 <= i < fences.len() ==> #[trigger] windows[i] == (fences[i].hwnd != 0),
    ensures
        layout_effects(fences, icon_px, areas, n).len() == 4 * n + count(windows, n),
    decreases n,
{
    if n > 0 {
        lemma_layout_asks_once(fences, icon_px, areas, windows, n - 1);
        assert(windows[n - 1] == (fences[n - 1].hwnd != 0));
    }
}

/// Without fences nothing settles and nothing is saved.
pub proof fn lemma_nothing_settles(old: Global, areas: Seq<Rect>, g: Global)
    requires
        all_settled(old, areas, g),
        old.fences@.len() == 0,
    ensures
        g == old,
{
}

} // verus!
