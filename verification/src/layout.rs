//! Where fences settle: on the grid, inside the work area, and clear of each other.
use crate::config::FenceCfg;
use crate::effect::Effect;
use crate::fence::{snapshots, stop_effects, sync_page, synced, Fence};
use crate::geometry::{
    cell_h, cell_h_of, cell_w, cell_w_of, clamp_of, drawable, half, half_of, lemma_cell_range, lemma_snap_on_grid,
    magnet_of, magnet_wide, max_of, overlap_of, place_within, rects_overlap, scaled_px, snap_cols_of, snap_h_of,
    snap_rows_of, snap_size, snap_w_of, snap_wide, Rect,
};
use crate::layout_laws::{is_open_nearest, lemma_settles_on_nearest};
use crate::state::{sync_config, Global};
use vstd::prelude::*;

verus! {

/// Whether a rectangle overlaps a valid fence other than the fence `idx`.
pub open spec fn crowded(fences: Seq<Fence>, idx: int, x: int, y: int, w: int, h: int) -> bool {
    exists|i: int|
        0 <= i < fences.len() && i != idx && (#[trigger] fences[i]).valid && overlap_of(
            x,
            y,
            w,
            h,
            fences[i].cfg.x as int,
            fences[i].cfg.y as int,
            fences[i].cfg.w as int,
            fences[i].cfg.h as int,
        )
}

/// Whether a rectangle overlaps a valid fence other than the fence `self_idx`.
pub fn overlaps_any(g: &Global, self_idx: usize, x: i32, y: i32, w: i32, h: i32) -> (r: bool)
    ensures
        r == crowded(g.fences@, self_idx as int, x as int, y as int, w as int, h as int),
{
    let n: usize = g.fences.len();
    let mut i: usize = 0;
    while i < n
        invariant
            i <= n,
            n == g.fences@.len(),
            forall|j: int|
                0 <= j < i && j != self_idx && (#[trigger] g.fences@[j]).valid ==> !overlap_of(
                    x as int,
                    y as int,
                    w as int,
                    h as int,
                    g.fences@[j].cfg.x as int,
                    g.fences@[j].cfg.y as int,
                    g.fences@[j].cfg.w as int,
                    g.fences@[j].cfg.h as int,
                ),
        decreases n - i,
    {
        let o = &g.fences[i];
        if i != self_idx && o.valid && rects_overlap(x, y, w, h, o.cfg.x, o.cfg.y, o.cfg.w, o.cfg.h) {
            assert(g.fences@[i as int].valid);
            return true;
        }
        i = i + 1;
    }
    false
}

/// How many steps the search for a free slot goes in each direction.
pub const SEARCH_STEPS: i32 = 95;

/// The `k`th slot of the search: left, right, up and down of the start, one step farther each
/// round.
pub open spec fn search_slot(k: int, x: int, y: int, slot_w: int, slot_h: int) -> (int, int) {
    let d = k / 4 + 1;
    if k % 4 == 0 {
        (x - d * slot_w, y)
    } else if k % 4 == 1 {
        (x + d * slot_w, y)
    } else if k % 4 == 2 {
        (x, y - d * slot_h)
    } else {
        (x, y + d * slot_h)
    }
}

/// Whether a rectangle lies in the work area.
pub open spec fn within(wa: Rect, x: int, y: int, w: int, h: int) -> bool {
    wa.left <= x && wa.top <= y && x + w <= wa.right && y + h <= wa.bottom
}

/// What a search for a free slot works on.
pub struct Search {
    pub idx: usize,
    pub wa: Rect,
    pub x: i32,
    pub y: i32,
    pub w: i32,
    pub h: i32,
    pub slot_w: i32,
    pub slot_h: i32,
}

impl Search {
    pub open spec fn slot(self, k: int) -> (int, int) {
        search_slot(k, self.x as int, self.y as int, self.slot_w as int, self.slot_h as int)
    }

    /// Whether the `k`th slot lies in the work area and is free.
    pub open spec fn free(self, fences: Seq<Fence>, k: int) -> bool {
        let p = self.slot(k);
        within(self.wa, p.0, p.1, self.w as int, self.h as int) && !crowded(
            fences,
            self.idx as int,
            p.0,
            p.1,
            self.w as int,
            self.h as int,
        )
    }

    /// The first free slot from the `k`th on, and where the search began where there is none.
    pub open spec fn found(self, fences: Seq<Fence>, k: int) -> (int, int)
        decreases 4 * SEARCH_STEPS - k,
    {
        if k >= 4 * SEARCH_STEPS {
            (self.x as int, self.y as int)
        } else if self.free(fences, k) {
            self.slot(k)
        } else {
            self.found(fences, k + 1)
        }
    }
}

fn try_slot(g: &Global, s: &Search, k: i32) -> (r: Option<(i32, i32)>)
    requires
        0 <= k < 4 * SEARCH_STEPS,
        s.w >= 0,
        s.h >= 0,
    ensures
        match r {
            Some(p) => s.free(g.fences@, k as int) && (p.0 as int, p.1 as int) == s.slot(k as int),
            None => !s.free(g.fences@, k as int),
        },
{
    let d: i64 = (k / 4 + 1) as i64;
    let sw: i64 = s.slot_w as i64;
    let sh: i64 = s.slot_h as i64;
    assert(-0x40_0000_0000 <= d as int * sw as int <= 0x40_0000_0000) by (nonlinear_arith)
        requires
            1 <= d <= 95,
            -0x8000_0000 <= sw <= 0x7fff_ffff,
    ;
    assert(-0x40_0000_0000 <= d as int * sh as int <= 0x40_0000_0000) by (nonlinear_arith)
        requires
            1 <= d <= 95,
            -0x8000_0000 <= sh <= 0x7fff_ffff,
    ;
    let mut tx: i64 = s.x as i64;
    let mut ty: i64 = s.y as i64;
    let dir: i32 = k % 4;
    if dir == 0 {
        tx = tx - d * sw;
    } else if dir == 1 {
        tx = tx + d * sw;
    } else if dir == 2 {
        ty = ty - d * sh;
    } else {
        ty = ty + d * sh;
    }
    assert((tx as int, ty as int) == s.slot(k as int));
    let outside: bool = tx < s.wa.left as i64 || ty < s.wa.top as i64 || tx + s.w as i64 > s.wa.right as i64 || ty
        + s.h as i64 > s.wa.bottom as i64;
    if outside {
        return None;
    }
    if overlaps_any(g, s.idx, tx as i32, ty as i32, s.w, s.h) {
        None
    } else {
        Some((tx as i32, ty as i32))
    }
}

fn search(g: &Global, s: &Search) -> (r: (i32, i32))
    requires
        s.w >= 0,
        s.h >= 0,
    ensures
        (r.0 as int, r.1 as int) == s.found(g.fences@, 0),
{
    let mut k: i32 = 0;
    while k < 4 * SEARCH_STEPS
        invariant
            0 <= k <= 4 * SEARCH_STEPS,
            s.w >= 0,
            s.h >= 0,
            s.found(g.fences@, 0) == s.found(g.fences@, k as int),
        decreases 4 * SEARCH_STEPS - k,
    {
        if let Some(p) = try_slot(g, s, k) {
            return p;
        }
        k = k + 1;
    }
    (s.x, s.y)
}

/// Where the search for a place of the fence `idx` begins: its size brought to the grid, its
/// position brought to the grid of the work area and into the work area.
pub open spec fn snapped(f: Fence, idx: usize, icon_px: u32, wa: Rect) -> Search {
    let w = snap_w_of(icon_px as int, f.dpi as int, f.cfg.w as int);
    let h = snap_h_of(icon_px as int, f.dpi as int, f.cfg.h as int);
    let slot_w = cell_w_of(icon_px as int, f.dpi as int);
    let slot_h = cell_h_of(icon_px as int, f.dpi as int);
    let x = magnet_of(f.cfg.x as int, slot_w, wa.left as int, half_of());
    let y = magnet_of(f.cfg.y as int, slot_h, wa.top as int, half_of());
    Search {
        idx,
        wa,
        x: clamp_of(x, wa.left as int, max_of(wa.right - w, wa.left as int)) as i32,
        y: clamp_of(y, wa.top as int, max_of(wa.bottom - h, wa.top as int)) as i32,
        w: w as i32,
        h: h as i32,
        slot_w: slot_w as i32,
        slot_h: slot_h as i32,
    }
}

/// The rectangle that the fence `idx` settles in: where it is snapped to, unless that overlaps
/// another fence and there is a free slot.
#[verifier::opaque]
pub open spec fn settled_rect(fences: Seq<Fence>, idx: usize, icon_px: u32, wa: Rect) -> (int, int, int, int) {
    let s = snapped(fences[idx as int], idx, icon_px, wa);
    let p = if crowded(fences, idx as int, s.x as int, s.y as int, s.w as int, s.h as int) {
        s.found(fences, 0)
    } else {
        (s.x as int, s.y as int)
    };
    (p.0, p.1, s.w as int, s.h as int)
}

/// A fence with another rectangle.
pub open spec fn placed(f: Fence, x: i32, y: i32, w: i32, h: i32) -> Fence {
    Fence { cfg: FenceCfg { x, y, w, h, ..f.cfg }, ..f }
}

/// Whether the size of a fence can be brought to the grid within the machine's integers.
pub open spec fn snappable(f: Fence, icon_px: u32) -> bool {
    &&& snap_w_of(icon_px as int, f.dpi as int, f.cfg.w as int) <= i32::MAX
    &&& snap_h_of(icon_px as int, f.dpi as int, f.cfg.h as int) <= i32::MAX
}

/// Whether the size of a fence can be brought to the grid within the machine's integers.
pub fn can_snap(icon_px: u32, dpi: u32, w: i32, h: i32) -> (r: bool)
    requires
        drawable(icon_px, dpi),
    ensures
        r == (snap_w_of(icon_px as int, dpi as int, w as int) <= i32::MAX && snap_h_of(
            icon_px as int,
            dpi as int,
            h as int,
        ) <= i32::MAX),
{
    let (nw, nh) = snap_wide(icon_px, dpi, w, h);
    nw <= i32::MAX as i64 && nh <= i32::MAX as i64
}

fn snap(f: &Fence, idx: usize, icon_px: u32, wa: Rect) -> (r: Search)
    requires
        drawable(icon_px, f.dpi),
        snappable(*f, icon_px),
    ensures
        r == snapped(*f, idx, icon_px, wa),
        r.w >= 0,
        r.h >= 0,
        r.w == snap_w_of(icon_px as int, f.dpi as int, f.cfg.w as int),
        r.h == snap_h_of(icon_px as int, f.dpi as int, f.cfg.h as int),
{
    proof {
        lemma_cell_range(icon_px as int, f.dpi as int);
    }
    let (w, h) = snap_size(icon_px, f.dpi, f.cfg.w, f.cfg.h);
    let slot_w: i32 = cell_w(icon_px, f.dpi);
    let slot_h: i32 = cell_h(icon_px, f.dpi);
    let x: i64 = magnet_wide(f.cfg.x, slot_w, wa.left, half());
    let y: i64 = magnet_wide(f.cfg.y, slot_h, wa.top, half());
    let x: i32 = place_within(x, wa.left, wa.right, w as i64);
    let y: i32 = place_within(y, wa.top, wa.bottom, h as i64);
    Search { idx, wa, x, y, w, h, slot_w, slot_h }
}

/// What settling a fence asks for.
pub open spec fn settle_effects(hwnd: u64, x: i32, y: i32, w: i32, h: i32) -> Seq<Effect> {
    seq![Effect::Place { hwnd, x, y, w, h }] + stop_effects(hwnd) + seq![
        Effect::Render(hwnd),
        Effect::Save,
        Effect::Reserve,
    ]
}

/// Whether `g` is `old` with the fence `idx` settled, given the work area of its window.
pub open spec fn settled(old: Global, idx: usize, wa: Rect, g: Global) -> bool {
    let r = settled_rect(old.fences@, idx, old.icon_px, wa);
    &&& g.only_fences_changed(old)
    &&& g.fences@ == old.fences@.update(idx as int, g.fences@[idx as int])
    &&& synced(
        placed(old.fences@[idx as int], r.0 as i32, r.1 as i32, r.2 as i32, r.3 as i32),
        old.icon_px,
        g.fences@[idx as int],
    )
    &&& g.config.fences@ == snapshots(g.fences@)
}

/// Settles a fence: on the grid, in the work area, and clear of the others where there is room.
#[verifier::rlimit(40)]
pub fn settle_fence(g: &mut Global, idx: usize, wa: Rect, fx: &mut Vec<Effect>)
    requires
        old(g).wf(),
        idx < old(g).fences@.len() ==> snappable(old(g).fences@[idx as int], old(g).icon_px),
    ensures
        final(g).wf(),
        idx >= old(g).fences@.len() ==> *final(g) == *old(g) && final(fx)@ == old(fx)@,
        idx < old(g).fences@.len() ==> settled(*old(g), idx, wa, *final(g)) && ({
            let r = settled_rect(old(g).fences@, idx, old(g).icon_px, wa);
            final(fx)@ == old(fx)@ + settle_effects(
                old(g).fences@[idx as int].hwnd,
                r.0 as i32,
                r.1 as i32,
                r.2 as i32,
                r.3 as i32,
            )
        }),
        forall|p: (int, int), k: (int, int)|
            idx < old(g).fences@.len() && #[trigger] is_open_nearest(
                old(g).fences@,
                idx as int,
                old(g).icon_px,
                wa,
                p,
                k,
                final(g).fences@[idx as int].cfg.w as int,
                final(g).fences@[idx as int].cfg.h as int,
            ) ==> final(g).fences@[idx as int].cfg.x == p.0 && final(g).fences@[idx as int].cfg.y == p.1,
{
    proof {
        reveal(settled_rect);
    }
    if idx >= g.fences.len() {
        return;
    }
    let ghost before = *g;
    let ghost fx0 = fx@;
    assert(g.fences@[idx as int].wf());
    let icon_px: u32 = g.icon_px;
    let s = snap(&g.fences[idx], idx, icon_px, wa);
    let mut p: (i32, i32) = (s.x, s.y);
    if overlaps_any(g, idx, s.x, s.y, s.w, s.h) {
        p = search(g, &s);
    }
    let hwnd: u64 = g.fences[idx].hwnd;
    g.fences[idx].cfg.x = p.0;
    g.fences[idx].cfg.y = p.1;
    g.fences[idx].cfg.w = s.w;
    g.fences[idx].cfg.h = s.h;
    fx.push(Effect::Place { hwnd, x: p.0, y: p.1, w: s.w, h: s.h });
    assert(g.fences@[idx as int] == placed(before.fences@[idx as int], p.0, p.1, s.w, s.h));
    sync_page(&mut g.fences[idx], icon_px, fx);
    fx.push(Effect::Render(hwnd));
    sync_config(g, fx);
    fx.push(Effect::Reserve);
    proof {
        assert(g.fences@ =~= before.fences@.update(idx as int, g.fences@[idx as int]));
        assert(fx@ =~= fx0 + settle_effects(hwnd, p.0, p.1, s.w, s.h));
        assert forall|i: int| 0 <= i < g.fences@.len() implies (#[trigger] g.fences@[i]).wf() && drawable(
            g.icon_px,
            g.fences@[i].dpi,
        ) by {
            if i != idx {
                assert(g.fences@[i] == before.fences@[i]);
            }
        }
        assert forall|q: (int, int), k: (int, int)| #[trigger]
            is_open_nearest(before.fences@, idx as int, icon_px, wa, q, k, s.w as int, s.h as int) implies p.0 == q.0 && p.1
            == q.1 by {
            lemma_settles_on_nearest(before.fences@, idx, icon_px, wa, q.0, q.1, k.0, k.1);
        }
    }
}

proof fn lemma_found(s: Search, fences: Seq<Fence>, k: int)
    requires
        0 <= k <= 4 * SEARCH_STEPS,
    ensures
        s.found(fences, k) == (s.x as int, s.y as int) && (forall|j: int|
            k <= j < 4 * SEARCH_STEPS ==> !s.free(fences, j)) || exists|j: int|
            k <= j < 4 * SEARCH_STEPS && #[trigger] s.free(fences, j) && s.found(fences, k) == s.slot(j) && (forall|i: int|
                k <= i < j ==> !s.free(fences, i)),
    decreases 4 * SEARCH_STEPS - k,
{
    if k < 4 * SEARCH_STEPS && !s.free(fences, k) {
        lemma_found(s, fences, k + 1);
        if exists|j: int|
            k + 1 <= j < 4 * SEARCH_STEPS && #[trigger] s.free(fences, j) && s.found(fences, k + 1) == s.slot(j) && (
            forall|i: int| k + 1 <= i < j ==> !s.free(fences, i)) {
            let j = choose|j: int|
                k + 1 <= j < 4 * SEARCH_STEPS && #[trigger] s.free(fences, j) && s.found(fences, k + 1) == s.slot(j)
                    && (forall|i: int| k + 1 <= i < j ==> !s.free(fences, i));
            assert forall|i: int| k <= i < j implies !s.free(fences, i) by {}
            assert(s.free(fences, j) && s.found(fences, k) == s.slot(j));
        } else {
            assert forall|j: int| k <= j < 4 * SEARCH_STEPS implies !s.free(fences, j) by {}
        }
    } else if k < 4 * SEARCH_STEPS {
        assert(s.free(fences, k) && s.found(fences, k) == s.slot(k));
    }
}

/// A fence settles clear of all other valid fences, unless where it snaps to is taken and so is
/// every slot of the search.
pub proof fn lemma_settles_clear(fences: Seq<Fence>, idx: usize, icon_px: u32, wa: Rect)
    requires
        idx < fences.len(),
    ensures
        ({
            let r = settled_rect(fences, idx, icon_px, wa);
            let s = snapped(fences[idx as int], idx, icon_px, wa);
            crowded(fences, idx as int, r.0, r.1, r.2, r.3) ==> (r.0, r.1) == (s.x as int, s.y as int) && forall|k: int|
                0 <= k < 4 * SEARCH_STEPS ==> !s.free(fences, k)
        }),
{
    reveal(settled_rect);
    let s = snapped(fences[idx as int], idx, icon_px, wa);
    lemma_found(s, fences, 0);
}

/// A fence that is no larger than the work area settles inside it.
pub proof fn lemma_settles_inside(fences: Seq<Fence>, idx: usize, icon_px: u32, wa: Rect)
    requires
        idx < fences.len(),
        drawable(icon_px, fences[idx as int].dpi),
        snap_w_of(icon_px as int, fences[idx as int].dpi as int, fences[idx as int].cfg.w as int) <= wa.right - wa.left,
        snap_h_of(icon_px as int, fences[idx as int].dpi as int, fences[idx as int].cfg.h as int) <= wa.bottom - wa.top,
        snappable(fences[idx as int], icon_px),
    ensures
        ({
            let r = settled_rect(fences, idx, icon_px, wa);
            within(wa, r.0, r.1, r.2, r.3)
        }),
{
    reveal(settled_rect);
    let f = fences[idx as int];
    lemma_cell_range(icon_px as int, f.dpi as int);
    let s = snapped(f, idx, icon_px, wa);
    assert(within(wa, s.x as int, s.y as int, s.w as int, s.h as int));
    lemma_found(s, fences, 0);
}

/// The upper left corner of a settled fence lies in the work area whatever its size, as long as
/// the work area is not turned round.
pub proof fn lemma_settles_reachable(fences: Seq<Fence>, idx: usize, icon_px: u32, wa: Rect)
    requires
        idx < fences.len(),
        drawable(icon_px, fences[idx as int].dpi),
        snappable(fences[idx as int], icon_px),
        wa.left <= wa.right,
        wa.top <= wa.bottom,
    ensures
        ({
            let r = settled_rect(fences, idx, icon_px, wa);
            wa.left <= r.0 <= wa.right && wa.top <= r.1 <= wa.bottom
        }),
{
    reveal(settled_rect);
    let f = fences[idx as int];
    lemma_cell_range(icon_px as int, f.dpi as int);
    lemma_found(snapped(f, idx, icon_px, wa), fences, 0);
}

/// The size of a settled fence is that of a whole number of cells, and not below the least size.
pub proof fn lemma_settles_on_grid(fences: Seq<Fence>, idx: usize, icon_px: u32, wa: Rect)
    requires
        idx < fences.len(),
        drawable(icon_px, fences[idx as int].dpi),
        snappable(fences[idx as int], icon_px),
    ensures
        ({
            let r = settled_rect(fences, idx, icon_px, wa);
            let dpi = fences[idx as int].dpi as int;
            let across = r.2 - 2 * scaled_px(10, dpi) - scaled_px(22, dpi);
            let down = r.3 - scaled_px(30, dpi) - 2 * scaled_px(10, dpi);
            &&& r.2 >= scaled_px(180, dpi)
            &&& r.3 >= scaled_px(100, dpi)
            &&& exists|k: int| k >= 1 && across == #[trigger] (k * cell_w_of(icon_px as int, dpi))
            &&& exists|k: int| k >= 1 && down == #[trigger] (k * cell_h_of(icon_px as int, dpi))
        }),
{
    reveal(settled_rect);
    let f = fences[idx as int];
    let dpi = f.dpi as int;
    lemma_snap_on_grid(icon_px, f.dpi, f.cfg.w as int, f.cfg.h as int);
    let kw = snap_cols_of(icon_px as int, dpi, f.cfg.w as int);
    let kh = snap_rows_of(icon_px as int, dpi, f.cfg.h as int);
    let r = settled_rect(fences, idx, icon_px, wa);
    assert(r.2 - 2 * scaled_px(10, dpi) - scaled_px(22, dpi) == kw * cell_w_of(icon_px as int, dpi));
    assert(r.3 - scaled_px(30, dpi) - 2 * scaled_px(10, dpi) == kh * cell_h_of(icon_px as int, dpi));
}

/// The fences after the first `k` have settled one after the other, but for their pages.
pub open spec fn laid_out(fences: Seq<Fence>, icon_px: u32, areas: Seq<Rect>, k: int) -> Seq<Fence>
    decreases k,
{
    if k <= 0 {
        fences
    } else {
        let p = laid_out(fences, icon_px, areas, k - 1);
        let r = settled_rect(p, (k - 1) as usize, icon_px, areas[k - 1]);
        p.update(k - 1, placed(p[k - 1], r.0 as i32, r.1 as i32, r.2 as i32, r.3 as i32))
    }
}

/// Whether two lists of fences have the same rectangles on the same displays.
pub open spec fn same_layout(a: Seq<Fence>, b: Seq<Fence>) -> bool {
    &&& a.len() == b.len()
    &&& forall|i: int| #![trigger a[i]] #![trigger b[i]]
        0 <= i < a.len() ==> a[i].cfg == b[i].cfg && a[i].valid == b[i].valid && a[i].dpi == b[i].dpi && a[i].hwnd
            == b[i].hwnd
}

proof fn lemma_crowded_same(a: Seq<Fence>, b: Seq<Fence>, idx: int, x: int, y: int, w: int, h: int)
    requires
        same_layout(a, b),
    ensures
        crowded(a, idx, x, y, w, h) == crowded(b, idx, x, y, w, h),
{
    if crowded(a, idx, x, y, w, h) {
        let i = choose|i: int|
            0 <= i < a.len() && i != idx && (#[trigger] a[i]).valid && overlap_of(
                x,
                y,
                w,
                h,
                a[i].cfg.x as int,
                a[i].cfg.y as int,
                a[i].cfg.w as int,
                a[i].cfg.h as int,
            );
        assert(b[i].valid);
    }
    if crowded(b, idx, x, y, w, h) {
        let i = choose|i: int|
            0 <= i < b.len() && i != idx && (#[trigger] b[i]).valid && overlap_of(
                x,
                y,
                w,
                h,
                b[i].cfg.x as int,
                b[i].cfg.y as int,
                b[i].cfg.w as int,
                b[i].cfg.h as int,
            );
        assert(a[i].valid);
    }
}

proof fn lemma_found_same(s: Search, a: Seq<Fence>, b: Seq<Fence>, k: int)
    requires
        same_layout(a, b),
    ensures
        s.found(a, k) == s.found(b, k),
    decreases 4 * SEARCH_STEPS - k,
{
    if k < 4 * SEARCH_STEPS {
        let p = s.slot(k);
        lemma_crowded_same(a, b, s.idx as int, p.0, p.1, s.w as int, s.h as int);
        lemma_found_same(s, a, b, k + 1);
    }
}

/// Where a fence settles depends on the rectangles of the fences and their displays alone.
pub proof fn lemma_settled_same(a: Seq<Fence>, b: Seq<Fence>, idx: usize, icon_px: u32, wa: Rect)
    requires
        same_layout(a, b),
        idx < a.len(),
    ensures
        settled_rect(a, idx, icon_px, wa) == settled_rect(b, idx, icon_px, wa),
{
    reveal(settled_rect);
    assert(a[idx as int].cfg == b[idx as int].cfg);
    let s = snapped(a[idx as int], idx, icon_px, wa);
    assert(s == snapped(b[idx as int], idx, icon_px, wa));
    lemma_crowded_same(a, b, idx as int, s.x as int, s.y as int, s.w as int, s.h as int);
    lemma_found_same(s, a, b, 0);
}

/// What settling the first `k` fences asks for.
pub open spec fn layout_effects(fences: Seq<Fence>, icon_px: u32, areas: Seq<Rect>, k: int) -> Seq<Effect>
    decreases k,
{
    if k <= 0 {
        Seq::empty()
    } else {
        let p = laid_out(fences, icon_px, areas, k - 1);
        let r = settled_rect(p, (k - 1) as usize, icon_px, areas[k - 1]);
        layout_effects(fences, icon_px, areas, k - 1) + settle_effects(
            fences[k - 1].hwnd,
            r.0 as i32,
            r.1 as i32,
            r.2 as i32,
            r.3 as i32,
        )
    }
}

proof fn lemma_laid_out(fences: Seq<Fence>, icon_px: u32, areas: Seq<Rect>, k: int)
    requires
        0 <= k <= fences.len(),
    ensures
        laid_out(fences, icon_px, areas, k).len() == fences.len(),
        forall|i: int| k <= i < fences.len() ==> #[trigger] laid_out(fences, icon_px, areas, k)[i] == fences[i],
        forall|i: int|
            0 <= i < fences.len() ==> (#[trigger] laid_out(fences, icon_px, areas, k)[i]).dpi == fences[i].dpi
                && laid_out(fences, icon_px, areas, k)[i].hwnd == fences[i].hwnd,
    decreases k,
{
    if k > 0 {
        lemma_laid_out(fences, icon_px, areas, k - 1);
    }
}

/// Whether `g` is `old` with all fences settled one after the other.
pub open spec fn all_settled(old: Global, areas: Seq<Rect>, g: Global) -> bool {
    let n = old.fences@.len() as int;
    &&& g.only_fences_changed(old)
    &&& g.fences@.len() == n
    &&& forall|i: int|
        0 <= i < n ==> synced(
            laid_out(old.fences@, old.icon_px, areas, n)[i],
            old.icon_px,
            #[trigger] g.fences@[i],
        )
    &&& n > 0 ==> g.config.fences@ == snapshots(g.fences@)
    &&& n == 0 ==> g == old
}

/// Settles all fences one after the other, given the work area of each.
#[verifier::rlimit(40)]
pub fn settle_all(g: &mut Global, areas: &Vec<Rect>, fx: &mut Vec<Effect>)
    requires
        old(g).wf(),
        areas@.len() == old(g).fences@.len(),
        forall|i: int|
            0 <= i < old(g).fences@.len() ==> snappable(#[trigger] old(g).fences@[i], old(g).icon_px),
    ensures
        final(g).wf(),
        all_settled(*old(g), areas@, *final(g)),
        final(fx)@ == old(fx)@ + layout_effects(
            old(g).fences@,
            old(g).icon_px,
            areas@,
            old(g).fences@.len() as int,
        ),
{
    let ghost before = *g;
    let ghost fx0 = fx@;
    let n: usize = g.fences.len();
    let mut i: usize = 0;
    assert(fx@ =~= fx0 + layout_effects(before.fences@, before.icon_px, areas@, 0));
    while i < n
        invariant
            i <= n,
            n == g.fences@.len(),
            n == before.fences@.len(),
            n == areas@.len(),
            g.wf(),
            g.only_fences_changed(before),
            forall|j: int| 0 <= j < n ==> snappable(#[trigger] before.fences@[j], before.icon_px),
            forall|j: int| i <= j < n ==> #[trigger] g.fences@[j] == before.fences@[j],
            forall|j: int|
                0 <= j < i ==> synced(
                    laid_out(before.fences@, before.icon_px, areas@, i as int)[j],
                    before.icon_px,
                    #[trigger] g.fences@[j],
                ),
            i > 0 ==> g.config.fences@ == snapshots(g.fences@),
            i == 0 ==> *g == before,
            fx@ == fx0 + layout_effects(before.fences@, before.icon_px, areas@, i as int),
        decreases n - i,
    {
        let ghost mid = *g;
        let ghost fx1 = fx@;
        let ghost p = laid_out(before.fences@, before.icon_px, areas@, i as int);
        proof {
            lemma_laid_out(before.fences@, before.icon_px, areas@, i as int);
            assert forall|j: int| #![trigger p[j]] #![trigger g.fences@[j]]
                0 <= j < n implies p[j].cfg == g.fences@[j].cfg && p[j].valid == g.fences@[j].valid && p[j].dpi
                == g.fences@[j].dpi && p[j].hwnd == g.fences@[j].hwnd by {
                if j < i {
                    assert(synced(p[j], before.icon_px, g.fences@[j]));
                } else {
                    assert(g.fences@[j] == before.fences@[j]);
                }
            }
            lemma_settled_same(p, g.fences@, i, before.icon_px, areas@[i as int]);
            assert(g.fences@[i as int] == before.fences@[i as int]);
            assert(snappable(before.fences@[i as int], before.icon_px));
        }
        settle_fence(g, i, areas[i], fx);
        proof {
            let q = laid_out(before.fences@, before.icon_px, areas@, i + 1);
            assert forall|j: int| i + 1 <= j < n implies #[trigger] g.fences@[j] == before.fences@[j] by {
                assert(mid.fences@[j] == before.fences@[j]);
            }
            assert forall|j: int| 0 <= j < i + 1 implies synced(q[j], before.icon_px, #[trigger] g.fences@[j]) by {
                if j < i {
                    assert(g.fences@[j] == mid.fences@[j]);
                    assert(synced(p[j], before.icon_px, mid.fences@[j]));
                } else {
                    assert(p[i as int] == before.fences@[i as int]);
                }
            }
            assert(fx@ =~= fx0 + layout_effects(before.fences@, before.icon_px, areas@, i + 1));
        }
        i = i + 1;
    }
}

/// Where a fence settles is within the machine's integers.
proof fn lemma_settled_range(fences: Seq<Fence>, idx: usize, icon_px: u32, wa: Rect)
    requires
        idx < fences.len(),
        drawable(icon_px, fences[idx as int].dpi),
        snappable(fences[idx as int], icon_px),
    ensures
        ({
            let r = settled_rect(fences, idx, icon_px, wa);
            &&& i32::MIN <= r.0 <= i32::MAX
            &&& i32::MIN <= r.1 <= i32::MAX
            &&& 0 <= r.2 <= i32::MAX
            &&& 0 <= r.3 <= i32::MAX
        }),
{
    reveal(settled_rect);
    let f = fences[idx as int];
    lemma_cell_range(icon_px as int, f.dpi as int);
    let s = snapped(f, idx, icon_px, wa);
    assert(s.w == snap_w_of(icon_px as int, f.dpi as int, f.cfg.w as int));
    assert(s.h == snap_h_of(icon_px as int, f.dpi as int, f.cfg.h as int));
    lemma_found(s, fences, 0);
}

/// Whether two fences overlap.
pub open spec fn fences_overlap(a: Fence, b: Fence) -> bool {
    overlap_of(
        a.cfg.x as int,
        a.cfg.y as int,
        a.cfg.w as int,
        a.cfg.h as int,
        b.cfg.x as int,
        b.cfg.y as int,
        b.cfg.w as int,
        b.cfg.h as int,
    )
}

/// Whether the `k`th fence in its turn can settle, and finds a place clear of the others.
pub open spec fn finds_place(fences: Seq<Fence>, icon_px: u32, areas: Seq<Rect>, k: int) -> bool {
    let p = laid_out(fences, icon_px, areas, k);
    let r = settled_rect(p, k as usize, icon_px, areas[k]);
    &&& drawable(icon_px, fences[k].dpi)
    &&& snappable(fences[k], icon_px)
    &&& !crowded(p, k, r.0, r.1, r.2, r.3)
}

/// Where every fence in its turn finds a place clear of the others, no two valid ones overlap once
/// all have settled.
pub proof fn lemma_layout_clear(fences: Seq<Fence>, icon_px: u32, areas: Seq<Rect>, n: int)
    requires
        0 <= n <= fences.len() <= usize::MAX,
        forall|k: int| 0 <= k < n ==> #[trigger] finds_place(fences, icon_px, areas, k),
    ensures
        forall|i: int, j: int|
            0 <= i < j < n && laid_out(fences, icon_px, areas, n)[i].valid && laid_out(fences, icon_px, areas, n)[j].valid
                ==> !fences_overlap(
                #[trigger] laid_out(fences, icon_px, areas, n)[i],
                #[trigger] laid_out(fences, icon_px, areas, n)[j],
            ),
    decreases n,
{
    if n > 0 {
        lemma_layout_clear(fences, icon_px, areas, n - 1);
        let p = laid_out(fences, icon_px, areas, n - 1);
        let q = laid_out(fences, icon_px, areas, n);
        lemma_laid_out(fences, icon_px, areas, n - 1);
        assert(finds_place(fences, icon_px, areas, n - 1));
        assert(p[n - 1] == fences[n - 1]);
        let r = settled_rect(p, (n - 1) as usize, icon_px, areas[n - 1]);
        lemma_settled_range(p, (n - 1) as usize, icon_px, areas[n - 1]);
        assert forall|i: int, j: int| 0 <= i < j < n && q[i].valid && q[j].valid implies !fences_overlap(
            #[trigger] q[i],
            #[trigger] q[j],
        ) by {
            assert(q[i] == p[i]);
            if j < n - 1 {
                assert(q[j] == p[j]);
                assert(!fences_overlap(p[i], p[j]));
            } else {
                let c = p[i].cfg;
                assert(!overlap_of(r.0, r.1, r.2, r.3, c.x as int, c.y as int, c.w as int, c.h as int));
            }
        }
    }
}

} // verus!
