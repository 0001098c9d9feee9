//! How fences come and go: their creation and restoration, the download box, what is shown, and the
//! regular checks of the windows.
use crate::config::{
    chosen_icon, first_free_id, largest_id, lemma_rescaled_same_dpi, migrate_icon, rescaled, scale_extent_for_dpi,
    Config, FenceCfg, MENU_OPACITY,
};
use crate::effect::{added, extends, Effect};
use crate::fence::{
    lemma_snapshot_dpi, refresh_entries, refreshed, snapshot_of, snapshots, stop_effects, synced, Entry, Fence,
};
use crate::float::SINGLE;
use crate::geometry::{
    clamp_of, dpi_of_ratio, dpi_scale, dpi_units, drawable, icon_px_of, larger, max_of, min_h, min_of, min_w, place_within, scaled,
    scaled_px, set_icon_px, window_dpi, Rect, BASE_DPI,
};
use crate::layout::{placed, settle_effects, settle_fence, settled_rect, snappable};
use crate::paths::{collect, unique};
use crate::state::{sync_config, Global};
use crate::text::{decimal, decimal_text};
use vstd::prelude::*;

verus! {

/// The place of a fence that has none: a cascade at the upper right of the screen.
pub open spec fn cascade_x(screen_w: int, dpi: int, n: int) -> int {
    max_of(screen_w - scaled_px(320, dpi) - scaled_px(20, dpi) - (n % 5) * scaled_px(30, dpi), 0)
}

pub open spec fn cascade_y(screen_h: int, dpi: int, n: int) -> int {
    min_of(scaled_px(80, dpi) + (n % 5) * scaled_px(40, dpi), max_of(screen_h - scaled_px(400, dpi), 0))
}

/// The configuration that a window is made from: with an id, a place, and at least the least size
/// at the DPI it was saved at.
pub open spec fn prepared(cfg: FenceCfg, next_id: u32, n: int, screen: (i32, i32), system_dpi: int) -> FenceCfg {
    let unplaced = cfg.x == 0 && cfg.y == 0;
    FenceCfg {
        id: if cfg.id == 0 { next_id } else { cfg.id },
        x: if unplaced { cascade_x(screen.0 as int, system_dpi, n) as i32 } else { cfg.x },
        y: if unplaced { cascade_y(screen.1 as int, system_dpi, n) as i32 } else { cfg.y },
        w: if cfg.dpi != 0 { max_of(cfg.w as int, scaled_px(180, cfg.dpi as int)) as i32 } else { cfg.w },
        h: if cfg.dpi != 0 { max_of(cfg.h as int, scaled_px(100, cfg.dpi as int)) as i32 } else { cfg.h },
        ..cfg
    }
}

/// Begins the creation of a fence: says what its window is to be made from. The system's DPI
/// counts only where the fence has no place yet, since the display it is going to be on is not
/// known.
pub fn begin_create(g: &mut Global, cfg: FenceCfg, screen: (i32, i32), reported_dpi: u32) -> (r: FenceCfg)
    requires
        cfg.id == 0 ==> old(g).next_id < u32::MAX,
    ensures
        r == prepared(
            cfg,
            old(g).next_id,
            old(g).fences@.len() as int,
            screen,
            max_of(reported_dpi as int, BASE_DPI as int),
        ),
        *final(g) == (Global {
            next_id: if cfg.id == 0 { (old(g).next_id + 1) as u32 } else { old(g).next_id },
            ..*old(g)
        }),
{
    let mut c = cfg;
    if c.id == 0 {
        c.id = g.next_id;
        g.next_id = g.next_id + 1;
    }
    let dpi: u32 = dpi_scale(reported_dpi);
    if c.x == 0 && c.y == 0 {
        let n: i64 = (g.fences.len() % 5) as i64;
        let dx: i64 = scaled(30, dpi) as i64;
        let dy: i64 = scaled(40, dpi) as i64;
        assert(0 <= n * dx <= 5 * dx && 0 <= n * dy <= 5 * dy) by (nonlinear_arith)
            requires
                0 <= n <= 4,
                dx >= 0,
                dy >= 0,
        ;
        let x: i64 = screen.0 as i64 - scaled(320, dpi) as i64 - scaled(20, dpi) as i64 - n * dx;
        let y: i64 = scaled(80, dpi) as i64 + n * dy;
        let lowest: i64 = screen.1 as i64 - scaled(400, dpi) as i64;
        let lowest: i64 = if lowest >= 0 { lowest } else { 0 };
        c.x = if x >= 0 { x as i32 } else { 0 };
        c.y = if y <= lowest { y as i32 } else { lowest as i32 };
    }
    if c.dpi != 0 {
        if c.w < min_w(c.dpi) {
            c.w = min_w(c.dpi);
        }
        if c.h < min_h(c.dpi) {
            c.h = min_h(c.dpi);
        }
    }
    c
}

/// A fence whose window was made and whose size is being brought to the DPI of its display. A
/// change of size can move the window to another display, so the DPI is read again; two rounds
/// at most.
#[derive(Debug)]
pub struct Creation {
    pub fence: Fence,
    pub saved_dpi: u32,
    pub saved_w: i32,
    pub saved_h: i32,
    pub current_dpi: u32,
    pub rounds: u32,
}

/// What comes next in a creation.
#[derive(Clone, Copy, Debug, PartialEq, Eq, Structural)]
pub enum CreateStep {
    /// Bring the size to the current DPI, and read the DPI again.
    Round,
    /// The DPI does not settle: clamp the window to the work area of its display.
    Clamp,
    /// Take over what the window has become.
    Finish,
}

/// A saved width at the current DPI, at least the least one.
pub open spec fn restored_w(saved: int, saved_dpi: int, current_dpi: int) -> int {
    max_of(rescaled(saved, saved_dpi, current_dpi), scaled_px(180, current_dpi))
}

/// A saved height at the current DPI, at least the least one.
pub open spec fn restored_h(saved: int, saved_dpi: int, current_dpi: int) -> int {
    max_of(rescaled(saved, saved_dpi, current_dpi), scaled_px(100, current_dpi))
}

/// The DPI that a window reports, as it is saved.
pub open spec fn seen_dpi(reported_dpi: int) -> int {
    dpi_of_ratio(max_of(reported_dpi, BASE_DPI as int))
}

impl Creation {
    pub open spec fn width(self) -> int {
        restored_w(self.saved_w as int, self.saved_dpi as int, self.current_dpi as int)
    }

    pub open spec fn height(self) -> int {
        restored_h(self.saved_h as int, self.saved_dpi as int, self.current_dpi as int)
    }

    /// The restoration of a fence whose window was just made.
    pub fn new(cfg: FenceCfg, hwnd: u64, reported_dpi: u32, fx: &mut Vec<Effect>) -> (r: Creation)
        ensures
            r.fence.is_new(cfg, hwnd, max_of(reported_dpi as int, BASE_DPI as int)),
            r.fence.wf(),
            r.saved_dpi == cfg.dpi,
            r.saved_w == cfg.w,
            r.saved_h == cfg.h,
            r.current_dpi == seen_dpi(reported_dpi as int),
            r.rounds == 0,
            final(fx)@ == old(fx)@.push(Effect::RegisterDrop(hwnd)),
    {
        fx.push(Effect::RegisterDrop(hwnd));
        let saved_dpi: u32 = cfg.dpi;
        let saved_w: i32 = cfg.w;
        let saved_h: i32 = cfg.h;
        let fence = Fence::new(cfg, hwnd, reported_dpi);
        let current_dpi: u32 = dpi_units(fence.dpi);
        Creation { fence, saved_dpi, saved_w, saved_h, current_dpi, rounds: 0 }
    }

    /// Brings the size to the current DPI. The place stays: it belongs to all displays together.
    pub fn round(&mut self, fx: &mut Vec<Effect>)
        ensures
            *final(self) == (Creation {
                fence: Fence {
                    dpi: old(self).current_dpi,
                    cfg: FenceCfg {
                        w: old(self).width() as i32,
                        h: old(self).height() as i32,
                        ..old(self).fence.cfg
                    },
                    ..old(self).fence
                },
                ..*old(self)
            }),
            final(fx)@ == (if old(self).width() != old(self).fence.cfg.w || old(self).height()
                != old(self).fence.cfg.h {
                old(fx)@.push(
                    Effect::Place {
                        hwnd: old(self).fence.hwnd,
                        x: old(self).fence.cfg.x,
                        y: old(self).fence.cfg.y,
                        w: old(self).width() as i32,
                        h: old(self).height() as i32,
                    },
                )
            } else {
                old(fx)@
            }),
    {
        self.fence.dpi = self.current_dpi;
        let w: i32 = larger(
            scale_extent_for_dpi(self.saved_w, self.saved_dpi, self.current_dpi),
            min_w(self.current_dpi),
        );
        let h: i32 = larger(
            scale_extent_for_dpi(self.saved_h, self.saved_dpi, self.current_dpi),
            min_h(self.current_dpi),
        );
        if w != self.fence.cfg.w || h != self.fence.cfg.h {
            fx.push(
                Effect::Place { hwnd: self.fence.hwnd, x: self.fence.cfg.x, y: self.fence.cfg.y, w, h },
            );
            self.fence.cfg.w = w;
            self.fence.cfg.h = h;
        }
    }

    /// What comes next when the window reports a DPI after a round.
    pub open spec fn next_step(self, reported_dpi: int) -> CreateStep {
        if seen_dpi(reported_dpi) == self.current_dpi {
            CreateStep::Finish
        } else if self.rounds == 0 {
            CreateStep::Round
        } else {
            CreateStep::Clamp
        }
    }

    /// The creation after that report.
    pub open spec fn after_look(self, reported_dpi: int) -> Creation {
        if seen_dpi(reported_dpi) == self.current_dpi {
            self
        } else {
            Creation { current_dpi: seen_dpi(reported_dpi) as u32, rounds: (self.rounds + 1) as u32, ..self }
        }
    }

    /// Says what comes next, given the DPI that the window reports after a round.
    pub fn observe(&mut self, reported_dpi: u32) -> (r: CreateStep)
        requires
            old(self).rounds < 2,
        ensures
            r == old(self).next_step(reported_dpi as int),
            *final(self) == old(self).after_look(reported_dpi as int),
    {
        let observed: u32 = dpi_units(window_dpi(reported_dpi));
        if observed == self.current_dpi {
            return CreateStep::Finish;
        }
        self.current_dpi = observed;
        self.rounds = self.rounds + 1;
        if self.rounds == 2 {
            CreateStep::Clamp
        } else {
            CreateStep::Round
        }
    }

    /// The size of a window that is clamped to a work area.
    pub open spec fn clamped_size(self, wa: Rect) -> (int, int) {
        (min_of(self.width(), wa.right - wa.left), min_of(self.height(), wa.bottom - wa.top))
    }

    /// Where a window that is clamped to a work area goes.
    pub open spec fn clamped_place(self, wa: Rect) -> (int, int) {
        let s = self.clamped_size(wa);
        (
            clamp_of(self.fence.cfg.x as int, wa.left as int, max_of(wa.right - s.0, wa.left as int)),
            clamp_of(self.fence.cfg.y as int, wa.top as int, max_of(wa.bottom - s.1, wa.top as int)),
        )
    }

    /// Ends a restoration whose DPI does not settle: the window goes into the work area of the
    /// display that it is on.
    pub fn clamp(&mut self, wa: Rect, fx: &mut Vec<Effect>)
        requires
            measurable(wa),
        ensures
            *final(self) == (Creation {
                fence: Fence { dpi: old(self).current_dpi, ..old(self).fence },
                ..*old(self)
            }),
            final(fx)@ == old(fx)@.push(
                Effect::Place {
                    hwnd: old(self).fence.hwnd,
                    x: old(self).clamped_place(wa).0 as i32,
                    y: old(self).clamped_place(wa).1 as i32,
                    w: old(self).clamped_size(wa).0 as i32,
                    h: old(self).clamped_size(wa).1 as i32,
                },
            ),
    {
        self.fence.dpi = self.current_dpi;
        let w: i64 = larger(
            scale_extent_for_dpi(self.saved_w, self.saved_dpi, self.current_dpi),
            min_w(self.current_dpi),
        ) as i64;
        let h: i64 = larger(
            scale_extent_for_dpi(self.saved_h, self.saved_dpi, self.current_dpi),
            min_h(self.current_dpi),
        ) as i64;
        let across: i64 = wa.right as i64 - wa.left as i64;
        let down: i64 = wa.bottom as i64 - wa.top as i64;
        let w: i64 = if w <= across { w } else { across };
        let h: i64 = if h <= down { h } else { down };
        let x: i32 = place_within(self.fence.cfg.x as i64, wa.left, wa.right, w);
        let y: i32 = place_within(self.fence.cfg.y as i64, wa.top, wa.bottom, h);
        fx.push(Effect::Place { hwnd: self.fence.hwnd, x, y, w: w as i32, h: h as i32 });
    }
}

/// What is saved of a fence comes back: made again on a display of the same DPI, it has the width and
/// height that it was saved with, or the least ones.
pub proof fn lemma_saved_size_comes_back(f: Fence)
    requires
        BASE_DPI <= f.dpi < 0x20_0000,
    ensures
        ({
            let c = snapshot_of(f);
            &&& c.x == f.cfg.x && c.y == f.cfg.y
            &&& restored_w(c.w as int, c.dpi as int, f.dpi as int) == max_of(
                f.cfg.w as int,
                scaled_px(180, f.dpi as int),
            )
            &&& restored_h(c.h as int, c.dpi as int, f.dpi as int) == max_of(
                f.cfg.h as int,
                scaled_px(100, f.dpi as int),
            )
        }),
{
    lemma_snapshot_dpi(f);
    lemma_rescaled_same_dpi(f.cfg.w as int, f.dpi as int, f.dpi as int);
    lemma_rescaled_same_dpi(f.cfg.h as int, f.dpi as int, f.dpi as int);
}

/// A fence whose DPI is unknown keeps its size on every display, as far as it has the least one.
pub proof fn lemma_unknown_dpi_keeps_size(c: FenceCfg, current_dpi: int)
    requires
        c.dpi == 0,
        0 <= current_dpi <= u32::MAX,
    ensures
        restored_w(c.w as int, c.dpi as int, current_dpi) == max_of(c.w as int, scaled_px(180, current_dpi)),
        restored_h(c.h as int, c.dpi as int, current_dpi) == max_of(c.h as int, scaled_px(100, current_dpi)),
{
    lemma_rescaled_same_dpi(c.w as int, 0, current_dpi);
    lemma_rescaled_same_dpi(c.h as int, 0, current_dpi);
}

/// A creation comes to its end after two rounds at most, whatever DPI the window reports: a second
/// round is followed by a clamp or by the finish.
pub proof fn lemma_creation_ends(c: Creation, first: int, second: int)
    requires
        c.next_step(first) == CreateStep::Round,
    ensures
        c.after_look(first).next_step(second) != CreateStep::Round,
        c.after_look(first).rounds < 2,
{
}

/// A window that is clamped to a work area lies inside it.
pub proof fn lemma_clamp_inside(c: Creation, wa: Rect)
    requires
        wa.left <= wa.right,
        wa.top <= wa.bottom,
    ensures
        wa.left <= c.clamped_place(wa).0,
        wa.top <= c.clamped_place(wa).1,
        c.clamped_place(wa).0 + c.clamped_size(wa).0 <= wa.right,
        c.clamped_place(wa).1 + c.clamped_size(wa).1 <= wa.bottom,
{
}

/// A fence with the rectangle and the DPI that its window has in fact.
pub open spec fn measured(f: Fence, reported_dpi: u32, rect: Rect) -> Fence {
    let dpi = max_of(reported_dpi as int, BASE_DPI as int);
    Fence {
        dpi: dpi as u32,
        cfg: FenceCfg {
            x: rect.left,
            y: rect.top,
            w: max_of(rect.right - rect.left, 1) as i32,
            h: max_of(rect.bottom - rect.top, 1) as i32,
            dpi: dpi_of_ratio(dpi) as u32,
            ..f.cfg
        },
        ..f
    }
}

/// Whether the extent of a rectangle is within the machine's integers.
pub open spec fn measurable(r: Rect) -> bool {
    r.right - r.left <= i32::MAX && r.bottom - r.top <= i32::MAX && r.right - r.left >= i32::MIN && r.bottom - r.top
        >= i32::MIN
}

/// Whether the extent of a rectangle is within the machine's integers.
pub fn can_measure(r: Rect) -> (ok: bool)
    ensures
        ok == measurable(r),
{
    let w: i64 = r.right as i64 - r.left as i64;
    let h: i64 = r.bottom as i64 - r.top as i64;
    i32::MIN as i64 <= w && w <= i32::MAX as i64 && i32::MIN as i64 <= h && h <= i32::MAX as i64
}

/// What the finish of a creation asks for.
pub open spec fn create_effects(f: Fence, r: (int, int, int, int)) -> Seq<Effect> {
    stop_effects(f.hwnd) + seq![Effect::Render(f.hwnd)] + settle_effects(
        f.hwnd,
        r.0 as i32,
        r.1 as i32,
        r.2 as i32,
        r.3 as i32,
    ) + match f.cfg.folder {
        Some(d) => seq![Effect::Watch(f.hwnd, d)],
        None => Seq::empty(),
    } + seq![Effect::Save]
}

/// Whether `g` is `old` with one more fence, which has taken over what its window has become, lists
/// its folder, and has settled among the others.
pub open spec fn created(
    old: Global,
    f: Fence,
    reported_dpi: u32,
    rect: Rect,
    listing: Option<Vec<Entry>>,
    wa: Rect,
    g: Global,
    fx: Seq<Effect>,
) -> bool {
    let n = old.fences@.len();
    exists|f1: Fence| #[trigger]
        refreshed(measured(f, reported_dpi, rect), listing, old.icon_px, f1) && ({
            let r = settled_rect(old.fences@.push(f1), n as usize, old.icon_px, wa);
            &&& g.only_fences_changed(old)
            &&& g.fences@.len() == n + 1
            &&& g.fences@.drop_last() == old.fences@
            &&& synced(placed(f1, r.0 as i32, r.1 as i32, r.2 as i32, r.3 as i32), old.icon_px, g.fences@[n as int])
            &&& g.config.fences@ == snapshots(g.fences@)
            &&& fx == create_effects(f, r)
        })
}

/// Finishes the creation of a fence and returns its id: the fence takes over what its window has
/// become, lists its folder, joins the others and settles among them.
#[verifier::rlimit(40)]
pub fn create_fence(
    g: &mut Global,
    fence: Fence,
    reported_dpi: u32,
    rect: Rect,
    listing: &Option<Vec<Entry>>,
    wa: Rect,
    fx: &mut Vec<Effect>,
) -> (r: u32)
    requires
        old(g).wf(),
        old(g).fences@.len() < usize::MAX,
        fence.anim_from.fits(SINGLE as nat, 600),
        measurable(rect),
        drawable(old(g).icon_px, max_of(reported_dpi as int, BASE_DPI as int) as u32),
        snappable(measured(fence, reported_dpi, rect), old(g).icon_px),
    ensures
        r == fence.cfg.id,
        final(g).wf(),
        extends(old(fx)@, final(fx)@),
        created(
            *old(g),
            fence,
            reported_dpi,
            rect,
            *listing,
            wa,
            *final(g),
            added(old(fx)@, final(fx)@),
        ),
{
    let ghost before = *g;
    let ghost fx0 = fx@;
    let icon_px: u32 = g.icon_px;
    let mut f = fence;
    let dpi: u32 = window_dpi(reported_dpi);
    f.dpi = dpi;
    f.cfg.x = rect.left;
    f.cfg.y = rect.top;
    f.cfg.w = larger(rect.right - rect.left, 1);
    f.cfg.h = larger(rect.bottom - rect.top, 1);
    f.cfg.dpi = dpi_units(dpi);
    let ghost start = f;
    assert(start == measured(fence, reported_dpi, rect));
    refresh_entries(&mut f, listing, icon_px, fx);
    let ghost f1 = f;
    let hwnd: u64 = f.hwnd;
    fx.push(Effect::Render(hwnd));
    let id: u32 = f.cfg.id;
    let folder: Option<String> = f.cfg.folder.clone();
    let idx: usize = g.fences.len();
    g.fences.push(f);
    let ghost mid = *g;
    proof {
        assert forall|i: int| 0 <= i < g.fences@.len() implies (#[trigger] g.fences@[i]).wf() && drawable(
            g.icon_px,
            g.fences@[i].dpi,
        ) by {
            if i < before.fences@.len() {
                assert(g.fences@[i] == before.fences@[i]);
            }
        }
    }
    settle_fence(g, idx, wa, fx);
    let ghost r = settled_rect(mid.fences@, idx, icon_px, wa);
    if let Some(d) = folder {
        fx.push(Effect::Watch(hwnd, d));
    }
    sync_config(g, fx);
    proof {
        assert(g.fences@.drop_last() =~= before.fences@);
        let tail = fx@.skip(fx0.len() as int);
        assert(tail =~= create_effects(fence, r));
        assert(fx@.take(fx0.len() as int) =~= fx0);
        assert(refreshed(measured(fence, reported_dpi, rect), *listing, icon_px, f1));
    }
    id
}

/// Removes a fence and its window.
pub fn delete_fence(g: &mut Global, idx: usize, fx: &mut Vec<Effect>)
    ensures
        idx >= old(g).fences@.len() ==> *final(g) == *old(g) && final(fx)@ == old(fx)@,
        idx < old(g).fences@.len() ==> {
            &&& final(g).only_fences_changed(*old(g))
            &&& final(g).fences@ == old(g).fences@.remove(idx as int)
            &&& final(g).config.fences@ == snapshots(final(g).fences@)
            &&& final(fx)@ == old(fx)@ + seq![Effect::Destroy(old(g).fences@[idx as int].hwnd), Effect::Save]
        },
        old(g).wf() ==> final(g).wf(),
{
    if idx >= g.fences.len() {
        return;
    }
    let ghost before = *g;
    let ghost fx0 = fx@;
    fx.push(Effect::Destroy(g.fences[idx].hwnd));
    g.fences.remove(idx);
    sync_config(g, fx);
    proof {
        assert(fx@ =~= fx0 + seq![Effect::Destroy(before.fences@[idx as int].hwnd), Effect::Save]);
        if before.wf() {
            assert forall|i: int| 0 <= i < g.fences@.len() implies (#[trigger] g.fences@[i]).wf() && drawable(
                g.icon_px,
                g.fences@[i].dpi,
            ) by {
                let j = if i < idx { i } else { i + 1 };
                assert(g.fences@[i] == before.fences@[j]);
            }
        }
    }
}

/// Where and how large a fence that is made from a menu starts.
pub open spec fn is_new_cfg(c: FenceCfg, id: u32, left: int, top: int, width: int, dpi: int) -> bool {
    &&& c.id == id
    &&& c.x == left
    &&& c.y == top
    &&& c.w == scaled_px(width, dpi)
    &&& c.h == scaled_px(340, dpi)
    &&& c.dpi == dpi_of_ratio(dpi)
    &&& c.opacity == MENU_OPACITY
    &&& c.icon == 32
}

/// How far down the next fence of a cascade starts.
pub open spec fn cascade_top(dpi: int, n: int) -> int {
    scaled_px(100, dpi) + (n % 5) * scaled_px(40, dpi)
}

fn new_cfg(id: u32, title: String, folder: String, left: i32, top: i32, width: u32, dpi: u32) -> (r: FenceCfg)
    ensures
        is_new_cfg(r, id, left as int, top as int, width as int, dpi as int),
        r.title == title,
        r.folder == Some(folder),
{
    FenceCfg {
        id,
        title,
        folder: Some(folder),
        x: left,
        y: top,
        w: scaled(width, dpi),
        h: scaled(340, dpi),
        dpi: dpi_units(dpi),
        opacity: MENU_OPACITY,
        icon: 32,
    }
}

fn next_top(dpi: u32, n: usize) -> (r: i32)
    requires
        cascade_top(dpi as int, n as int) <= i32::MAX,
    ensures
        r == cascade_top(dpi as int, n as int),
{
    let k: i32 = (n % 5) as i32;
    let step: i32 = scaled(40, dpi);
    assert(0 <= k as int * step as int) by (nonlinear_arith)
        requires
            k >= 0,
            step >= 0,
    ;
    scaled(100, dpi) + k * step
}

/// The fence for a folder that the user has chosen, named after it.
pub fn portal_cfg(g: &Global, folder: String, name: Option<String>, screen_w: i32, reported_dpi: u32) -> (r: FenceCfg)
    requires
        screen_w - scaled_px(340, max_of(reported_dpi as int, 96)) >= i32::MIN,
        cascade_top(max_of(reported_dpi as int, 96), g.fences@.len() as int) <= i32::MAX,
    ensures
        is_new_cfg(
            r,
            g.next_id,
            screen_w - scaled_px(340, max_of(reported_dpi as int, 96)),
            cascade_top(max_of(reported_dpi as int, 96), g.fences@.len() as int),
            280,
            max_of(reported_dpi as int, 96),
        ),
        r.folder == Some(folder),
        match name {
            Some(t) => r.title == t,
            None => r.title@ == "文件夹栅栏"@,
        },
{
    let dpi: u32 = dpi_scale(reported_dpi);
    let title = match name {
        Some(t) => t,
        None => "文件夹栅栏".to_owned(),
    };
    new_cfg(
        g.next_id,
        title,
        folder,
        screen_w - scaled(340, dpi),
        next_top(dpi, g.fences.len()),
        280,
        dpi,
    )
}

/// The fence for a new box, named after its directory; it gets its id when it is made.
pub fn box_cfg(g: &Global, folder: String, name: Option<String>, screen_w: i32, reported_dpi: u32) -> (r: FenceCfg)
    requires
        screen_w - scaled_px(320, max_of(reported_dpi as int, 96)) >= i32::MIN,
        cascade_top(max_of(reported_dpi as int, 96), g.fences@.len() as int) <= i32::MAX,
    ensures
        is_new_cfg(
            r,
            0,
            screen_w - scaled_px(320, max_of(reported_dpi as int, 96)),
            cascade_top(max_of(reported_dpi as int, 96), g.fences@.len() as int),
            260,
            max_of(reported_dpi as int, 96),
        ),
        r.folder == Some(folder),
        match name {
            Some(t) => r.title == t,
            None => r.title@ == "收纳箱"@,
        },
{
    let dpi: u32 = dpi_scale(reported_dpi);
    let title = match name {
        Some(t) => t,
        None => "收纳箱".to_owned(),
    };
    new_cfg(0, title, folder, screen_w - scaled(320, dpi), next_top(dpi, g.fences.len()), 260, dpi)
}

/// The name of the `n`th box.
pub open spec fn box_name_of(n: nat) -> Seq<char> {
    if n == 1 {
        "收纳箱"@
    } else {
        "收纳箱 "@ + decimal_text(n)
    }
}

/// The name of the `n`th box.
pub fn box_name(n: u32) -> (r: String)
    ensures
        r@ == box_name_of(n as nat),
{
    if n == 1 {
        "收纳箱".to_owned()
    } else {
        let mut r = "收纳箱 ".to_owned();
        r.append(decimal(n).as_str());
        r
    }
}

/// Whether the download box that the configuration names is among the valid fences.
pub open spec fn box_present(g: Global) -> bool {
    g.config.download_box_id is Some && exists|i: int|
        0 <= i < g.fences@.len() && (#[trigger] g.fences@[i]).valid && g.fences@[i].cfg.id
            == g.config.download_box_id->0
}

/// The first valid fence that shows the download box's directory.
pub open spec fn first_same(fences: Seq<Fence>, same_dir: Seq<bool>, k: int) -> Option<u32>
    decreases fences.len() - k,
{
    if k < 0 || k >= fences.len() {
        None
    } else if fences[k].valid && same_dir[k] {
        Some(fences[k].cfg.id)
    } else {
        first_same(fences, same_dir, k + 1)
    }
}

/// Makes sure that there is a download box: a fence that shows its directory is taken for it, else
/// the result says what is to be made. For each fence `same_dir` says whether its folder is that
/// directory.
pub fn ensure_download_box(
    g: &mut Global,
    same_dir: &Vec<bool>,
    dir: String,
    screen_w: i32,
    reported_dpi: u32,
    fx: &mut Vec<Effect>,
) -> (r: Option<FenceCfg>)
    requires
        same_dir@.len() == old(g).fences@.len(),
        screen_w - scaled_px(320, max_of(reported_dpi as int, 96)) >= i32::MIN,
    ensures
        r is Some <==> !box_present(*old(g)) && first_same(old(g).fences@, same_dir@, 0) is None,
        r is Some ==> is_new_cfg(
            r->0,
            0,
            screen_w - scaled_px(320, max_of(reported_dpi as int, 96)),
            scaled_px(100, max_of(reported_dpi as int, 96)),
            260,
            max_of(reported_dpi as int, 96),
        ) && r->0.title@ == "下载收纳箱"@ && r->0.folder == Some(dir),
        box_present(*old(g)) || r is Some ==> *final(g) == *old(g) && final(fx)@ == old(fx)@,
        !box_present(*old(g)) && r is None ==> {
            &&& *final(g) == (Global {
                config: Config {
                    fences: final(g).config.fences,
                    download_box_id: first_same(old(g).fences@, same_dir@, 0),
                    ..old(g).config
                },
                ..*old(g)
            })
            &&& final(g).config.fences@ == snapshots(old(g).fences@)
            &&& final(fx)@ == old(fx)@.push(Effect::Save)
            &&& box_present(*final(g))
        },
        old(g).wf() ==> final(g).wf(),
{
    let n: usize = g.fences.len();
    if let Some(id) = g.config.download_box_id {
        let mut i: usize = 0;
        while i < n
            invariant
                i <= n,
                n == g.fences@.len(),
                *g == *old(g),
                g.config.download_box_id == Some(id),
                forall|j: int| 0 <= j < i ==> !((#[trigger] g.fences@[j]).valid && g.fences@[j].cfg.id == id),
            decreases n - i,
        {
            if g.fences[i].valid && g.fences[i].cfg.id == id {
                assert(box_present(*g));
                return None;
            }
            i = i + 1;
        }
    }
    assert(!box_present(*g));
    let mut k: usize = 0;
    while k < n
        invariant
            k <= n,
            n == g.fences@.len(),
            n == same_dir@.len(),
            *g == *old(g),
            fx@ == old(fx)@,
            !box_present(*g),
            first_same(g.fences@, same_dir@, 0) == first_same(g.fences@, same_dir@, k as int),
        decreases n - k,
    {
        if g.fences[k].valid && same_dir[k] {
            let id: u32 = g.fences[k].cfg.id;
            g.config.download_box_id = Some(id);
            sync_config(g, fx);
            assert(g.fences@[k as int].valid && g.fences@[k as int].cfg.id == id);
            return None;
        }
        k = k + 1;
    }
    let dpi: u32 = dpi_scale(reported_dpi);
    Some(
        new_cfg(0, "下载收纳箱".to_owned(), dir, screen_w - scaled(320, dpi), scaled(100, dpi), 260, dpi),
    )
}

/// Takes the fence `id` for the download box, unless its creation failed, which the id 0 says.
pub fn adopt_download_box(g: &mut Global, id: u32, fx: &mut Vec<Effect>)
    ensures
        id == 0 ==> *final(g) == *old(g) && final(fx)@ == old(fx)@,
        id != 0 ==> {
            &&& *final(g) == (Global {
                config: Config {
                    fences: final(g).config.fences,
                    download_box_id: Some(id),
                    ..old(g).config
                },
                ..*old(g)
            })
            &&& final(g).config.fences@ == snapshots(old(g).fences@)
            &&& final(fx)@ == old(fx)@.push(Effect::Save)
        },
        old(g).wf() ==> final(g).wf(),
{
    if id != 0 {
        g.config.download_box_id = Some(id);
        sync_config(g, fx);
    }
}

/// The state that the program starts with. The configuration is at the current version; the
/// downloads that are there do not count as new.
pub fn start(config: Config, msg_hwnd: u64, present: &Vec<String>) -> (r: Global)
    requires
        largest_id(config.fences@) < u32::MAX,
    ensures
        r.config == (Config { icon: chosen_icon(config.icon, config.fences@), ..config }),
        r.icon_px == icon_px_of(r.config.icon as int),
        r.next_id == largest_id(config.fences@) + 1,
        r.fences@.len() == 0,
        r.msg_hwnd == msg_hwnd,
        !r.zen,
        r.desktop_host is None,
        r.sweep_retry@.len() == 0,
        r.desktop_seen@ == unique(present@),
        r.download_pending@.len() == 0,
        r.download_ignored@.len() == 0,
        !r.exiting,
        r.wf(),
{
    let mut config = config;
    migrate_icon(&mut config);
    let icon_px: u32 = set_icon_px(config.icon);
    let next_id: u32 = first_free_id(&config);
    Global {
        config,
        next_id,
        fences: Vec::new(),
        msg_hwnd,
        zen: false,
        desktop_host: None,
        icon_px,
        sweep_retry: Vec::new(),
        desktop_seen: collect(present),
        download_pending: Vec::new(),
        download_ignored: Vec::new(),
        exiting: false,
    }
}

/// The windows of the valid fences.
pub open spec fn valid_windows(fences: Seq<Fence>) -> Seq<Effect>
    decreases fences.len(),
{
    if fences.len() == 0 {
        Seq::empty()
    } else if fences.last().valid {
        valid_windows(fences.drop_last()).push(Effect::Destroy(fences.last().hwnd))
    } else {
        valid_windows(fences.drop_last())
    }
}

/// Replaces the configuration by one that was read anew and removes all fences; the fences of the
/// configuration are then to be made in turn. The icon size in force stays.
pub fn begin_reload(g: &mut Global, config: Config, fx: &mut Vec<Effect>)
    ensures
        *final(g) == (Global { config, fences: final(g).fences, ..*old(g) }),
        final(g).fences@.len() == 0,
        final(fx)@ == old(fx)@ + valid_windows(old(g).fences@) + seq![Effect::StopWatches],
        old(g).wf() ==> final(g).wf(),
{
    let ghost fx0 = fx@;
    g.config = config;
    let n: usize = g.fences.len();
    let mut i: usize = 0;
    assert(g.fences@.take(0).len() == 0);
    assert(fx@ =~= fx0 + valid_windows(g.fences@.take(0)));
    while i < n
        invariant
            i <= n,
            n == g.fences@.len(),
            g.fences@ == old(g).fences@,
            *g == (Global { config, ..*old(g) }),
            fx@ == fx0 + valid_windows(g.fences@.take(i as int)),
        decreases n - i,
    {
        assert(g.fences@.take(i + 1).drop_last() =~= g.fences@.take(i as int));
        if g.fences[i].valid {
            fx.push(Effect::Destroy(g.fences[i].hwnd));
        }
        assert(fx@ =~= fx0 + valid_windows(g.fences@.take(i + 1)));
        i = i + 1;
    }
    assert(g.fences@.take(n as int) =~= g.fences@);
    g.fences = Vec::new();
    fx.push(Effect::StopWatches);
    assert(fx@ =~= fx0 + valid_windows(old(g).fences@) + seq![Effect::StopWatches]);
}

/// What the program's end asks for: the valid windows no longer take dropped files.
pub open spec fn farewell(fences: Seq<Fence>) -> Seq<Effect>
    decreases fences.len(),
{
    if fences.len() == 0 {
        seq![Effect::Save]
    } else if fences.last().valid {
        farewell(fences.drop_last()).push(Effect::RevokeDrop(fences.last().hwnd))
    } else {
        farewell(fences.drop_last())
    }
}

/// Ends the program.
pub fn shut_down(g: &mut Global, fx: &mut Vec<Effect>)
    ensures
        *final(g) == (Global { exiting: true, ..*old(g) }),
        final(fx)@ == old(fx)@ + farewell(old(g).fences@),
{
    let ghost fx0 = fx@;
    g.exiting = true;
    fx.push(Effect::Save);
    let n: usize = g.fences.len();
    let mut i: usize = 0;
    assert(g.fences@.take(0).len() == 0);
    assert(fx@ =~= fx0 + farewell(g.fences@.take(0)));
    while i < n
        invariant
            i <= n,
            n == g.fences@.len(),
            *g == (Global { exiting: true, ..*old(g) }),
            fx@ == fx0 + farewell(g.fences@.take(i as int)),
        decreases n - i,
    {
        assert(g.fences@.take(i + 1).drop_last() =~= g.fences@.take(i as int));
        if g.fences[i].valid {
            fx.push(Effect::RevokeDrop(g.fences[i].hwnd));
        }
        assert(fx@ =~= fx0 + farewell(g.fences@.take(i + 1)));
        i = i + 1;
    }
    assert(g.fences@.take(n as int) =~= g.fences@);
}

} // verus!
