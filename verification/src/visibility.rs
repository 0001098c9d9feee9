//! Which fences are shown, and the regular checks that keep them so.
use crate::config::Config;
use crate::effect::{Effect, ShowMode};
use crate::fence::{refresh_entries, refreshed, Entry, Fence};
use crate::geometry::{drawable, Rect};
use crate::paths::{collect, unique};
use crate::state::{Global, Pending};
use crate::visibility_laws::{is_box_away, lemma_told};
use vstd::prelude::*;

verus! {

/// Whether the fence `id` is the download box.
pub fn is_download_box(g: &Global, id: u32) -> (r: bool)
    ensures
        r == (g.config.download_box_id == Some(id)),
{
    match g.config.download_box_id {
        Some(b) => b == id,
        None => false,
    }
}

/// Whether the fence `id` may be shown: the download box only while downloads are collected and it
/// is wanted, every other fence always.
pub open spec fn may_show(c: Config, id: u32) -> bool {
    c.download_box_id != Some(id) || (c.download_enabled && c.download_box_visible)
}

/// Whether the fence `id` may be shown.
pub fn download_box_should_show(g: &Global, id: u32) -> (r: bool)
    ensures
        r == may_show(g.config, id),
{
    !is_download_box(g, id) || (g.config.download_enabled && g.config.download_box_visible)
}

/// How a fence is shown.
pub open spec fn show_mode(c: Config, zen: bool, f: Fence) -> ShowMode {
    if zen || !may_show(c, f.cfg.id) {
        ShowMode::Hide
    } else {
        ShowMode::Show
    }
}

/// What showing and hiding the fences asks for: one command for each valid fence.
pub open spec fn visibility_effects(fences: Seq<Fence>, c: Config, zen: bool) -> Seq<Effect>
    decreases fences.len(),
{
    if fences.len() == 0 {
        Seq::empty()
    } else {
        let head = visibility_effects(fences.drop_last(), c, zen);
        if fences.last().valid {
            head.push(Effect::Show(fences.last().hwnd, show_mode(c, zen, fences.last())))
        } else {
            head
        }
    }
}

/// Shows and hides the fences as the state asks.
pub fn apply_visibility(g: &Global, fx: &mut Vec<Effect>)
    ensures
        final(fx)@ == old(fx)@ + visibility_effects(g.fences@, g.config, g.zen),
        forall|i: int|
            0 <= i < g.fences@.len() && (#[trigger] g.fences@[i]).valid && (g.zen || is_box_away(g.config, g.fences@[i]))
                ==> final(fx)@.contains(Effect::Show(g.fences@[i].hwnd, ShowMode::Hide)),
        forall|i: int|
            0 <= i < g.fences@.len() && (#[trigger] g.fences@[i]).valid && !g.zen && !is_box_away(g.config, g.fences@[i])
                ==> final(fx)@.contains(Effect::Show(g.fences@[i].hwnd, ShowMode::Show)),
{
    let n: usize = g.fences.len();
    let mut i: usize = 0;
    let ghost fx0 = fx@;
    assert(g.fences@.take(0).len() == 0);
    assert(fx@ =~= fx0 + visibility_effects(g.fences@.take(0), g.config, g.zen));
    while i < n
        invariant
            i <= n,
            n == g.fences@.len(),
            fx@ == fx0 + visibility_effects(g.fences@.take(i as int), g.config, g.zen),
        decreases n - i,
    {
        assert(g.fences@.take(i + 1).drop_last() =~= g.fences@.take(i as int));
        let f = &g.fences[i];
        if f.valid {
            let mode = if g.zen || !download_box_should_show(g, f.cfg.id) {
                ShowMode::Hide
            } else {
                ShowMode::Show
            };
            fx.push(Effect::Show(f.hwnd, mode));
        }
        assert(fx@ =~= fx0 + visibility_effects(g.fences@.take(i + 1), g.config, g.zen));
        i = i + 1;
    }
    assert(g.fences@.take(n as int) =~= g.fences@);
    proof {
        let all = visibility_effects(g.fences@, g.config, g.zen);
        lemma_told(g.fences@, g.config, g.zen);
        assert forall|x: Effect| all.contains(x) implies #[trigger] fx@.contains(x) by {
            let j = all.index_of(x);
            assert(fx@[fx0.len() + j] == x);
        }
    }
}

/// Hides all fences, or shows them again.
pub fn toggle_zen(g: &mut Global, fx: &mut Vec<Effect>)
    ensures
        *final(g) == (Global { zen: !old(g).zen, ..*old(g) }),
        final(fx)@ == old(fx)@ + visibility_effects(old(g).fences@, old(g).config, !old(g).zen),
{
    g.zen = !g.zen;
    apply_visibility(g, fx);
}

/// While all fences are hidden, nothing is shown.
pub proof fn lemma_zen_hides(fences: Seq<Fence>, c: Config)
    ensures
        forall|i: int|
            0 <= i < visibility_effects(fences, c, true).len() ==> (#[trigger] visibility_effects(fences, c, true)[i]) matches Effect::Show(_, ShowMode::Hide),
    decreases fences.len(),
{
    if fences.len() > 0 {
        lemma_zen_hides(fences.drop_last(), c);
    }
}

/// A hidden download box takes nothing from the other fences: they are shown as ever.
pub proof fn lemma_only_box_hidden(c: Config, f: Fence)
    requires
        c.download_box_id != Some(f.cfg.id),
    ensures
        show_mode(c, false, f) == ShowMode::Show,
{
}

/// The rectangle of a fence.
pub open spec fn rect_of(f: Fence) -> Rect {
    Rect {
        left: f.cfg.x,
        top: f.cfg.y,
        right: (f.cfg.x + f.cfg.w) as i32,
        bottom: (f.cfg.y + f.cfg.h) as i32,
    }
}

/// Whether the edges of a fence are within the machine's integers.
pub open spec fn bounded(f: Fence) -> bool {
    i32::MIN <= f.cfg.x + f.cfg.w <= i32::MAX && i32::MIN <= f.cfg.y + f.cfg.h <= i32::MAX
}

/// The rectangles of the fences that may be shown.
pub open spec fn reserved(fences: Seq<Fence>, c: Config) -> Seq<Rect>
    decreases fences.len(),
{
    if fences.len() == 0 {
        Seq::empty()
    } else {
        let head = reserved(fences.drop_last(), c);
        if fences.last().valid && may_show(c, fences.last().cfg.id) {
            head.push(rect_of(fences.last()))
        } else {
            head
        }
    }
}

/// Whether the edges of all fences that may be shown are within the machine's integers.
pub open spec fn reservable(fences: Seq<Fence>, c: Config) -> bool {
    forall|i: int|
        0 <= i < fences.len() && (#[trigger] fences[i]).valid && may_show(c, fences[i].cfg.id) ==> bounded(fences[i])
}

/// Whether the edges of all fences that may be shown are within the machine's integers.
pub fn can_reserve(g: &Global) -> (r: bool)
    ensures
        r == reservable(g.fences@, g.config),
{
    let n: usize = g.fences.len();
    let mut i: usize = 0;
    while i < n
        invariant
            i <= n,
            n == g.fences@.len(),
            forall|j: int|
                0 <= j < i && (#[trigger] g.fences@[j]).valid && may_show(g.config, g.fences@[j].cfg.id) ==> bounded(
                    g.fences@[j],
                ),
        decreases n - i,
    {
        let f = &g.fences[i];
        if f.valid && download_box_should_show(g, f.cfg.id) {
            let right: i64 = f.cfg.x as i64 + f.cfg.w as i64;
            let bottom: i64 = f.cfg.y as i64 + f.cfg.h as i64;
            if right < i32::MIN as i64 || right > i32::MAX as i64 || bottom < i32::MIN as i64 || bottom
                > i32::MAX as i64 {
                assert(!bounded(g.fences@[i as int]));
                return false;
            }
        }
        i = i + 1;
    }
    true
}

/// The rectangles that the desktop's icons are kept out of.
pub fn reserve_desktop_icons(g: &Global) -> (r: Vec<Rect>)
    requires
        reservable(g.fences@, g.config),
    ensures
        r@ == reserved(g.fences@, g.config),
{
    let n: usize = g.fences.len();
    let mut out: Vec<Rect> = Vec::new();
    let mut i: usize = 0;
    assert(g.fences@.take(0).len() == 0);
    while i < n
        invariant
            i <= n,
            n == g.fences@.len(),
            reservable(g.fences@, g.config),
            out@ == reserved(g.fences@.take(i as int), g.config),
        decreases n - i,
    {
        assert(g.fences@.take(i + 1).drop_last() =~= g.fences@.take(i as int));
        let f = &g.fences[i];
        if f.valid && download_box_should_show(g, f.cfg.id) {
            assert(bounded(g.fences@[i as int]));
            out.push(
                Rect { left: f.cfg.x, top: f.cfg.y, right: f.cfg.x + f.cfg.w, bottom: f.cfg.y + f.cfg.h },
            );
        }
        i = i + 1;
    }
    assert(g.fences@.take(n as int) =~= g.fences@);
    out
}

/// Forgets what is known of downloads: those that are there now do not count as new.
pub fn reset_download_tracking(g: &mut Global, present: &Vec<String>, fx: &mut Vec<Effect>)
    ensures
        *final(g) == (Global {
            desktop_seen: final(g).desktop_seen,
            download_pending: final(g).download_pending,
            ..*old(g)
        }),
        final(g).desktop_seen@ == unique(present@),
        final(g).download_pending@ == Seq::<Pending>::empty(),
        old(g).wf() ==> final(g).wf(),
        final(fx)@ == old(fx)@.push(Effect::DropArrivals),
{
    fx.push(Effect::DropArrivals);
    g.download_pending = Vec::new();
    g.desktop_seen = collect(present);
}

/// Turns the collection of downloads on or off.
pub fn set_download_enabled(g: &mut Global, enabled: bool, present: &Vec<String>, fx: &mut Vec<Effect>)
    ensures
        old(g).config.download_enabled == enabled ==> *final(g) == *old(g) && final(fx)@ == old(fx)@,
        old(g).config.download_enabled != enabled ==> {
            &&& *final(g) == (Global {
                config: Config { download_enabled: enabled, ..old(g).config },
                desktop_seen: final(g).desktop_seen,
                download_pending: final(g).download_pending,
                ..*old(g)
            })
            &&& final(g).desktop_seen@ == unique(present@)
            &&& final(g).download_pending@ == Seq::<Pending>::empty()
            &&& final(fx)@ == old(fx)@ + seq![Effect::DropArrivals] + visibility_effects(
                old(g).fences@,
                final(g).config,
                old(g).zen,
            ) + seq![Effect::Reserve, Effect::Save]
        },
        final(g).config.download_enabled == enabled,
        old(g).wf() ==> final(g).wf(),
{
    if g.config.download_enabled == enabled {
        return;
    }
    let ghost fx0 = fx@;
    g.config.download_enabled = enabled;
    reset_download_tracking(g, present, fx);
    apply_visibility(g, fx);
    fx.push(Effect::Reserve);
    fx.push(Effect::Save);
    assert(fx@ =~= fx0 + seq![Effect::DropArrivals] + visibility_effects(g.fences@, g.config, g.zen) + seq![
        Effect::Reserve,
        Effect::Save,
    ]);
}

/// Shows or hides the download box; downloads are collected all the same.
pub fn set_download_box_visible(g: &mut Global, visible: bool, fx: &mut Vec<Effect>)
    ensures
        old(g).config.download_box_visible == visible ==> *final(g) == *old(g) && final(fx)@ == old(fx)@,
        old(g).config.download_box_visible != visible ==> {
            &&& *final(g) == (Global {
                config: Config { download_box_visible: visible, ..old(g).config },
                ..*old(g)
            })
            &&& final(fx)@ == old(fx)@ + visibility_effects(old(g).fences@, final(g).config, old(g).zen) + seq![
                Effect::Reserve,
                Effect::Save,
            ]
        },
        final(g).config.download_box_visible == visible,
        old(g).wf() ==> final(g).wf(),
{
    if g.config.download_box_visible == visible {
        return;
    }
    let ghost fx0 = fx@;
    g.config.download_box_visible = visible;
    apply_visibility(g, fx);
    fx.push(Effect::Reserve);
    fx.push(Effect::Save);
    assert(fx@ =~= fx0 + visibility_effects(g.fences@, g.config, g.zen) + seq![Effect::Reserve, Effect::Save]);
}

/// What is seen of the window of a fence, and of the one that was made in its place where it was
/// lost.
#[derive(Debug)]
pub struct WindowState {
    pub iconic: bool,
    pub visible: bool,
    /// The window made anew for a fence that has lost its own; 0 where that failed.
    pub remade: u64,
    /// What the folder of such a fence holds.
    pub listing: Option<Vec<Entry>>,
}

/// Whether a fence is hidden or minimised without the program's doing.
pub open spec fn astray(g: Global, i: int, w: WindowState) -> bool {
    g.fences@[i].valid && !g.zen && may_show(g.config, g.fences@[i].cfg.id) && (w.iconic || !w.visible)
}

/// A fence that lives on in a new window.
pub open spec fn rehoused(f: Fence, hwnd: u64) -> Fence {
    Fence { hwnd, valid: true, moving: false, resizing: None, ..f }
}

/// Whether `f2` is what a check of the windows makes of a fence.
pub open spec fn watched(f: Fence, w: WindowState, icon_px: u32, f2: Fence) -> bool {
    if !f.valid && w.remade != 0 {
        refreshed(rehoused(f, w.remade), w.listing, icon_px, f2)
    } else {
        f2 == f
    }
}

/// What a check of the first `k` windows asks for.
pub open spec fn watch_effects(g: Global, windows: Seq<WindowState>, k: int) -> Seq<Effect>
    decreases k,
{
    if k <= 0 {
        Seq::empty()
    } else {
        let f = g.fences@[k - 1];
        let w = windows[k - 1];
        watch_effects(g, windows, k - 1) + if astray(g, k - 1, w) {
            seq![Effect::Show(f.hwnd, ShowMode::Restore), Effect::Render(f.hwnd)]
        } else if !f.valid && w.remade != 0 {
            seq![Effect::RegisterDrop(w.remade)] + (if g.zen {
                seq![Effect::Show(w.remade, ShowMode::Hide)]
            } else {
                Seq::empty()
            }) + seq![Effect::StopAnimation(w.remade), Effect::Render(w.remade)]
        } else {
            Seq::empty()
        }
    }
}

fn revive(f: &mut Fence, w: &WindowState, zen: bool, icon_px: u32, fx: &mut Vec<Effect>)
    requires
        w.remade != 0,
        drawable(icon_px, old(f).dpi),
        old(f).wf(),
    ensures
        refreshed(rehoused(*old(f), w.remade), w.listing, icon_px, *final(f)),
        final(f).wf(),
        final(fx)@ == old(fx)@ + (seq![Effect::RegisterDrop(w.remade)] + (if zen {
            seq![Effect::Show(w.remade, ShowMode::Hide)]
        } else {
            Seq::empty()
        }) + seq![Effect::StopAnimation(w.remade), Effect::Render(w.remade)]),
{
    let ghost fx0 = fx@;
    let ghost f0 = *f;
    fx.push(Effect::RegisterDrop(w.remade));
    f.hwnd = w.remade;
    f.valid = true;
    f.moving = false;
    f.resizing = None;
    if zen {
        fx.push(Effect::Show(w.remade, ShowMode::Hide));
    }
    assert(*f == rehoused(f0, w.remade));
    refresh_entries(f, &w.listing, icon_px, fx);
    fx.push(Effect::Render(w.remade));
    assert(fx@ =~= fx0 + (seq![Effect::RegisterDrop(w.remade)] + (if zen {
        seq![Effect::Show(w.remade, ShowMode::Hide)]
    } else {
        Seq::empty()
    }) + seq![Effect::StopAnimation(w.remade), Effect::Render(w.remade)]));
}

/// Checks the windows of all fences: one that is hidden or minimised without the program's doing is
/// restored, a fence that has lost its window lives on in the new one.
pub fn watchdog_tick(g: &mut Global, windows: &Vec<WindowState>, fx: &mut Vec<Effect>)
    requires
        old(g).wf(),
        windows@.len() == old(g).fences@.len(),
    ensures
        final(g).wf(),
        *final(g) == (Global { fences: final(g).fences, ..*old(g) }),
        final(g).fences@.len() == old(g).fences@.len(),
        forall|i: int|
            0 <= i < old(g).fences@.len() ==> watched(
                old(g).fences@[i],
                windows@[i],
                old(g).icon_px,
                #[trigger] final(g).fences@[i],
            ),
        final(fx)@ == old(fx)@ + watch_effects(*old(g), windows@, windows@.len() as int) + seq![Effect::Reserve],
{
    let ghost before = *g;
    let ghost fx0 = fx@;
    let n: usize = g.fences.len();
    let icon_px: u32 = g.icon_px;
    let zen: bool = g.zen;
    let mut i: usize = 0;
    assert(fx@ =~= fx0 + watch_effects(before, windows@, 0));
    while i < n
        invariant
            i <= n,
            n == g.fences@.len(),
            n == before.fences@.len(),
            n == windows@.len(),
            icon_px == before.icon_px,
            zen == before.zen,
            before.wf(),
            *g == (Global { fences: g.fences, ..before }),
            forall|j: int|
                0 <= j < i ==> watched(before.fences@[j], windows@[j], icon_px, #[trigger] g.fences@[j]) && g.fences@[j].wf()
                    && g.fences@[j].dpi == before.fences@[j].dpi,
            forall|j: int| i <= j < n ==> #[trigger] g.fences@[j] == before.fences@[j],
            fx@ == fx0 + watch_effects(before, windows@, i as int),
        decreases n - i,
    {
        let w = &windows[i];
        let ghost mid = *g;
        assert(g.fences@[i as int] == before.fences@[i as int]);
        assert(before.fences@[i as int].wf());
        let hwnd: u64 = g.fences[i].hwnd;
        let id: u32 = g.fences[i].cfg.id;
        if g.fences[i].valid {
            if !zen && download_box_should_show(g, id) && (w.iconic || !w.visible) {
                fx.push(Effect::Show(hwnd, ShowMode::Restore));
                fx.push(Effect::Render(hwnd));
            }
        } else if w.remade != 0 {
            revive(&mut g.fences[i], w, zen, icon_px, fx);
        }
        proof {
            assert(g.fences@ =~= mid.fences@.update(i as int, g.fences@[i as int]));
            assert(fx@ =~= fx0 + watch_effects(before, windows@, i + 1));
            assert forall|j: int| 0 <= j < i + 1 implies watched(
                before.fences@[j],
                windows@[j],
                icon_px,
                #[trigger] g.fences@[j],
            ) && g.fences@[j].wf() && g.fences@[j].dpi == before.fences@[j].dpi by {
                if j < i {
                    assert(g.fences@[j] == mid.fences@[j]);
                }
            }
        }
        i = i + 1;
    }
    fx.push(Effect::Reserve);
    assert(fx@ =~= fx0 + watch_effects(before, windows@, n as int) + seq![Effect::Reserve]);
    proof {
        assert forall|j: int| 0 <= j < g.fences@.len() implies (#[trigger] g.fences@[j]).wf() && drawable(
            g.icon_px,
            g.fences@[j].dpi,
        ) by {
            assert(before.fences@[j].wf());
        }
    }
}

/// The windows of the fences that may be shown, from the lowest up.
pub open spec fn layered(fences: Seq<Fence>, c: Config) -> Seq<u64>
    decreases fences.len(),
{
    if fences.len() == 0 {
        Seq::empty()
    } else {
        let head = layered(fences.drop_last(), c);
        if fences.last().valid && may_show(c, fences.last().cfg.id) {
            head.push(fences.last().hwnd)
        } else {
            head
        }
    }
}

/// The desktop's window: the known one while it lives, else the one that was found.
pub open spec fn host_of(known: Option<u64>, alive: bool, found: Option<u64>) -> Option<u64> {
    if known is Some && alive {
        known
    } else {
        found
    }
}

/// Says which windows are to stand right above the desktop, one above the other, and the desktop's
/// window; nothing while all fences are hidden or where there is no desktop.
pub fn desktop_layer_tick(g: &mut Global, host_alive: bool, found: Option<u64>) -> (r: Option<(u64, Vec<u64>)>)
    ensures
        *final(g) == (if old(g).zen {
            *old(g)
        } else {
            Global { desktop_host: host_of(old(g).desktop_host, host_alive, found), ..*old(g) }
        }),
        match r {
            Some(p) => !old(g).zen && final(g).desktop_host == Some(p.0) && p.1@ == layered(
                old(g).fences@,
                old(g).config,
            ),
            None => old(g).zen || final(g).desktop_host is None,
        },
{
    if g.zen {
        return None;
    }
    let host_valid: bool = g.desktop_host.is_some() && host_alive;
    if !host_valid {
        g.desktop_host = found;
    }
    let host: u64 = match g.desktop_host {
        Some(h) => h,
        None => {
            return None;
        },
    };
    let n: usize = g.fences.len();
    let mut out: Vec<u64> = Vec::new();
    let mut i: usize = 0;
    assert(g.fences@.take(0).len() == 0);
    while i < n
        invariant
            i <= n,
            n == g.fences@.len(),
            out@ == layered(g.fences@.take(i as int), g.config),
        decreases n - i,
    {
        assert(g.fences@.take(i + 1).drop_last() =~= g.fences@.take(i as int));
        let f = &g.fences[i];
        if f.valid && download_box_should_show(g, f.cfg.id) {
            out.push(f.hwnd);
        }
        i = i + 1;
    }
    assert(g.fences@.take(n as int) =~= g.fences@);
    Some((host, out))
}

/// Restores a window of the desktop's layer that is hidden or minimised.
pub fn layer_restore(hwnd: u64, iconic: bool, visible: bool, fx: &mut Vec<Effect>)
    ensures
        final(fx)@ == (if iconic || !visible {
            old(fx)@.push(Effect::Show(hwnd, ShowMode::Restore))
        } else {
            old(fx)@
        }),
{
    if iconic || !visible {
        fx.push(Effect::Show(hwnd, ShowMode::Restore));
    }
}

/// Puts a window right above its anchor, given the window that is there now; the system takes a
/// window below which another one goes.
pub fn layer_insert(hwnd: u64, above: u64, fx: &mut Vec<Effect>)
    ensures
        final(fx)@ == (if above != hwnd {
            old(fx)@.push(Effect::InsertAfter { hwnd, above })
        } else {
            old(fx)@
        }),
{
    if above != hwnd {
        fx.push(Effect::InsertAfter { hwnd, above });
    }
}

} // verus!
