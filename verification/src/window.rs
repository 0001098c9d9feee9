//! What a fence does about the messages of its window.
use crate::config::FenceCfg;
use crate::effect::{added, extends, Cursor, Effect, ShowMode};
use crate::fence::{
    border_at, refresh_entries, refreshed, resize_dir_at, snapshots, step_page_anim, stepped, stop_effects, sync_page,
    synced, Entry, Fence, ResizeDir,
};
use crate::geometry::{
    clamp_of, drawable, larger, max_of, min_h, min_of, min_w, place_within, scaled_px, title_h, window_dpi, Rect, BASE_DPI,
};
use crate::layout::placed;
use crate::lifecycle::measurable;
use crate::refresh::{due, RefreshSignal, RefreshState, RefreshTimerAction, REFRESH_DEBOUNCE_MS, REFRESH_DEBOUNCE_NS};
use crate::state::{fence_idx, index_of, lemma_fence_replaced, sync_config, Global};
use vstd::prelude::*;

verus! {

/// A minimised fence asks to be restored once the current message is done.
pub fn on_minimized(hwnd: u64, fx: &mut Vec<Effect>)
    ensures
        final(fx)@ == old(fx)@.push(Effect::PostRestore(hwnd)),
{
    fx.push(Effect::PostRestore(hwnd));
}

/// Draws the fence of a window anew.
pub fn schedule_render(g: &Global, hwnd: u64, fx: &mut Vec<Effect>)
    ensures
        final(fx)@ == (if index_of(g.fences@, hwnd) is Some {
            old(fx)@.push(Effect::Render(hwnd))
        } else {
            old(fx)@
        }),
{
    if fence_idx(g, hwnd).is_some() {
        fx.push(Effect::Render(hwnd));
    }
}

/// Restores a fence that was minimised, unless all fences are hidden.
pub fn on_restore(g: &Global, hwnd: u64, fx: &mut Vec<Effect>)
    ensures
        final(fx)@ == (if !g.zen && index_of(g.fences@, hwnd) is Some {
            old(fx)@ + seq![Effect::Show(hwnd, ShowMode::Restore), Effect::Render(hwnd)]
        } else {
            old(fx)@
        }),
{
    let ghost fx0 = fx@;
    if !g.zen && fence_idx(g, hwnd).is_some() {
        fx.push(Effect::Show(hwnd, ShowMode::Restore));
        schedule_render(g, hwnd, fx);
        assert(fx@ =~= fx0 + seq![Effect::Show(hwnd, ShowMode::Restore), Effect::Render(hwnd)]);
    }
}

/// Notes that the window of a fence is gone.
pub fn on_destroy(g: &mut Global, hwnd: u64)
    ensures
        match index_of(old(g).fences@, hwnd) {
            Some(i) => {
                &&& final(g).only_fence_changed(*old(g), i as int)
                &&& final(g).fences@[i as int] == (Fence { valid: false, ..old(g).fences@[i as int] })
            },
            None => *final(g) == *old(g),
        },
        old(g).wf() ==> final(g).wf(),
{
    let ghost before = *g;
    if let Some(i) = fence_idx(g, hwnd) {
        g.fences[i].valid = false;
        proof {
            assert(g.fences@ =~= before.fences@.update(i as int, g.fences@[i as int]));
            if before.wf() {
                assert(before.fences@[i as int].wf());
                lemma_fence_replaced(before, *g, i as int);
            }
        }
    }
}

/// A fence that has heard of a change in its folder.
pub open spec fn notified(f: Fence, now: u64) -> Fence {
    Fence { refresh_signal: RefreshSignal { state: RefreshState { queued: true, last_event: now } }, ..f }
}

/// The watcher of a fence's folder reports a change: notes it, and says whether the fence must be sent
/// a message about it. While one is under way, further changes are only noted.
pub fn folder_changed(g: &mut Global, hwnd: u64, now: u64) -> (r: bool)
    ensures
        match index_of(old(g).fences@, hwnd) {
            Some(i) => {
                &&& r == !old(g).fences@[i as int].refresh_signal.state.queued
                &&& final(g).only_fence_changed(*old(g), i as int)
                &&& final(g).fences@[i as int] == notified(old(g).fences@[i as int], now)
            },
            None => !r && *final(g) == *old(g),
        },
        old(g).wf() ==> final(g).wf(),
{
    let ghost before = *g;
    match fence_idx(g, hwnd) {
        Some(i) => {
            let first: bool = g.fences[i].refresh_signal.post(now);
            proof {
                assert(g.fences@ =~= before.fences@.update(i as int, g.fences@[i as int]));
                if before.wf() {
                    assert(before.fences@[i as int].wf());
                    lemma_fence_replaced(before, *g, i as int);
                }
            }
            first
        },
        None => false,
    }
}

/// What follows the message that `folder_changed` asked for: where it could not be sent it is
/// forgotten, so that the next change asks for another.
pub fn folder_posted(g: &mut Global, hwnd: u64, delivered: bool)
    ensures
        match index_of(old(g).fences@, hwnd) {
            Some(i) => {
                &&& final(g).only_fence_changed(*old(g), i as int)
                &&& final(g).fences@[i as int] == (if delivered {
                    old(g).fences@[i as int]
                } else {
                    unqueued(old(g).fences@[i as int])
                })
            },
            None => *final(g) == *old(g),
        },
        old(g).wf() ==> final(g).wf(),
{
    let ghost before = *g;
    if let Some(i) = fence_idx(g, hwnd) {
        g.fences[i].refresh_signal.posted(delivered);
        proof {
            assert(g.fences@ =~= before.fences@.update(i as int, g.fences@[i as int]));
            if before.wf() {
                assert(before.fences@[i as int].wf());
                lemma_fence_replaced(before, *g, i as int);
            }
        }
    }
}

/// A change in a folder leads to a refresh: once it was noted and has been quiet for the delay, the
/// timer finds the refresh due, and until then it waits.
pub proof fn lemma_change_is_refreshed(f: Fence, noted: u64, now: int)
    ensures
        ({
            let s = notified(f, noted).refresh_signal.state;
            let action = due(s, now, REFRESH_DEBOUNCE_NS as int);
            &&& now >= noted + REFRESH_DEBOUNCE_NS ==> action == RefreshTimerAction::Refresh
            &&& now < noted + REFRESH_DEBOUNCE_NS ==> action is Wait
        }),
{
}

/// A folder has changed: the refresh timer is started, so that the events that follow are taken
/// together.
pub fn on_refresh(g: &Global, hwnd: u64, fx: &mut Vec<Effect>)
    ensures
        final(fx)@ == (if index_of(g.fences@, hwnd) is Some {
            old(fx)@.push(Effect::StartRefresh(hwnd, REFRESH_DEBOUNCE_MS))
        } else {
            old(fx)@
        }),
{
    if fence_idx(g, hwnd).is_some() {
        fx.push(Effect::StartRefresh(hwnd, REFRESH_DEBOUNCE_MS));
    }
}

/// A fence whose refresh is no longer waited for.
pub open spec fn unqueued(f: Fence) -> Fence {
    Fence {
        refresh_signal: RefreshSignal { state: RefreshState { queued: false, ..f.refresh_signal.state } },
        ..f
    }
}

/// Ends the wait for a refresh, and says whether there is a fence to be refreshed now; called also
/// where the refresh timer could not be started.
pub fn cancel_refresh(g: &mut Global, hwnd: u64) -> (r: bool)
    ensures
        r == (index_of(old(g).fences@, hwnd) is Some),
        match index_of(old(g).fences@, hwnd) {
            Some(i) => {
                &&& final(g).only_fence_changed(*old(g), i as int)
                &&& final(g).fences@[i as int] == unqueued(old(g).fences@[i as int])
            },
            None => *final(g) == *old(g),
        },
        old(g).wf() ==> final(g).wf(),
{
    let ghost before = *g;
    match fence_idx(g, hwnd) {
        Some(i) => {
            g.fences[i].refresh_signal.cancel();
            proof {
                assert(g.fences@ =~= before.fences@.update(i as int, g.fences@[i as int]));
                if before.wf() {
                    assert(before.fences@[i as int].wf());
                    lemma_fence_replaced(before, *g, i as int);
                }
            }
            true
        },
        None => false,
    }
}

/// Files were dropped on a fence: it is refreshed at once, and the wait for a refresh ends.
pub fn on_drop(g: &mut Global, hwnd: u64, fx: &mut Vec<Effect>) -> (r: bool)
    ensures
        r == (index_of(old(g).fences@, hwnd) is Some),
        match index_of(old(g).fences@, hwnd) {
            Some(i) => {
                &&& final(g).only_fence_changed(*old(g), i as int)
                &&& final(g).fences@[i as int] == unqueued(old(g).fences@[i as int])
                &&& final(fx)@ == old(fx)@.push(Effect::StopRefresh(hwnd))
            },
            None => *final(g) == *old(g) && final(fx)@ == old(fx)@,
        },
        old(g).wf() ==> final(g).wf(),
{
    if cancel_refresh(g, hwnd) {
        fx.push(Effect::StopRefresh(hwnd));
        true
    } else {
        false
    }
}

/// The directory that a fence shows: its own folder, else the vault.
pub fn listed_dir(f: &Fence, vault: String) -> (r: String)
    ensures
        r@ == match f.cfg.folder {
            Some(d) => d@,
            None => vault@,
        },
{
    match &f.cfg.folder {
        Some(d) => d.clone(),
        None => vault,
    }
}

/// Refreshes a fence with what its folder holds, and draws it anew.
pub fn refresh_fence_now(g: &mut Global, idx: usize, listing: &Option<Vec<Entry>>, fx: &mut Vec<Effect>)
    requires
        old(g).wf(),
        idx < old(g).fences@.len(),
    ensures
        final(g).wf(),
        final(g).only_fence_changed(*old(g), idx as int),
        refreshed(old(g).fences@[idx as int], *listing, old(g).icon_px, final(g).fences@[idx as int]),
        final(fx)@ == old(fx)@ + stop_effects(old(g).fences@[idx as int].hwnd) + seq![
            Effect::Render(old(g).fences@[idx as int].hwnd),
        ],
{
    let ghost before = *g;
    let ghost fx0 = fx@;
    let icon_px: u32 = g.icon_px;
    let hwnd: u64 = g.fences[idx].hwnd;
    assert(g.fences@[idx as int].wf());
    refresh_entries(&mut g.fences[idx], listing, icon_px, fx);
    fx.push(Effect::Render(hwnd));
    proof {
        assert(g.fences@ =~= before.fences@.update(idx as int, g.fences@[idx as int]));
        lemma_fence_replaced(before, *g, idx as int);
        assert(fx@ =~= fx0 + stop_effects(hwnd) + seq![Effect::Render(hwnd)]);
    }
}

/// Whether `g` is `old` with the fence of a window refreshed.
pub open spec fn window_refreshed(
    old: Global,
    hwnd: u64,
    listing: Option<Vec<Entry>>,
    g: Global,
    fx: Seq<Effect>,
) -> bool {
    match index_of(old.fences@, hwnd) {
        Some(i) => {
            &&& g.only_fence_changed(old, i as int)
            &&& refreshed(old.fences@[i as int], listing, old.icon_px, g.fences@[i as int])
            &&& fx == stop_effects(hwnd) + seq![Effect::Render(hwnd)]
        },
        None => g == old && fx == Seq::<Effect>::empty(),
    }
}

/// Refreshes the fence of a window; after an entry was dragged out of it, too.
pub fn refresh_window(g: &mut Global, hwnd: u64, listing: &Option<Vec<Entry>>, fx: &mut Vec<Effect>)
    requires
        old(g).wf(),
    ensures
        final(g).wf(),
        extends(old(fx)@, final(fx)@),
        window_refreshed(*old(g), hwnd, *listing, *final(g), added(old(fx)@, final(fx)@)),
{
    let ghost fx0 = fx@;
    match fence_idx(g, hwnd) {
        Some(i) => {
            refresh_fence_now(g, i, listing, fx);
            assert(fx@.skip(fx0.len() as int) =~= stop_effects(hwnd) + seq![Effect::Render(hwnd)]);
        },
        None => {
            assert(fx@.skip(fx0.len() as int) =~= Seq::<Effect>::empty());
        },
    }
    assert(fx@.take(fx0.len() as int) =~= fx0);
}

/// The entry that the delete key is for.
pub fn delete_target(g: &Global, hwnd: u64) -> (r: Option<String>)
    ensures
        match index_of(g.fences@, hwnd) {
            Some(i) => match g.fences@[i as int].selected {
                Some(s) => if s < g.fences@[i as int].entries@.len() {
                    r == Some(g.fences@[i as int].entries@[s as int].path)
                } else {
                    r is None
                },
                None => r is None,
            },
            None => r is None,
        },
{
    match fence_idx(g, hwnd) {
        Some(i) => {
            let f = &g.fences[i];
            match f.selected {
                Some(s) => if s < f.entries.len() {
                    Some(f.entries[s].path.clone())
                } else {
                    None
                },
                None => None,
            }
        },
        None => None,
    }
}

/// The list of paths for the system, made of one path: it ends in two zeros.
pub fn recycle_list(path: Vec<u16>) -> (r: Vec<u16>)
    ensures
        r@ == path@.push(0).push(0),
{
    let mut list = path;
    list.push(0);
    list.push(0);
    list
}

/// Whether moving a file to the recycle bin worked: the system reports no error, and the user has
/// not stopped it.
pub fn recycled(code: i32, aborted: bool) -> (r: bool)
    ensures
        r == (code == 0 && !aborted),
{
    code == 0 && !aborted
}

/// The selected entry was moved to the recycle bin: nothing is selected, and the fence is
/// refreshed.
pub fn on_deleted(g: &mut Global, hwnd: u64, listing: &Option<Vec<Entry>>, fx: &mut Vec<Effect>)
    requires
        old(g).wf(),
    ensures
        final(g).wf(),
        match index_of(old(g).fences@, hwnd) {
            Some(i) => {
                &&& final(g).only_fence_changed(*old(g), i as int)
                &&& refreshed(
                    Fence { selected: None, ..old(g).fences@[i as int] },
                    *listing,
                    old(g).icon_px,
                    final(g).fences@[i as int],
                )
                &&& final(fx)@ == old(fx)@ + stop_effects(hwnd) + seq![Effect::Render(hwnd)]
            },
            None => *final(g) == *old(g) && final(fx)@ == old(fx)@,
        },
{
    let ghost before = *g;
    if let Some(i) = fence_idx(g, hwnd) {
        assert(before.fences@[i as int].wf());
        g.fences[i].selected = None;
        proof {
            assert(g.fences@ =~= before.fences@.update(i as int, g.fences@[i as int]));
            lemma_fence_replaced(before, *g, i as int);
        }
        refresh_fence_now(g, i, listing, fx);
        assert(g.fences@ =~= before.fences@.update(i as int, g.fences@[i as int]));
    }
}

/// The timer of a fence's refresh fires: says whether the fence is to be refreshed now.
pub fn on_refresh_tick(g: &mut Global, hwnd: u64, now: u64, fx: &mut Vec<Effect>) -> (r: bool)
    ensures
        match index_of(old(g).fences@, hwnd) {
            Some(i) => {
                let action = due(
                    old(g).fences@[i as int].refresh_signal.state,
                    now as int,
                    REFRESH_DEBOUNCE_NS as int,
                );
                &&& r == (action == RefreshTimerAction::Refresh)
                &&& final(g).only_fence_changed(*old(g), i as int)
                &&& final(g).fences@[i as int] == (if r {
                    unqueued(old(g).fences@[i as int])
                } else {
                    old(g).fences@[i as int]
                })
                &&& final(fx)@ == old(fx)@.push(
                    match action {
                        RefreshTimerAction::Wait(ms) => Effect::StartRefresh(hwnd, ms),
                        _ => Effect::StopRefresh(hwnd),
                    },
                )
            },
            None => !r && *final(g) == *old(g) && final(fx)@ == old(fx)@,
        },
        old(g).wf() ==> final(g).wf(),
{
    let ghost before = *g;
    match fence_idx(g, hwnd) {
        Some(i) => {
            let action = g.fences[i].refresh_signal.timer_action(now);
            proof {
                assert(g.fences@ =~= before.fences@.update(i as int, g.fences@[i as int]));
                if before.wf() {
                    assert(before.fences@[i as int].wf());
                    lemma_fence_replaced(before, *g, i as int);
                }
            }
            match action {
                RefreshTimerAction::Idle => {
                    fx.push(Effect::StopRefresh(hwnd));
                    false
                },
                RefreshTimerAction::Wait(ms) => {
                    fx.push(Effect::StartRefresh(hwnd, ms));
                    false
                },
                RefreshTimerAction::Refresh => {
                    fx.push(Effect::StopRefresh(hwnd));
                    true
                },
            }
        },
        None => false,
    }
}

/// The timer of the page animation fires.
pub fn on_anim_tick(g: &mut Global, hwnd: u64, fx: &mut Vec<Effect>)
    requires
        old(g).wf(),
    ensures
        final(g).wf(),
        match index_of(old(g).fences@, hwnd) {
            Some(i) => {
                let f = old(g).fences@[i as int];
                &&& final(g).only_fence_changed(*old(g), i as int)
                &&& if f.animating {
                    stepped(f, old(g).icon_px, final(g).fences@[i as int])
                } else {
                    final(g).fences@[i as int] == f
                }
                &&& final(fx)@ == old(fx)@ + (if f.animating && !final(g).fences@[i as int].animating {
                    stop_effects(hwnd)
                } else {
                    Seq::empty()
                }) + seq![Effect::Render(hwnd)]
            },
            None => *final(g) == *old(g) && final(fx)@ == old(fx)@,
        },
{
    let ghost before = *g;
    let ghost fx0 = fx@;
    if let Some(i) = fence_idx(g, hwnd) {
        let icon_px: u32 = g.icon_px;
        assert(g.fences@[i as int].wf());
        if g.fences[i].animating {
            step_page_anim(&mut g.fences[i], icon_px, fx);
        }
        fx.push(Effect::Render(hwnd));
        proof {
            assert(g.fences@ =~= before.fences@.update(i as int, g.fences@[i as int]));
            lemma_fence_replaced(before, *g, i as int);
            assert(fx@ =~= fx0 + (if before.fences@[i as int].animating && !g.fences@[i as int].animating {
                stop_effects(hwnd)
            } else {
                Seq::empty()
            }) + seq![Effect::Render(hwnd)]);
        }
    }
}

/// The mouse has left a fence.
pub fn on_mouse_leave(g: &mut Global, hwnd: u64, fx: &mut Vec<Effect>)
    ensures
        match index_of(old(g).fences@, hwnd) {
            Some(i) => {
                &&& final(g).only_fence_changed(*old(g), i as int)
                &&& final(g).fences@[i as int] == (Fence {
                    hover_visible: false,
                    hover: None,
                    ..old(g).fences@[i as int]
                })
                &&& final(fx)@ == old(fx)@.push(Effect::Render(hwnd))
            },
            None => *final(g) == *old(g) && final(fx)@ == old(fx)@,
        },
        old(g).wf() ==> final(g).wf(),
{
    let ghost before = *g;
    if let Some(i) = fence_idx(g, hwnd) {
        g.fences[i].hover_visible = false;
        g.fences[i].hover = None;
        fx.push(Effect::Render(hwnd));
        proof {
            assert(g.fences@ =~= before.fences@.update(i as int, g.fences@[i as int]));
            if before.wf() {
                assert(before.fences@[i as int].wf());
                lemma_fence_replaced(before, *g, i as int);
            }
        }
    }
}

/// The cursor over a point of a fence.
pub open spec fn cursor_of(f: Fence, x: int, y: int) -> Cursor {
    if y < scaled_px(30, f.dpi as int) {
        Cursor::SizeAll
    } else {
        match border_at(f.cfg.w as int, f.cfg.h as int, scaled_px(8, f.dpi as int), x, y) {
            Some(ResizeDir::N) | Some(ResizeDir::S) => Cursor::SizeNs,
            Some(ResizeDir::E) | Some(ResizeDir::W) => Cursor::SizeWe,
            Some(ResizeDir::NW) | Some(ResizeDir::SE) => Cursor::SizeNwse,
            Some(ResizeDir::NE) | Some(ResizeDir::SW) => Cursor::SizeNesw,
            None => Cursor::Arrow,
        }
    }
}

/// Sets the cursor over a point of a fence's window.
pub fn on_set_cursor(g: &Global, hwnd: u64, x: i32, y: i32, fx: &mut Vec<Effect>)
    ensures
        final(fx)@ == match index_of(g.fences@, hwnd) {
            Some(i) => old(fx)@.push(Effect::SetCursor(cursor_of(g.fences@[i as int], x as int, y as int))),
            None => old(fx)@,
        },
{
    if let Some(i) = fence_idx(g, hwnd) {
        let f = &g.fences[i];
        let cursor = if y < title_h(f.dpi) {
            Cursor::SizeAll
        } else {
            match resize_dir_at(f, x, y) {
                Some(d) => match d {
                    ResizeDir::N | ResizeDir::S => Cursor::SizeNs,
                    ResizeDir::E | ResizeDir::W => Cursor::SizeWe,
                    ResizeDir::NW | ResizeDir::SE => Cursor::SizeNwse,
                    _ => Cursor::SizeNesw,
                },
                None => Cursor::Arrow,
            }
        };
        fx.push(Effect::SetCursor(cursor));
    }
}

/// What a change of a fence's rectangle from outside asks for.
pub open spec fn replaced_effects(hwnd: u64, x: i32, y: i32, w: i32, h: i32) -> Seq<Effect> {
    seq![Effect::Place { hwnd, x, y, w, h }] + stop_effects(hwnd) + seq![Effect::Render(hwnd), Effect::Save]
}

/// Gives a fence a rectangle, draws it anew and saves the configuration.
#[verifier::rlimit(40)]
fn replace_rect(g: &mut Global, i: usize, hwnd: u64, x: i32, y: i32, w: i32, h: i32, fx: &mut Vec<Effect>)
    requires
        i < old(g).fences@.len(),
        old(g).fences@[i as int].hwnd == hwnd,
        old(g).fences@[i as int].wf(),
        drawable(old(g).icon_px, old(g).fences@[i as int].dpi),
    ensures
        final(g).only_fences_changed(*old(g)),
        final(g).fences@ == old(g).fences@.update(i as int, final(g).fences@[i as int]),
        synced(placed(old(g).fences@[i as int], x, y, w, h), old(g).icon_px, final(g).fences@[i as int]),
        final(g).fences@[i as int].wf(),
        final(g).config.fences@ == snapshots(final(g).fences@),
        final(fx)@ == old(fx)@ + replaced_effects(hwnd, x, y, w, h),
{
    let ghost before = *g;
    let ghost fx0 = fx@;
    let icon_px: u32 = g.icon_px;
    g.fences[i].cfg.x = x;
    g.fences[i].cfg.y = y;
    g.fences[i].cfg.w = w;
    g.fences[i].cfg.h = h;
    fx.push(Effect::Place { hwnd, x, y, w, h });
    assert(g.fences@[i as int] == placed(before.fences@[i as int], x, y, w, h));
    sync_page(&mut g.fences[i], icon_px, fx);
    fx.push(Effect::Render(hwnd));
    sync_config(g, fx);
    assert(g.fences@ =~= before.fences@.update(i as int, g.fences@[i as int]));
    assert(fx@ =~= fx0 + replaced_effects(hwnd, x, y, w, h));
}

/// The rectangle that the system suggests for a window whose DPI has changed.
pub open spec fn suggested(f: Fence, newdpi: u32, rect: Rect) -> Fence {
    Fence {
        dpi: newdpi,
        cfg: FenceCfg {
            x: rect.left,
            y: rect.top,
            w: max_of(rect.right - rect.left, 1) as i32,
            h: max_of(rect.bottom - rect.top, 1) as i32,
            dpi: newdpi,
            ..f.cfg
        },
        ..f
    }
}

/// The DPI of a fence's window has changed: the fence takes over the rectangle that the system
/// suggests.
pub fn on_dpi_changed(g: &mut Global, hwnd: u64, wparam: u64, rect: Rect, fx: &mut Vec<Effect>)
    requires
        old(g).wf(),
        measurable(rect),
        wparam % 0x1_0000 != 0 && index_of(old(g).fences@, hwnd) is Some ==> drawable(
            old(g).icon_px,
            (wparam % 0x1_0000) as u32,
        ),
    ensures
        final(g).wf(),
        match index_of(old(g).fences@, hwnd) {
            Some(i) => if wparam % 0x1_0000 == 0 {
                *final(g) == *old(g) && final(fx)@ == old(fx)@
            } else {
                let f1 = suggested(old(g).fences@[i as int], (wparam % 0x1_0000) as u32, rect);
                &&& final(g).only_fences_changed(*old(g))
                &&& final(g).fences@ == old(g).fences@.update(i as int, final(g).fences@[i as int])
                &&& synced(f1, old(g).icon_px, final(g).fences@[i as int])
                &&& final(g).config.fences@ == snapshots(final(g).fences@)
                &&& final(fx)@ == old(fx)@ + replaced_effects(hwnd, f1.cfg.x, f1.cfg.y, f1.cfg.w, f1.cfg.h)
            },
            None => *final(g) == *old(g) && final(fx)@ == old(fx)@,
        },
{
    let ghost before = *g;
    if let Some(i) = fence_idx(g, hwnd) {
        let newdpi: u32 = (wparam % 0x1_0000) as u32;
        if newdpi == 0 {
            return;
        }
        assert(g.fences@[i as int].wf());
        let nw: i32 = larger(rect.right - rect.left, 1);
        let nh: i32 = larger(rect.bottom - rect.top, 1);
        g.fences[i].dpi = newdpi;
        g.fences[i].cfg.dpi = newdpi;
        let ghost f0 = g.fences@[i as int];
        replace_rect(g, i, hwnd, rect.left, rect.top, nw, nh, fx);
        proof {
            assert(placed(f0, rect.left, rect.top, nw, nh) == suggested(before.fences@[i as int], newdpi, rect));
            assert(g.fences@ =~= before.fences@.update(i as int, g.fences@[i as int]));
            lemma_fence_replaced(before, *g, i as int);
        }
    }
}

/// The rectangle of a fence, brought into a work area that has changed.
pub open spec fn refitted(f: Fence, dpi: int, wa: Rect) -> (int, int, int, int) {
    let w = max_of(min_of(f.cfg.w as int, wa.right - wa.left), scaled_px(180, dpi));
    let h = max_of(min_of(f.cfg.h as int, wa.bottom - wa.top), scaled_px(100, dpi));
    (
        clamp_of(f.cfg.x as int, wa.left as int, max_of(wa.right - w, wa.left as int)),
        clamp_of(f.cfg.y as int, wa.top as int, max_of(wa.bottom - h, wa.top as int)),
        w,
        h,
    )
}

fn refit_extent(extent: i32, lo: i32, hi: i32, least: i32) -> (r: i32)
    requires
        least >= 0,
    ensures
        r == max_of(min_of(extent as int, hi - lo), least as int),
{
    let room: i64 = hi as i64 - lo as i64;
    let v: i64 = if extent as i64 <= room { extent as i64 } else { room };
    if v >= least as i64 {
        v as i32
    } else {
        least
    }
}

/// The displays have changed: a fence is brought into the work area, without being snapped to the
/// grid.
#[verifier::rlimit(40)]
pub fn on_display_change(g: &mut Global, hwnd: u64, reported_dpi: u32, wa: Rect, fx: &mut Vec<Effect>)
    requires
        old(g).wf(),
        index_of(old(g).fences@, hwnd) is Some ==> drawable(
            old(g).icon_px,
            max_of(reported_dpi as int, BASE_DPI as int) as u32,
        ),
    ensures
        final(g).wf(),
        match index_of(old(g).fences@, hwnd) {
            Some(i) => {
                let f = old(g).fences@[i as int];
                let dpi = max_of(reported_dpi as int, BASE_DPI as int);
                let r = refitted(f, dpi, wa);
                let moved = (Fence { dpi: dpi as u32, ..f });
                &&& final(g).fences@ == old(g).fences@.update(i as int, final(g).fences@[i as int])
                &&& if r == (f.cfg.x as int, f.cfg.y as int, f.cfg.w as int, f.cfg.h as int) {
                    &&& *final(g) == (Global { fences: final(g).fences, ..*old(g) })
                    &&& final(g).fences@[i as int] == moved
                    &&& final(fx)@ == old(fx)@
                } else {
                    &&& final(g).only_fences_changed(*old(g))
                    &&& synced(
                        placed(moved, r.0 as i32, r.1 as i32, r.2 as i32, r.3 as i32),
                        old(g).icon_px,
                        final(g).fences@[i as int],
                    )
                    &&& final(g).config.fences@ == snapshots(final(g).fences@)
                    &&& final(fx)@ == old(fx)@ + replaced_effects(
                        hwnd,
                        r.0 as i32,
                        r.1 as i32,
                        r.2 as i32,
                        r.3 as i32,
                    )
                }
            },
            None => *final(g) == *old(g) && final(fx)@ == old(fx)@,
        },
{
    let ghost before = *g;
    if let Some(i) = fence_idx(g, hwnd) {
        assert(g.fences@[i as int].wf());
        let d: u32 = window_dpi(reported_dpi);
        g.fences[i].dpi = d;
        let x: i32 = g.fences[i].cfg.x;
        let y: i32 = g.fences[i].cfg.y;
        let w: i32 = g.fences[i].cfg.w;
        let h: i32 = g.fences[i].cfg.h;
        let nw: i32 = refit_extent(w, wa.left, wa.right, min_w(d));
        let nh: i32 = refit_extent(h, wa.top, wa.bottom, min_h(d));
        let nx: i32 = place_within(x as i64, wa.left, wa.right, nw as i64);
        let ny: i32 = place_within(y as i64, wa.top, wa.bottom, nh as i64);
        let ghost moved = (Fence { dpi: d, ..before.fences@[i as int] });
        assert(g.fences@[i as int] == moved);
        if nx != x || ny != y || nw != w || nh != h {
            replace_rect(g, i, hwnd, nx, ny, nw, nh, fx);
        }
        proof {
            assert(g.fences@ =~= before.fences@.update(i as int, g.fences@[i as int]));
            lemma_fence_replaced(before, *g, i as int);
        }
    }
}

/// Where there is room for the least size, a fence that is brought into a work area lies inside it.
pub proof fn lemma_refit_inside(f: Fence, dpi: int, wa: Rect)
    requires
        scaled_px(180, dpi) <= wa.right - wa.left,
        scaled_px(100, dpi) <= wa.bottom - wa.top,
    ensures
        ({
            let r = refitted(f, dpi, wa);
            &&& wa.left <= r.0 && r.0 + r.2 <= wa.right
            &&& wa.top <= r.1 && r.1 + r.3 <= wa.bottom
            &&& scaled_px(180, dpi) <= r.2 && scaled_px(100, dpi) <= r.3
        }),
{
}

/// A fence that lies inside the work area and has the least size stays as it is when the displays
/// change.
pub proof fn lemma_refit_keeps(f: Fence, dpi: int, wa: Rect)
    requires
        wa.left <= f.cfg.x && f.cfg.x + f.cfg.w <= wa.right,
        wa.top <= f.cfg.y && f.cfg.y + f.cfg.h <= wa.bottom,
        scaled_px(180, dpi) <= f.cfg.w,
        scaled_px(100, dpi) <= f.cfg.h,
    ensures
        refitted(f, dpi, wa) == (f.cfg.x as int, f.cfg.y as int, f.cfg.w as int, f.cfg.h as int),
{
}

} // verus!
