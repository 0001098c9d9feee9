//! What holds of messages, of the window for a text, of refreshes and of changed displays, for all inputs.
use crate::dialog::{cut_quotient, prompt_fits, prompt_place_of};
use crate::effect::{Cursor, Effect};
use crate::fence::{Entry, Fence};
use crate::fence_laws::lemma_order;
use crate::geometry::{scaled_px, Rect};
use crate::layout_laws::is_brought_in;
use crate::lifecycle::measurable;
use crate::message::{
    fence_message_of, fence_result_of, host_message_of, prompt_message_of, FenceMessage, HostMessage, PromptMessage, WM_APP_SWEEP,
    WM_CLOSE, WM_COMMAND, WM_DESTROY, WM_HOTKEY, WM_KEYDOWN, WM_SIZE, WM_SYSCOMMAND, WM_TIMER,
};
use crate::refresh::{due, elapsed, RefreshState};
use crate::state::{index_of, lemma_index_of, Global};
use crate::window::{cursor_of, refitted, replaced_effects, suggested, window_refreshed};
use vstd::prelude::*;

verus! {

/// Whether a message to a fence means something of its own.
pub open spec fn is_meant(m: FenceMessage) -> bool {
    m != FenceMessage::Default && m != FenceMessage::Ignored
}

/// What a message means to a fence is not meant by any other one; only where it is a command to the system, a
/// change of size, a key or a timer does what comes with it count.
pub proof fn lemma_one_message_each(msg: u32, wparam: u64, other: u32, with: u64)
    ensures
        is_meant(fence_message_of(msg, wparam)) && fence_message_of(msg, wparam) == fence_message_of(other, with) ==> msg
            == other,
        msg != WM_SYSCOMMAND && msg != WM_SIZE && msg != WM_KEYDOWN && msg != WM_TIMER ==> fence_message_of(msg, wparam)
            == fence_message_of(msg, with),
{
}

/// The command to minimise is not followed, whatever its low four bits and what stands above its sixteen; any
/// other command to the system is the system's.
pub proof fn lemma_not_minimised(wparam: u64, above: int, low: int, command: int)
    requires
        wparam == above * 0x1_0000 + command * 16 + low,
        0 <= above,
        0 <= command < 0x1000,
        0 <= low < 16,
    ensures
        command == 0xf02 ==> fence_message_of(WM_SYSCOMMAND, wparam) == FenceMessage::Ignored,
        command != 0xf02 ==> fence_message_of(WM_SYSCOMMAND, wparam) == FenceMessage::Default,
{
    let w = wparam as int;
    assert(w % 0x1_0000 == command * 16 + low);
    assert((command * 16 + low) / 16 == command);
}

/// A fence that was minimised is told by the low half of what comes with the message.
pub proof fn lemma_minimised(wparam: u64, above: int, low: int)
    requires
        wparam == above * 0x1_0000_0000 + low,
        0 <= above,
        0 <= low < 0x1_0000_0000,
    ensures
        (fence_message_of(WM_SIZE, wparam) == FenceMessage::Minimized) <==> low == 1,
        low != 1 ==> fence_message_of(WM_SIZE, wparam) == FenceMessage::Default,
{
    assert(wparam as int % 0x1_0000_0000 == low);
}

/// Only what the fence has nothing to do with is left to the system.
pub proof fn lemma_result(m: FenceMessage)
    ensures
        fence_result_of(m) is None <==> m == FenceMessage::Default,
        fence_result_of(m) == Some(1i64) <==> m == FenceMessage::Erase || m == FenceMessage::HitTest || m
            == FenceMessage::SetCursor,
        fence_result_of(m) is Some ==> fence_result_of(m) == Some(0i64) || fence_result_of(m) == Some(1i64),
{
}

/// The tray's icon is listened to by the low sixteen bits of what it sends; only the hot key and the icon
/// hide and show the fences.
pub proof fn lemma_host(msg: u32, wparam: u64, lparam: u64, other: u64, tray: u32)
    requires
        lparam as int % 0x1_0000 == other as int % 0x1_0000,
    ensures
        host_message_of(msg, wparam, lparam, tray) == host_message_of(msg, wparam, other, tray),
        host_message_of(msg, wparam, lparam, tray) == HostMessage::TrayMenu ==> msg == tray,
        host_message_of(msg, wparam, lparam, tray) == HostMessage::ToggleZen ==> msg == tray || msg == WM_HOTKEY,
        host_message_of(msg, wparam, lparam, tray) == HostMessage::Quit ==> msg == WM_DESTROY,
        host_message_of(msg, wparam, lparam, tray) == HostMessage::Sweep ==> msg == WM_APP_SWEEP,
        msg != tray && msg != WM_TIMER ==> host_message_of(msg, wparam, lparam, tray) == host_message_of(msg, 0, 0, tray),
        msg != tray && msg == WM_HOTKEY ==> host_message_of(msg, wparam, lparam, tray) == HostMessage::ToggleZen,
        msg != tray && msg == WM_DESTROY ==> host_message_of(msg, wparam, lparam, tray) == HostMessage::Quit,
        msg != tray && msg == WM_APP_SWEEP ==> host_message_of(msg, wparam, lparam, tray) == HostMessage::Sweep,
{
}

/// Each timer of the program's own window stands for one thing.
pub proof fn lemma_host_timers(wparam: u64, other: u64, lparam: u64, tray: u32)
    requires
        tray != WM_TIMER,
        host_message_of(WM_TIMER, wparam, lparam, tray) == host_message_of(WM_TIMER, other, lparam, tray),
        host_message_of(WM_TIMER, wparam, lparam, tray) != HostMessage::Ignored,
    ensures
        wparam == other,
{
}

/// A text is taken only by the command for it, by the low sixteen bits of what comes with it.
pub proof fn lemma_prompt(msg: u32, wparam: u64, other: u64)
    requires
        wparam as int % 0x1_0000 == other as int % 0x1_0000,
    ensures
        prompt_message_of(msg, wparam) == prompt_message_of(msg, other),
        prompt_message_of(msg, wparam) == PromptMessage::Accept <==> msg == WM_COMMAND && wparam as int % 0x1_0000 == 1,
        prompt_message_of(msg, wparam) == PromptMessage::Cancel <==> msg == WM_CLOSE || (msg == WM_COMMAND && wparam as int
            % 0x1_0000 == 2),
        prompt_message_of(msg, wparam) == PromptMessage::Default <==> msg != WM_CLOSE && msg != WM_COMMAND,
{
}

/// The window for a text stands in the middle of its parent across, to the pixel, and a third of the room
/// above it, as far as it stays in the work area.
pub proof fn lemma_prompt_centred(parent: Rect, wa: Rect, w: int, h: int)
    requires
        prompt_fits(wa, w, h),
    ensures
        ({
            let x = parent.left + cut_quotient(parent.right - parent.left - w, 2);
            let y = parent.top + cut_quotient(parent.bottom - parent.top - h, 3);
            &&& -1 <= (x - parent.left) - (parent.right - (x + w)) <= 1
            &&& -2 <= 2 * (y - parent.top) - (parent.bottom - (y + h)) <= 2
            &&& is_brought_in(prompt_place_of(parent, wa, w, h).0, x, w, wa.left as int, wa.right as int)
            &&& is_brought_in(prompt_place_of(parent, wa, w, h).1, y, h, wa.top as int, wa.bottom as int)
        }),
{
}

/// A wait for a refresh is never longer than what is left, but for the one millisecond that a timer takes at
/// least.
pub proof fn lemma_wait_not_too_long(s: RefreshState, now: int, delay: int)
    requires
        0 <= now,
        0 <= delay,
        due(s, now, delay) is Wait,
    ensures
        due(s, now, delay)->Wait_0 >= 1,
        due(s, now, delay)->Wait_0 > 1 ==> {
            &&& s.last_event <= now ==> now + 1_000_000 * (due(s, now, delay)->Wait_0 as int) <= s.last_event + delay
            &&& s.last_event > now ==> 1_000_000 * (due(s, now, delay)->Wait_0 as int) <= delay
        },
        s.queued,
{
    let left = delay - elapsed(now, s.last_event as int);
    assert(1_000_000 * (left / 1_000_000) <= left);
}

/// Without an event nothing is ever due, and with one it is due once the delay has passed since then.
pub proof fn lemma_due(s: RefreshState, now: int, delay: int)
    requires
        0 < delay,
    ensures
        !s.queued ==> due(s, now, delay) is Idle,
        s.queued && now >= s.last_event + delay ==> due(s, now, delay) is Refresh,
        s.queued && now < s.last_event + delay ==> due(s, now, delay) is Wait,
{
}

/// When the displays change, each extent of a fence becomes what fits, and no less than the least one; and
/// the fence moves no farther than it must.
pub proof fn lemma_refit(f: Fence, dpi: int, wa: Rect)
    ensures
        ({
            let r = refitted(f, dpi, wa);
            let least_w = scaled_px(180, dpi);
            let least_h = scaled_px(100, dpi);
            &&& least_w <= f.cfg.w <= wa.right - wa.left ==> r.2 == f.cfg.w
            &&& least_h <= f.cfg.h <= wa.bottom - wa.top ==> r.3 == f.cfg.h
            &&& least_w <= wa.right - wa.left < f.cfg.w ==> r.2 == wa.right - wa.left
            &&& least_h <= wa.bottom - wa.top < f.cfg.h ==> r.3 == wa.bottom - wa.top
            &&& f.cfg.w < least_w || wa.right - wa.left < least_w ==> r.2 == least_w
            &&& f.cfg.h < least_h || wa.bottom - wa.top < least_h ==> r.3 == least_h
            &&& is_brought_in(r.0, f.cfg.x as int, r.2, wa.left as int, wa.right as int)
            &&& is_brought_in(r.1, f.cfg.y as int, r.3, wa.top as int, wa.bottom as int)
        }),
{
}

/// A fence takes over the rectangle that the system suggests edge by edge, and the new DPI, and keeps all
/// else.
pub proof fn lemma_suggested(f: Fence, dpi: u32, r: Rect)
    requires
        measurable(r),
    ensures
        ({
            let m = suggested(f, dpi, r);
            &&& m.cfg.x == r.left && m.cfg.y == r.top
            &&& r.left < r.right ==> m.cfg.x + m.cfg.w == r.right
            &&& r.top < r.bottom ==> m.cfg.y + m.cfg.h == r.bottom
            &&& r.left >= r.right ==> m.cfg.w == 1
            &&& r.top >= r.bottom ==> m.cfg.h == 1
            &&& m.dpi == dpi && m.cfg.dpi == dpi
            &&& m.cfg.id == f.cfg.id && m.cfg.folder == f.cfg.folder && m.cfg.title == f.cfg.title && m.entries == f.entries
        }),
{
}

/// The cursor shows which way an edge can go: the same for opposite edges and corners, another for each pair,
/// and the arrow inside.
pub proof fn lemma_cursor(f: Fence, x: int, y: int)
    requires
        scaled_px(8, f.dpi as int) >= 0,
        f.cfg.w >= 2 * scaled_px(8, f.dpi as int),
        f.cfg.h >= 2 * scaled_px(8, f.dpi as int),
    ensures
        ({
            let b = scaled_px(8, f.dpi as int);
            let across = x < b || x >= f.cfg.w - b;
            let down = y < b || y >= f.cfg.h - b;
            let falling = (x < b) == (y < b);
            let c = cursor_of(f, x, y);
            if y < scaled_px(30, f.dpi as int) {
                c == Cursor::SizeAll
            } else if across && down {
                c == if falling {
                    Cursor::SizeNwse
                } else {
                    Cursor::SizeNesw
                }
            } else if across {
                c == Cursor::SizeWe
            } else if down {
                c == Cursor::SizeNs
            } else {
                c == Cursor::Arrow
            }
        }),
{
}

/// Refreshing the fence of a window draws it anew and leaves every other fence as it is; without such a fence nothing
/// happens.
pub proof fn lemma_window_refreshed(old: Global, hwnd: u64, listing: Option<Vec<Entry>>, g: Global, fx: Seq<Effect>, i: int)
    requires
        window_refreshed(old, hwnd, listing, g, fx),
        old.fences@.len() <= usize::MAX,
        0 <= i < old.fences@.len(),
        old.fences@[i].valid && old.fences@[i].hwnd == hwnd,
        forall|j: int| 0 <= j < i ==> !((#[trigger] old.fences@[j]).valid && old.fences@[j].hwnd == hwnd),
    ensures
        fx.contains(Effect::Render(hwnd)),
        g.fences@.len() == old.fences@.len(),
        forall|j: int| 0 <= j < old.fences@.len() && j != i ==> #[trigger] g.fences@[j] == old.fences@[j],
        listing is Some ==> g.fences@[i].entries@.to_multiset() == listing->0@.to_multiset(),
        listing is None ==> g.fences@[i].entries@.len() == 0,
        g.fences@[i].cfg == old.fences@[i].cfg,
        g.config == old.config,
{
    lemma_index_of(old.fences@, hwnd);
    assert(index_of(old.fences@, hwnd) == Some(i as usize));
    assert(fx[fx.len() - 1] == Effect::Render(hwnd));
    if listing is Some {
        lemma_order(listing->0@);
    }
}

/// A fence that is given a rectangle is placed there, drawn, and saved.
pub proof fn lemma_replaced(hwnd: u64, x: i32, y: i32, w: i32, h: i32)
    ensures
        replaced_effects(hwnd, x, y, w, h)[0] == (Effect::Place { hwnd, x, y, w, h }),
        replaced_effects(hwnd, x, y, w, h).contains(Effect::Render(hwnd)),
        replaced_effects(hwnd, x, y, w, h).contains(Effect::Save),
{
    let fx = replaced_effects(hwnd, x, y, w, h);
    assert(fx[fx.len() - 2] == Effect::Render(hwnd));
    assert(fx[fx.len() - 1] == Effect::Save);
}

/// The window for a text fits wherever it is no larger than the work area and its place is within the range of one.
pub proof fn lemma_prompt_fits(wa: Rect, w: int, h: int)
    requires
        0 <= w <= wa.right - wa.left,
        0 <= h <= wa.bottom - wa.top,
    ensures
        prompt_fits(wa, w, h),
{
}

/// Without a valid fence of a window there is nothing to refresh, and nothing happens.
pub proof fn lemma_nothing_refreshed(old: Global, hwnd: u64, listing: Option<Vec<Entry>>, g: Global, fx: Seq<Effect>)
    requires
        window_refreshed(old, hwnd, listing, g, fx),
        old.fences@.len() <= usize::MAX,
        forall|j: int| 0 <= j < old.fences@.len() ==> !((#[trigger] old.fences@[j]).valid && old.fences@[j].hwnd == hwnd),
    ensures
        g == old,
        fx.len() == 0,
{
    lemma_index_of(old.fences@, hwnd);
}

} // verus!
