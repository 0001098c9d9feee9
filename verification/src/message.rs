//! The messages that windows receive, by what they mean to the program.
use vstd::prelude::*;

verus! {

pub const WM_DESTROY: u32 = 0x0002;

pub const WM_SIZE: u32 = 0x0005;

pub const WM_PAINT: u32 = 0x000f;

pub const WM_CLOSE: u32 = 0x0010;

pub const WM_ERASEBKGND: u32 = 0x0014;

pub const WM_SETCURSOR: u32 = 0x0020;

pub const WM_CONTEXTMENU: u32 = 0x007b;

pub const WM_DISPLAYCHANGE: u32 = 0x007e;

pub const WM_NCHITTEST: u32 = 0x0084;

pub const WM_KEYDOWN: u32 = 0x0100;

pub const WM_COMMAND: u32 = 0x0111;

pub const WM_SYSCOMMAND: u32 = 0x0112;

pub const WM_TIMER: u32 = 0x0113;

pub const WM_MOUSEMOVE: u32 = 0x0200;

pub const WM_LBUTTONDOWN: u32 = 0x0201;

pub const WM_LBUTTONUP: u32 = 0x0202;

pub const WM_LBUTTONDBLCLK: u32 = 0x0203;

pub const WM_RBUTTONUP: u32 = 0x0205;

pub const WM_MOUSEWHEEL: u32 = 0x020a;

pub const WM_MOUSELEAVE: u32 = 0x02a3;

pub const WM_DPICHANGED: u32 = 0x02e0;

pub const WM_HOTKEY: u32 = 0x0312;

/// A folder has changed.
pub const WM_APP_REFRESH: u32 = 0x8001;

/// Files were dropped.
pub const WM_APP_DROP: u32 = 0x8002;

/// The desktop is to be swept.
pub const WM_APP_SWEEP: u32 = 0x8005;

/// A minimised fence is to be restored.
pub const WM_APP_DESKTOP_RESTORE: u32 = 0x8014;

/// The minimise command, without its low four bits.
pub const SC_MINIMIZE: u64 = 0xf02;

pub const SIZE_MINIMIZED: u64 = 1;

pub const VK_DELETE: u64 = 0x2e;

/// The timer of the page animation.
pub const ANIM_TICK: u64 = 0xfe10;

/// The refresh timer.
pub const REFRESH_TICK: u64 = 0xfe11;

/// The timers of the program's own window.
pub const TID_WATCHDOG: u64 = 1;

pub const TID_SWEEP_RETRY: u64 = 3;

pub const TID_DOWNLOADS: u64 = 4;

pub const TID_DESKTOP_LAYER: u64 = 5;

/// What a message means to a fence.
#[derive(Clone, Copy, Debug, PartialEq, Eq, Structural)]
pub enum FenceMessage {
    /// Nothing: the system handles it.
    Default,
    /// Nothing is done about it.
    Ignored,
    Minimized,
    Restore,
    Erase,
    HitTest,
    Paint,
    Destroy,
    Refresh,
    Drop,
    Delete,
    MouseMove,
    ButtonDown,
    ButtonUp,
    DoubleClick,
    Menu,
    Wheel,
    AnimationTick,
    RefreshTick,
    MouseLeave,
    SetCursor,
    DpiChanged,
    DisplayChange,
}

/// What a message means to a fence. A fence is part of the desktop: it does not follow the command
/// to minimise, and comes back when it was minimised all the same.
pub open spec fn fence_message_of(msg: u32, wparam: u64) -> FenceMessage {
    if msg == WM_SYSCOMMAND && (wparam as int % 0x1_0000) / 16 == SC_MINIMIZE {
        FenceMessage::Ignored
    } else if msg == WM_SIZE && wparam as int % 0x1_0000_0000 == SIZE_MINIMIZED {
        FenceMessage::Minimized
    } else if msg == WM_APP_DESKTOP_RESTORE {
        FenceMessage::Restore
    } else if msg == WM_ERASEBKGND {
        FenceMessage::Erase
    } else if msg == WM_NCHITTEST {
        FenceMessage::HitTest
    } else if msg == WM_PAINT {
        FenceMessage::Paint
    } else if msg == WM_DESTROY {
        FenceMessage::Destroy
    } else if msg == WM_APP_REFRESH {
        FenceMessage::Refresh
    } else if msg == WM_APP_DROP {
        FenceMessage::Drop
    } else if msg == WM_KEYDOWN && wparam == VK_DELETE {
        FenceMessage::Delete
    } else if msg == WM_MOUSEMOVE {
        FenceMessage::MouseMove
    } else if msg == WM_LBUTTONDOWN {
        FenceMessage::ButtonDown
    } else if msg == WM_LBUTTONUP {
        FenceMessage::ButtonUp
    } else if msg == WM_LBUTTONDBLCLK {
        FenceMessage::DoubleClick
    } else if msg == WM_RBUTTONUP {
        FenceMessage::Menu
    } else if msg == WM_MOUSEWHEEL {
        FenceMessage::Wheel
    } else if msg == WM_TIMER {
        if wparam == REFRESH_TICK {
            FenceMessage::RefreshTick
        } else if wparam == ANIM_TICK {
            FenceMessage::AnimationTick
        } else {
            FenceMessage::Ignored
        }
    } else if msg == WM_MOUSELEAVE {
        FenceMessage::MouseLeave
    } else if msg == WM_SETCURSOR {
        FenceMessage::SetCursor
    } else if msg == WM_DPICHANGED {
        FenceMessage::DpiChanged
    } else if msg == WM_DISPLAYCHANGE {
        FenceMessage::DisplayChange
    } else {
        FenceMessage::Default
    }
}

/// What a message means to a fence.
pub fn fence_message(msg: u32, wparam: u64) -> (r: FenceMessage)
    ensures
        r == fence_message_of(msg, wparam),
{
    match msg {
        WM_SYSCOMMAND => if (wparam % 0x1_0000) / 16 == SC_MINIMIZE {
            FenceMessage::Ignored
        } else {
            FenceMessage::Default
        },
        WM_SIZE => if wparam % 0x1_0000_0000 == SIZE_MINIMIZED {
            FenceMessage::Minimized
        } else {
            FenceMessage::Default
        },
        WM_APP_DESKTOP_RESTORE => FenceMessage::Restore,
        WM_ERASEBKGND => FenceMessage::Erase,
        WM_NCHITTEST => FenceMessage::HitTest,
        WM_PAINT => FenceMessage::Paint,
        WM_DESTROY => FenceMessage::Destroy,
        WM_APP_REFRESH => FenceMessage::Refresh,
        WM_APP_DROP => FenceMessage::Drop,
        WM_KEYDOWN => if wparam == VK_DELETE {
            FenceMessage::Delete
        } else {
            FenceMessage::Default
        },
        WM_MOUSEMOVE => FenceMessage::MouseMove,
        WM_LBUTTONDOWN => FenceMessage::ButtonDown,
        WM_LBUTTONUP => FenceMessage::ButtonUp,
        WM_LBUTTONDBLCLK => FenceMessage::DoubleClick,
        WM_RBUTTONUP => FenceMessage::Menu,
        WM_MOUSEWHEEL => FenceMessage::Wheel,
        WM_TIMER => if wparam == REFRESH_TICK {
            FenceMessage::RefreshTick
        } else if wparam == ANIM_TICK {
            FenceMessage::AnimationTick
        } else {
            FenceMessage::Ignored
        },
        WM_MOUSELEAVE => FenceMessage::MouseLeave,
        WM_SETCURSOR => FenceMessage::SetCursor,
        WM_DPICHANGED => FenceMessage::DpiChanged,
        WM_DISPLAYCHANGE => FenceMessage::DisplayChange,
        _ => FenceMessage::Default,
    }
}

/// What the system is told after a message; nothing where it handles the message itself. The whole
/// of a fence counts as its inside, so that it is moved and resized by the program.
pub open spec fn fence_result_of(m: FenceMessage) -> Option<i64> {
    match m {
        FenceMessage::Default => None,
        FenceMessage::Erase | FenceMessage::HitTest | FenceMessage::SetCursor => Some(1),
        _ => Some(0),
    }
}

/// What the system is told after a message.
pub fn fence_result(m: FenceMessage) -> (r: Option<i64>)
    ensures
        r == fence_result_of(m),
{
    match m {
        FenceMessage::Default => None,
        FenceMessage::Erase | FenceMessage::HitTest | FenceMessage::SetCursor => Some(1),
        _ => Some(0),
    }
}

/// What a message means to the program's own window.
#[derive(Clone, Copy, Debug, PartialEq, Eq, Structural)]
pub enum HostMessage {
    /// Nothing: the system handles it.
    Default,
    Ignored,
    TrayMenu,
    ToggleZen,
    Watchdog,
    SweepRetry,
    Downloads,
    DesktopLayer,
    Sweep,
    Quit,
}

/// What a message means to the program's own window; `tray` is the message of the tray's icon.
pub open spec fn host_message_of(msg: u32, wparam: u64, lparam: u64, tray: u32) -> HostMessage {
    let action = lparam as int % 0x1_0000;
    if msg == tray {
        if action == WM_RBUTTONUP || action == WM_CONTEXTMENU {
            HostMessage::TrayMenu
        } else if action == WM_LBUTTONDBLCLK {
            HostMessage::ToggleZen
        } else {
            HostMessage::Ignored
        }
    } else if msg == WM_HOTKEY {
        HostMessage::ToggleZen
    } else if msg == WM_TIMER {
        if wparam == TID_WATCHDOG {
            HostMessage::Watchdog
        } else if wparam == TID_SWEEP_RETRY {
            HostMessage::SweepRetry
        } else if wparam == TID_DOWNLOADS {
            HostMessage::Downloads
        } else if wparam == TID_DESKTOP_LAYER {
            HostMessage::DesktopLayer
        } else {
            HostMessage::Ignored
        }
    } else if msg == WM_APP_SWEEP {
        HostMessage::Sweep
    } else if msg == WM_DESTROY {
        HostMessage::Quit
    } else {
        HostMessage::Default
    }
}

/// What a message means to the program's own window.
pub fn host_message(msg: u32, wparam: u64, lparam: u64, tray: u32) -> (r: HostMessage)
    ensures
        r == host_message_of(msg, wparam, lparam, tray),
{
    if msg == tray {
        let action: u32 = (lparam % 0x1_0000) as u32;
        if action == WM_RBUTTONUP || action == WM_CONTEXTMENU {
            return HostMessage::TrayMenu;
        }
        if action == WM_LBUTTONDBLCLK {
            return HostMessage::ToggleZen;
        }
        return HostMessage::Ignored;
    }
    match msg {
        WM_HOTKEY => HostMessage::ToggleZen,
        WM_TIMER => match wparam {
            TID_WATCHDOG => HostMessage::Watchdog,
            TID_SWEEP_RETRY => HostMessage::SweepRetry,
            TID_DOWNLOADS => HostMessage::Downloads,
            TID_DESKTOP_LAYER => HostMessage::DesktopLayer,
            _ => HostMessage::Ignored,
        },
        WM_APP_SWEEP => HostMessage::Sweep,
        WM_DESTROY => HostMessage::Quit,
        _ => HostMessage::Default,
    }
}

/// What a message means to the window in which a text is entered.
#[derive(Clone, Copy, Debug, PartialEq, Eq, Structural)]
pub enum PromptMessage {
    /// Nothing: the system handles it.
    Default,
    Ignored,
    /// The text is taken and the window closes.
    Accept,
    /// The window closes.
    Cancel,
}

/// What a message means to the window in which a text is entered.
pub open spec fn prompt_message_of(msg: u32, wparam: u64) -> PromptMessage {
    if msg == WM_COMMAND {
        if wparam as int % 0x1_0000 == 1 {
            PromptMessage::Accept
        } else if wparam as int % 0x1_0000 == 2 {
            PromptMessage::Cancel
        } else {
            PromptMessage::Ignored
        }
    } else if msg == WM_CLOSE {
        PromptMessage::Cancel
    } else {
        PromptMessage::Default
    }
}

/// What a message means to the window in which a text is entered.
pub fn prompt_message(msg: u32, wparam: u64) -> (r: PromptMessage)
    ensures
        r == prompt_message_of(msg, wparam),
{
    if msg == WM_COMMAND {
        let id: u64 = wparam % 0x1_0000;
        if id == 1 {
            PromptMessage::Accept
        } else if id == 2 {
            PromptMessage::Cancel
        } else {
            PromptMessage::Ignored
        }
    } else if msg == WM_CLOSE {
        PromptMessage::Cancel
    } else {
        PromptMessage::Default
    }
}

} // verus!
