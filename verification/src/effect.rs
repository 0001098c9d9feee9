//! What the library asks of the window system: each operation appends to a list what is to be done,
//! in order. A handle of 0 stands for no window.
use vstd::prelude::*;

verus! {

/// How a window is shown.
#[derive(Clone, Copy, Debug, PartialEq, Eq, Structural)]
pub enum ShowMode {
    Hide,
    /// In its current state, without activating it.
    Show,
    /// In its last size and place, without activating it.
    Restore,
}

/// The cursor over a fence.
#[derive(Clone, Copy, Debug, PartialEq, Eq, Structural)]
pub enum Cursor {
    Arrow,
    SizeAll,
    SizeNs,
    SizeWe,
    SizeNwse,
    SizeNesw,
}

/// One thing to be done.
#[derive(Debug, PartialEq, Eq)]
pub enum Effect {
    /// Gives a window a place and a size.
    Place { hwnd: u64, x: i32, y: i32, w: i32, h: i32 },
    /// Moves a window and keeps its size.
    Move { hwnd: u64, x: i32, y: i32 },
    /// Puts a window right below another one.
    InsertAfter { hwnd: u64, above: u64 },
    Show(u64, ShowMode),
    /// Draws a fence anew.
    Render(u64),
    /// Starts the timer of the page animation.
    StartAnimation(u64),
    StopAnimation(u64),
    /// Starts the refresh timer anew, with so many milliseconds.
    StartRefresh(u64, u32),
    StopRefresh(u64),
    /// Asks to be told when the mouse leaves the window.
    TrackLeave(u64),
    /// Directs the mouse to the window until it is released.
    Capture(u64),
    ReleaseCapture,
    /// Brings a window to the front and gives it the keyboard.
    Focus(u64),
    SetCursor(Cursor),
    /// Registers a window as a target for files that are dropped on it.
    RegisterDrop(u64),
    /// Withdraws a window as such a target and destroys it.
    Destroy(u64),
    /// Withdraws a window as a target for dropped files.
    RevokeDrop(u64),
    /// Watches a folder for a fence.
    Watch(u64, String),
    /// Stops all watches.
    StopWatches,
    /// Forgets the downloads that were reported and not looked at yet.
    DropArrivals,
    /// Writes the configuration to its file.
    Save,
    /// Keeps the desktop's icons out of the rectangles of the fences that are shown.
    Reserve,
    /// Opens a file.
    Open(String),
    /// Has the fence restored once the current message is done.
    PostRestore(u64),
    /// Tells a fence that files were dropped on it.
    PostDrop(u64),
    /// Has the desktop swept once the current message is done.
    PostSweep,
    /// Enters or removes the program in the list of those that start with the system.
    Autostart(bool),
    /// Ends the program.
    Quit,
    /// Lets the user rename a fence.
    Rename(u64),
    /// Opens the directory of the configuration.
    ExploreConfig,
    /// Makes the fences anew from the configuration's file.
    Reload,
    /// Lets the user choose the folder of a new fence.
    PickFolder,
    /// Makes the directory of a new box.
    MakeBox,
}

/// Whether a list of effects begins with another one.
pub open spec fn extends(old: Seq<Effect>, new: Seq<Effect>) -> bool {
    old.len() <= new.len() && new.take(old.len() as int) == old
}

/// What was appended to a list of effects.
pub open spec fn added(old: Seq<Effect>, new: Seq<Effect>) -> Seq<Effect> {
    new.skip(old.len() as int)
}

} // verus!
