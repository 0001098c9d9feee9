//! The state of the program: its configuration, its fences, and the downloads it follows.
use crate::config::Config;
use crate::effect::Effect;
use crate::fence::{config_snapshot, snapshots, Fence};
use crate::geometry::{
    drawable, icon, label_h, lemma_cell_bounds, lemma_cell_range, lemma_scaled_px_close, margin, rail, title_h,
    BASE_DPI, MAX_DPI, MAX_ICON,
};
use vstd::prelude::*;

verus! {

/// What is known of a file that may still be downloading.
#[derive(Clone, Copy, Debug, PartialEq, Eq, Structural)]
pub struct DownloadCandidate {
    pub len: u64,
    /// When it was last written, in nanoseconds, where that is known.
    pub modified: Option<i128>,
    /// For how many looks in a row it has not changed.
    pub stable_ticks: u8,
}

/// A file that is to be moved to the download box once it is complete.
#[derive(Debug)]
pub struct Pending {
    pub path: String,
    pub state: DownloadCandidate,
}

/// A file that could not be moved and is tried again.
#[derive(Debug)]
pub struct Retry {
    pub src: String,
    pub dest: String,
}

/// The state of the program.
#[derive(Debug)]
pub struct Global {
    pub config: Config,
    pub next_id: u32,
    pub fences: Vec<Fence>,
    /// The window that receives the program's own messages.
    pub msg_hwnd: u64,
    /// Whether all fences are hidden.
    pub zen: bool,
    /// The desktop's window.
    pub desktop_host: Option<u64>,
    /// The icon size in force, in logical pixels.
    pub icon_px: u32,
    pub sweep_retry: Vec<Retry>,
    /// The downloads that were there from the start or have been noticed; no path occurs twice.
    pub desktop_seen: Vec<String>,
    /// The downloads that are waited for; no path occurs twice.
    pub download_pending: Vec<Pending>,
    /// Files that the user took out of the download box, which stay where they are; no path occurs
    /// twice.
    pub download_ignored: Vec<String>,
    pub exiting: bool,
}

/// Whether no text occurs twice.
pub open spec fn distinct(v: Seq<String>) -> bool {
    forall|i: int, j: int| 0 <= i < j < v.len() ==> (#[trigger] v[i])@ != (#[trigger] v[j])@
}

/// Whether no path occurs twice.
pub open spec fn distinct_paths(v: Seq<Pending>) -> bool {
    forall|i: int, j: int| 0 <= i < j < v.len() ==> (#[trigger] v[i]).path@ != (#[trigger] v[j]).path@
}

impl Global {
    /// Whether every fence is sound and can be laid out.
    pub open spec fn fences_wf(self) -> bool {
        forall|i: int|
            0 <= i < self.fences@.len() ==> (#[trigger] self.fences@[i]).wf() && drawable(
                self.icon_px,
                self.fences@[i].dpi,
            )
    }

    /// What holds between two operations.
    pub open spec fn wf(self) -> bool {
        &&& self.fences_wf()
        &&& distinct(self.desktop_seen@)
        &&& distinct_paths(self.download_pending@)
        &&& distinct(self.download_ignored@)
    }

    /// Whether this state differs from `old` in its fences and their configuration alone.
    pub open spec fn only_fences_changed(self, old: Global) -> bool {
        self == (Global {
            fences: self.fences,
            config: Config { fences: self.config.fences, ..old.config },
            ..old
        })
    }

    /// Whether this state differs from `old` in the fence `idx` alone.
    pub open spec fn only_fence_changed(self, old: Global, idx: int) -> bool {
        &&& self == (Global { fences: self.fences, ..old })
        &&& self.fences@ == old.fences@.update(idx, self.fences@[idx])
    }
}

/// Every icon size that can be set can be drawn on every display of at least the base DPI.
pub proof fn lemma_drawable(icon_px: u32, dpi: u32)
    requires
        16 <= icon_px <= MAX_ICON,
        BASE_DPI <= dpi <= MAX_DPI,
    ensures
        drawable(icon_px, dpi),
{
    let e = icon_px as int * dpi as int;
    assert(16 * 96 <= e < 0x100_0000) by (nonlinear_arith)
        requires
            16 <= icon_px <= 128,
            96 <= dpi <= 0xffff,
            e == icon_px as int * dpi as int,
    ;
    lemma_scaled_px_close(icon_px as int, dpi as int);
    lemma_cell_bounds(icon_px as int, dpi as int);
}

/// Whether fences can be laid out with an icon size on a display.
pub fn can_draw(icon_px: u32, dpi: u32) -> (r: bool)
    ensures
        r == drawable(icon_px, dpi),
{
    proof {
        lemma_cell_range(icon_px as int, dpi as int);
    }
    let most: i64 = i32::MAX as i64;
    let size: i64 = icon(icon_px, dpi) as i64;
    let height: i64 = size + label_h(dpi) as i64;
    let across: i64 = 2 * margin(dpi) as i64 + rail(dpi) as i64;
    let down: i64 = title_h(dpi) as i64 + 2 * margin(dpi) as i64;
    0 < height && height <= most && size + 12 <= most && across <= most && down <= most
}

/// Whether all fences can be laid out with an icon size.
pub fn can_draw_all(g: &Global, icon_px: u32) -> (r: bool)
    ensures
        r == (forall|i: int| 0 <= i < g.fences@.len() ==> drawable(icon_px, (#[trigger] g.fences@[i]).dpi)),
{
    let n: usize = g.fences.len();
    let mut i: usize = 0;
    while i < n
        invariant
            i <= n,
            n == g.fences@.len(),
            forall|j: int| 0 <= j < i ==> drawable(icon_px, (#[trigger] g.fences@[j]).dpi),
        decreases n - i,
    {
        if !can_draw(icon_px, g.fences[i].dpi) {
            assert(!drawable(icon_px, g.fences@[i as int].dpi));
            return false;
        }
        i = i + 1;
    }
    true
}

/// The first of the fences that is valid and belongs to a window.
pub open spec fn index_of(fences: Seq<Fence>, hwnd: u64) -> Option<usize>
    decreases fences.len(),
{
    if fences.len() == 0 {
        None
    } else {
        match index_of(fences.drop_last(), hwnd) {
            Some(i) => Some(i),
            None => if fences.last().valid && fences.last().hwnd == hwnd {
                Some((fences.len() - 1) as usize)
            } else {
                None
            },
        }
    }
}

/// The first valid fence of a window, where there is one.
pub proof fn lemma_index_of(fences: Seq<Fence>, hwnd: u64)
    ensures
        match index_of(fences, hwnd) {
            Some(i) => {
                &&& i < fences.len()
                &&& fences[i as int].valid
                &&& fences[i as int].hwnd == hwnd
                &&& forall|j: int| 0 <= j < i ==> !((#[trigger] fences[j]).valid && fences[j].hwnd == hwnd)
            },
            None => forall|j: int|
                0 <= j < fences.len() ==> !((#[trigger] fences[j]).valid && fences[j].hwnd == hwnd),
        } || fences.len() > usize::MAX,
    decreases fences.len(),
{
    if fences.len() > 0 && fences.len() <= usize::MAX {
        let head = fences.drop_last();
        lemma_index_of(head, hwnd);
        match index_of(head, hwnd) {
            Some(i) => {
                assert(head[i as int] == fences[i as int]);
                assert forall|j: int| 0 <= j < i implies !((#[trigger] fences[j]).valid && fences[j].hwnd == hwnd) by {
                    assert(head[j] == fences[j]);
                }
            },
            None => {
                assert forall|j: int| 0 <= j < head.len() implies !((#[trigger] fences[j]).valid && fences[j].hwnd
                    == hwnd) by {
                    assert(head[j] == fences[j]);
                }
            },
        }
    }
}

/// Finds the valid fence of a window.
pub fn fence_idx(g: &Global, hwnd: u64) -> (r: Option<usize>)
    ensures
        r == index_of(g.fences@, hwnd),
        r is Some ==> r->0 < g.fences@.len() && g.fences@[r->0 as int].valid && g.fences@[r->0 as int].hwnd == hwnd,
{
    let n: usize = g.fences.len();
    let mut i: usize = 0;
    let mut found: Option<usize> = None;
    assert(g.fences@.take(0).len() == 0);
    while i < n
        invariant
            i <= n,
            n == g.fences@.len(),
            found == index_of(g.fences@.take(i as int), hwnd),
        decreases n - i,
    {
        assert(g.fences@.take(i + 1).drop_last() =~= g.fences@.take(i as int));
        if found.is_none() && g.fences[i].valid && g.fences[i].hwnd == hwnd {
            found = Some(i);
        }
        i = i + 1;
    }
    assert(g.fences@.take(n as int) =~= g.fences@);
    proof {
        lemma_index_of(g.fences@, hwnd);
    }
    found
}

/// Takes the fences over into the configuration and has it saved.
pub fn sync_config(g: &mut Global, fx: &mut Vec<Effect>)
    ensures
        *final(g) == (Global {
            config: Config { fences: final(g).config.fences, ..old(g).config },
            ..*old(g)
        }),
        final(g).config.fences@ == snapshots(old(g).fences@),
        final(fx)@ == old(fx)@.push(Effect::Save),
{
    g.config.fences = config_snapshot(&g.fences);
    fx.push(Effect::Save);
}

/// A state stays sound when one of its fences is replaced by a sound one.
pub proof fn lemma_fence_replaced(old: Global, g: Global, idx: int)
    requires
        old.wf(),
        0 <= idx < old.fences@.len(),
        g.icon_px == old.icon_px,
        g.desktop_seen == old.desktop_seen,
        g.download_pending == old.download_pending,
        g.download_ignored == old.download_ignored,
        g.fences@ == old.fences@.update(idx, g.fences@[idx]),
        g.fences@[idx].wf(),
        drawable(g.icon_px, g.fences@[idx].dpi),
    ensures
        g.wf(),
{
    assert forall|i: int| 0 <= i < g.fences@.len() implies (#[trigger] g.fences@[i]).wf() && drawable(
        g.icon_px,
        g.fences@[i].dpi,
    ) by {
        if i != idx {
            assert(g.fences@[i] == old.fences@[i]);
        }
    }
}

} // verus!
