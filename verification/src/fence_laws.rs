//! What holds of the grid of a fence, of the order of its entries and of what lies under a point, for every
//! size and every listing.
use crate::config::FenceCfg;
use crate::effect::{added, extends, Effect};
use crate::fence::{
    lemma_animation_length, stepped, stop_effects, synced, ANIM_FRAMES,
    cols_of, entry_at, fitting, in_order, item_at, lemma_hit_cell, lemma_in_order_sorted, lemma_in_order_keeps, refreshed, rows_of,
    shown, signed16, snapshots, Entry, Fence,
};
use crate::float::{float_round, saturate, SINGLE};
use crate::float_laws::lemma_round_int;
use crate::geometry::{cell_h_of, cell_w_of, drawable, lemma_cell_range, scaled_px, single};
use crate::layout::placed;
use crate::precision::lemma_int_product;
use crate::state::Global;
use crate::text::{lower_text, precedes};
use crate::visibility::rehoused;
use crate::window::{notified, unqueued};
use vstd::prelude::*;

verus! {

/// As many cells fit in a length as have room in it: one more would not.
pub proof fn lemma_fitting_exact(len: int, cell: int, n: int)
    requires
        cell > 0,
        n >= 0,
        n * cell <= len || n == 0,
        len < (n + 1) * cell,
    ensures
        fitting(len, cell) == n,
{
    if len > 0 {
        assert(len / cell == n) by (nonlinear_arith)
            requires
                cell > 0,
                len > 0,
                n >= 0,
                n * cell <= len || n == 0,
                len < (n + 1) * cell,
        ;
    } else if n > 0 {
        assert(n * cell > 0) by (nonlinear_arith)
            requires
                n > 0,
                cell > 0,
        ;
    }
}

/// A fence has as many columns as fit between its margins beside the rail, but always one, and as many rows
/// as fit below the title between its margins.
pub proof fn lemma_grid(icon_px: u32, dpi: u32, w: int, h: int, cols: int, rows: int)
    requires
        drawable(icon_px, dpi),
        cols >= 0,
        rows >= 0,
        cols > 0 ==> cols * cell_w_of(icon_px as int, dpi as int) + 2 * scaled_px(10, dpi as int) + scaled_px(22, dpi as int) <= w,
        w < (cols + 1) * cell_w_of(icon_px as int, dpi as int) + 2 * scaled_px(10, dpi as int) + scaled_px(22, dpi as int),
        rows > 0 ==> rows * cell_h_of(icon_px as int, dpi as int) + scaled_px(30, dpi as int) + 2 * scaled_px(10, dpi as int) <= h,
        h < (rows + 1) * cell_h_of(icon_px as int, dpi as int) + scaled_px(30, dpi as int) + 2 * scaled_px(10, dpi as int),
    ensures
        cols_of(icon_px, dpi, w) == if cols == 0 {
            1
        } else {
            cols
        },
        rows_of(icon_px, dpi, h) == rows,
{
    lemma_cell_range(icon_px as int, dpi as int);
    lemma_fitting_exact(
        w - 2 * scaled_px(10, dpi as int) - scaled_px(22, dpi as int),
        cell_w_of(icon_px as int, dpi as int),
        cols,
    );
    lemma_fitting_exact(
        h - scaled_px(30, dpi as int) - 2 * scaled_px(10, dpi as int),
        cell_h_of(icon_px as int, dpi as int),
        rows,
    );
}

/// The pages follow each other without a gap: the top row of a page is the number of rows of those before
/// it.
pub proof fn lemma_page_row(f: Fence, icon_px: u32, rows: int)
    requires
        drawable(icon_px, f.dpi),
        rows == f.rows(icon_px),
        0 <= rows < 0x100_0000,
        f.page < 0x100_0000,
        f.page * rows < 0x100_0000,
    ensures
        f.page_row(icon_px) == single(f.page * rows),
        float_round(f.page_row(icon_px)) == f.page * rows,
{
    vstd::arithmetic::power2::lemma2_to64();
    assert(f.page * rows >= 0) by (nonlinear_arith)
        requires
            rows >= 0,
            f.page >= 0,
    ;
    lemma_int_product(SINGLE as nat, f.page as int, rows);
    lemma_round_int(SINGLE as nat, f.page * rows);
}

/// Folders come before files, and among themselves folders as well as files by their names without regard
/// to case; what is shown is what was listed.
pub proof fn lemma_order(entries: Seq<Entry>)
    ensures
        in_order(entries).len() == entries.len(),
        in_order(entries).to_multiset() == entries.to_multiset(),
        forall|i: int, j: int|
            0 <= i < j < entries.len() && (#[trigger] in_order(entries)[j]).is_dir ==> (#[trigger] in_order(entries)[i]).is_dir,
        forall|i: int, j: int|
            0 <= i < j < entries.len() && in_order(entries)[i].is_dir == in_order(entries)[j].is_dir ==> !precedes(
                lower_text((#[trigger] in_order(entries)[j]).name@),
                lower_text((#[trigger] in_order(entries)[i]).name@),
            ),
{
    lemma_in_order_sorted(entries);
    lemma_in_order_keeps(entries);
}

/// The first entry with a path: it has the path, and no earlier one has; where there is none, no entry has.
pub proof fn lemma_first_entry(entries: Seq<Entry>, path: Seq<char>)
    requires
        entries.len() <= usize::MAX,
    ensures
        match entry_at(entries, path) {
            Some(i) => {
                &&& i < entries.len()
                &&& entries[i as int].path@ == path
                &&& forall|j: int| 0 <= j < i ==> (#[trigger] entries[j]).path@ != path
            },
            None => forall|j: int| 0 <= j < entries.len() ==> (#[trigger] entries[j]).path@ != path,
        },
    decreases entries.len(),
{
    if entries.len() > 0 {
        let head = entries.drop_last();
        lemma_first_entry(head, path);
        match entry_at(head, path) {
            Some(i) => {
                assert(head[i as int] == entries[i as int]);
                assert forall|j: int| 0 <= j < i implies (#[trigger] entries[j]).path@ != path by {
                    assert(head[j] == entries[j]);
                }
            },
            None => {
                assert forall|j: int| 0 <= j < head.len() implies (#[trigger] entries[j]).path@ != path by {
                    assert(head[j] == entries[j]);
                }
            },
        }
    }
}

/// After a listing the selected file is still the selected one, as long as it is listed, and no other ever
/// becomes selected; the page stays, or is the last one where there are fewer.
pub proof fn lemma_refresh_keeps(f: Fence, listing: Option<Vec<Entry>>, icon_px: u32, g: Fence)
    requires
        refreshed(f, listing, icon_px, g),
        g.entries@.len() <= usize::MAX,
    ensures
        g.selected is Some ==> f.selected is Some && f.selected->0 < f.entries@.len() && g.selected->0 < g.entries@.len()
            && g.entries@[g.selected->0 as int].path@ == f.entries@[f.selected->0 as int].path@,
        f.selected is Some && f.selected->0 < f.entries@.len() && (exists|i: int|
            0 <= i < g.entries@.len() && (#[trigger] g.entries@[i]).path@ == f.entries@[f.selected->0 as int].path@)
            ==> g.selected is Some,
        listing is None ==> g.entries@.len() == 0,
        listing is Some ==> g.entries@.to_multiset() == listing->0@.to_multiset(),
        forall|i: int, j: int|
            0 <= i < j < g.entries@.len() && (#[trigger] g.entries@[j]).is_dir ==> (#[trigger] g.entries@[i]).is_dir,
        forall|i: int, j: int|
            0 <= i < j < g.entries@.len() && g.entries@[i].is_dir == g.entries@[j].is_dir ==> !precedes(
                lower_text((#[trigger] g.entries@[j]).name@),
                lower_text((#[trigger] g.entries@[i]).name@),
            ),
        f.page < g.pages(icon_px) ==> g.page == f.page,
        f.page >= g.pages(icon_px) ==> g.page == g.pages(icon_px) - 1,
        g.cfg == f.cfg,
        g.hwnd == f.hwnd,
        !g.animating,
        g.wheel_acc == 0,
{
    if listing is Some {
        lemma_order(listing->0@);
    }
    if f.selected is Some && f.selected->0 < f.entries@.len() {
        lemma_first_entry(g.entries@, f.entries@[f.selected->0 as int].path@);
    }
}

/// What is hit is what lies there: an entry under a point is the one whose cell the point is in. A point
/// left of the cells, above them or right of the last column hits nothing.
pub proof fn lemma_hit_is_there(f: Fence, icon_px: u32, x: int, y: int, k: usize)
    requires
        drawable(icon_px, f.dpi),
        f.entries@.len() <= usize::MAX,
        item_at(f, icon_px, x, y, f.cols(icon_px)) == Some(k),
    ensures
        ({
            let cw = cell_w_of(icon_px as int, f.dpi as int);
            let ch = cell_h_of(icon_px as int, f.dpi as int);
            let left = scaled_px(10, f.dpi as int);
            let top = scaled_px(30, f.dpi as int) + scaled_px(10, f.dpi as int);
            let cols = f.cols(icon_px);
            let first = saturate(float_round(f.top_row@));
            &&& k < f.entries@.len()
            &&& left + (k as int % cols) * cw <= x < left + (k as int % cols) * cw + cw
            &&& top + (k as int / cols - first) * ch <= y < top + (k as int / cols - first) * ch + ch
            &&& x >= left && y >= top && x < left + cols * cw
        }),
{
    lemma_cell_range(icon_px as int, f.dpi as int);
    let cw = cell_w_of(icon_px as int, f.dpi as int);
    let ch = cell_h_of(icon_px as int, f.dpi as int);
    let dx = x - scaled_px(10, f.dpi as int);
    let dy = y - scaled_px(30, f.dpi as int) - scaled_px(10, f.dpi as int);
    let cols = f.cols(icon_px);
    let first = saturate(float_round(f.top_row@));
    let col = dx / cw;
    let down = dy / ch;
    let row = down + first;
    assert(0 <= col && col * cw <= dx && dx < col * cw + cw) by (nonlinear_arith)
        requires
            col == dx / cw,
            cw > 0,
            dx >= 0,
    ;
    assert(down * ch <= dy && dy < down * ch + ch) by (nonlinear_arith)
        requires
            down == dy / ch,
            ch > 0,
    ;
    let idx = row * cols + col;
    assert(idx / cols == row && idx % cols == col) by (nonlinear_arith)
        requires
            idx == row * cols + col,
            0 <= col < cols,
    ;
    assert(col * cw + cw <= cols * cw) by (nonlinear_arith)
        requires
            col + 1 <= cols,
            cw > 0,
    ;
    assert(k as int / cols - first == down);
}

/// Every entry of the page that is shown can be hit: there is a cell of its own for it in the window.
pub proof fn lemma_every_entry_hit(f: Fence, icon_px: u32, k: int, x: int, y: int)
    requires
        drawable(icon_px, f.dpi),
        f.entries@.len() <= usize::MAX,
        f.top_row@ == f.page_row(icon_px),
        f.page < 0x100_0000,
        0 < f.rows(icon_px) < 0x100_0000,
        f.page * f.rows(icon_px) < 0x100_0000,
        f.page * f.per_page(icon_px) <= k < f.page * f.per_page(icon_px) + f.per_page(icon_px),
        k < f.entries@.len(),
        ({
            let cols = f.cols(icon_px);
            let at = k - f.page * f.per_page(icon_px);
            let cw = cell_w_of(icon_px as int, f.dpi as int);
            let ch = cell_h_of(icon_px as int, f.dpi as int);
            let left = scaled_px(10, f.dpi as int) + (at % cols) * cw;
            let top = scaled_px(30, f.dpi as int) + scaled_px(10, f.dpi as int) + (at / cols) * ch;
            left <= x < left + cw && top <= y < top + ch
        }),
    ensures
        item_at(f, icon_px, x, y, f.cols(icon_px)) == Some(k as usize),
{
    let cols = f.cols(icon_px);
    let rows = f.rows(icon_px);
    let page = f.page as int;
    let at = k - page * f.per_page(icon_px);
    let cw = cell_w_of(icon_px as int, f.dpi as int);
    let ch = cell_h_of(icon_px as int, f.dpi as int);
    let col = at % cols;
    let row = at / cols;
    lemma_page_row(f, icon_px, rows);
    assert(page * rows >= 0) by (nonlinear_arith)
        requires
            rows >= 0,
            page >= 0,
    ;
    assert(row >= 0 && 0 <= col < cols && at == row * cols + col) by (nonlinear_arith)
        requires
            col == at % cols,
            row == at / cols,
            at >= 0,
            cols >= 1,
    ;
    let dx = x - scaled_px(10, f.dpi as int) - col * cw;
    let dy = y - scaled_px(30, f.dpi as int) - scaled_px(10, f.dpi as int) - row * ch;
    lemma_hit_cell(f, icon_px, page * rows, col, row, dx, dy);
    assert((page * rows + row) * cols + col == k) by (nonlinear_arith)
        requires
            k == page * (cols * rows) + row * cols + col,
    ;
}

/// The 16 bits of a signed number stand for it: what they are read as differs from them by a multiple of
/// 65536, and is within the range of such numbers.
pub proof fn lemma_signed16(v: int, r: int)
    requires
        -0x8000 <= r < 0x8000,
        (v - r) % 0x1_0000 == 0,
    ensures
        signed16(v) == r,
{
}

/// What is saved of the fences is saved of each in its place: the rectangle, the title, the folder and the
/// looks as they are.
pub proof fn lemma_snapshots(fences: Seq<Fence>, i: int)
    requires
        0 <= i < fences.len(),
    ensures
        snapshots(fences).len() == fences.len(),
        ({
            let c = snapshots(fences)[i];
            let f = fences[i].cfg;
            &&& c.x == f.x && c.y == f.y && c.w == f.w && c.h == f.h
            &&& c.id == f.id && c.title == f.title && c.folder == f.folder && c.opacity == f.opacity && c.icon == f.icon
        }),
{
}

/// A fence whose page is brought into range shows the page it was on, or the last one where there are fewer, from
/// its first row and at rest; nothing else of it changes.
pub proof fn lemma_synced(f: Fence, icon_px: u32, g: Fence)
    requires
        synced(f, icon_px, g),
    ensures
        f.page < f.pages(icon_px) ==> g.page == f.page,
        f.page >= f.pages(icon_px) ==> g.page + 1 == f.pages(icon_px),
        g.top_row@ == g.page_row(icon_px),
        !g.animating,
        g.cfg == f.cfg && g.entries == f.entries && g.hwnd == f.hwnd && g.dpi == f.dpi && g.valid == f.valid,
        g.selected == f.selected && g.hover == f.hover && g.moving == f.moving && g.resizing == f.resizing,
        g.wheel_acc == f.wheel_acc && g.drag_idx == f.drag_idx && g.refresh_signal == f.refresh_signal,
        g.pages(icon_px) == f.pages(icon_px),
{
}

/// Only the animation of a window is stopped.
pub proof fn lemma_stop(hwnd: u64)
    ensures
        stop_effects(hwnd).contains(Effect::StopAnimation(hwnd)) <==> hwnd != 0,
        stop_effects(hwnd).len() <= 1,
{
    if hwnd != 0 {
        assert(stop_effects(hwnd)[0] == Effect::StopAnimation(hwnd));
    }
}

/// A frame of the animation counts, and at its last one the fence is exactly on its page and at rest; the page and
/// all else stay.
pub proof fn lemma_stepped(f: Fence, icon_px: u32, g: Fence)
    requires
        stepped(f, icon_px, g),
        f.anim_frames < ANIM_FRAMES,
    ensures
        g.anim_frames == f.anim_frames + 1,
        g.anim_frames == ANIM_FRAMES ==> g.top_row@ == g.page_row(icon_px) && !g.animating,
        g.anim_frames < ANIM_FRAMES ==> g.animating == f.animating,
        g.page == f.page && g.cfg == f.cfg && g.entries == f.entries && g.anim_from == f.anim_from && g.wheel_acc == f.wheel_acc,
{
    lemma_animation_length(f.anim_frames + 1);
}

/// Where only one fence changes, every other one stays as it is and in its place, and so does all else.
pub proof fn lemma_only_one(old: Global, g: Global, i: int)
    requires
        g.only_fence_changed(old, i),
        0 <= i < old.fences@.len(),
    ensures
        g.fences@.len() == old.fences@.len(),
        forall|j: int| 0 <= j < old.fences@.len() && j != i ==> #[trigger] g.fences@[j] == old.fences@[j],
        g.config == old.config && g.zen == old.zen && g.icon_px == old.icon_px && g.next_id == old.next_id,
        g.desktop_seen == old.desktop_seen && g.download_pending == old.download_pending && g.download_ignored
            == old.download_ignored,
        g.sweep_retry == old.sweep_retry && g.desktop_host == old.desktop_host && g.exiting == old.exiting && g.msg_hwnd
            == old.msg_hwnd,
{
}

/// Where only fences change, no setting does but what is saved of them, and nothing that is known of downloads.
pub proof fn lemma_only_fences(old: Global, g: Global)
    requires
        g.only_fences_changed(old),
    ensures
        g.zen == old.zen && g.icon_px == old.icon_px && g.next_id == old.next_id && g.exiting == old.exiting,
        g.desktop_seen == old.desktop_seen && g.download_pending == old.download_pending && g.download_ignored
            == old.download_ignored,
        g.sweep_retry == old.sweep_retry && g.desktop_host == old.desktop_host && g.msg_hwnd == old.msg_hwnd,
        g.config.sweep_rules == old.config.sweep_rules && g.config.ghost_mode == old.config.ghost_mode && g.config.autostart
            == old.config.autostart,
        g.config.download_box_id == old.config.download_box_id && g.config.download_enabled == old.config.download_enabled
            && g.config.download_box_visible == old.config.download_box_visible,
        g.config.icon == old.config.icon && g.config.vault_dir == old.config.vault_dir && g.config.version == old.config.version,
{
}

/// A fence with another rectangle has that rectangle and is the same otherwise.
pub proof fn lemma_placed(f: Fence, x: i32, y: i32, w: i32, h: i32)
    ensures
        ({
            let p = placed(f, x, y, w, h);
            &&& p.cfg.x == x && p.cfg.y == y && p.cfg.w == w && p.cfg.h == h
            &&& p.cfg.id == f.cfg.id && p.cfg.title == f.cfg.title && p.cfg.folder == f.cfg.folder && p.cfg.opacity
                == f.cfg.opacity && p.cfg.icon == f.cfg.icon && p.cfg.dpi == f.cfg.dpi
            &&& p.entries == f.entries && p.hwnd == f.hwnd && p.dpi == f.dpi && p.page == f.page && p.valid == f.valid
            &&& p.selected == f.selected && p.hover == f.hover && p.moving == f.moving && p.resizing == f.resizing
            &&& placed(p, f.cfg.x, f.cfg.y, f.cfg.w, f.cfg.h) == f
        }),
{
}

/// A fence that lives on in a new window is valid and at rest there, and is the same otherwise.
pub proof fn lemma_rehoused(f: Fence, hwnd: u64)
    ensures
        ({
            let r = rehoused(f, hwnd);
            &&& r.hwnd == hwnd && r.valid && !r.moving && r.resizing is None
            &&& r.cfg == f.cfg && r.entries == f.entries && r.dpi == f.dpi && r.page == f.page && r.selected == f.selected
        }),
{
}

/// A change in a folder that was noted and then is no longer waited for leaves the fence as it was, but for the time
/// of the change.
pub proof fn lemma_note_and_forget(f: Fence, now: u64)
    ensures
        notified(f, now).refresh_signal.state.queued,
        notified(f, now).refresh_signal.state.last_event == now,
        !unqueued(f).refresh_signal.state.queued,
        unqueued(f).refresh_signal.state.last_event == f.refresh_signal.state.last_event,
        !f.refresh_signal.state.queued && f.refresh_signal.state.last_event == now ==> unqueued(notified(f, now)) == f,
        notified(f, now).cfg == f.cfg && notified(f, now).entries == f.entries,
        unqueued(f).cfg == f.cfg && unqueued(f).entries == f.entries,
{
}

/// What is asked for later comes after what was asked for before, and takes nothing of that back.
pub proof fn lemma_extends(a: Seq<Effect>, b: Seq<Effect>)
    requires
        extends(a, b),
    ensures
        b == a + added(a, b),
        forall|i: int| 0 <= i < a.len() ==> b[i] == a[i],
{
    assert(b =~= a + added(a, b));
    assert forall|i: int| 0 <= i < a.len() implies b[i] == a[i] by {
        assert(b.take(a.len() as int)[i] == a[i]);
    }
}

/// A new fence is empty and at rest: nothing lies under any of its points, it has one page, and nothing of it is
/// held, marked or waited for.
pub proof fn lemma_new_fence(f: Fence, cfg: FenceCfg, hwnd: u64, dpi: int, icon_px: u32, x: int, y: int)
    requires
        f.is_new(cfg, hwnd, dpi),
    ensures
        item_at(f, icon_px, x, y, f.cols(icon_px)) is None,
        f.pages(icon_px) == 1,
        f.page == 0,
        f.cfg == cfg && f.hwnd == hwnd && f.valid,
        !f.animating && !f.moving && f.resizing is None && f.drag_idx is None,
        f.selected is None && f.hover is None && !f.hover_visible,
        !f.refresh_signal.state.queued && f.wheel_acc == 0 && f.cache is None,
{
    let per = f.per_page(icon_px);
    if per > 0 {
        assert((0 + per - 1) / per == 0) by (nonlinear_arith)
            requires
                per > 0,
        ;
    }
}

} // verus!
