//! What holds of fences as they come and go, whatever they are and however many.
use crate::choice::{lemma_picked_step, picked};
use crate::config::FenceCfg;
use crate::effect::Effect;
use crate::fence::{refreshed, stop_effects, synced, Entry, Fence};
use crate::fence_laws::lemma_order;
use crate::geometry::{lemma_dpi_round_trip, lemma_px_range, lemma_scaled_px_close, scaled_px, Rect};
use crate::layout::{placed, settled_rect};
use crate::state::Global;
use crate::layout_laws::is_brought_in;
use crate::lifecycle::{
    create_effects, created, is_new_cfg, CreateStep,
    box_name_of, cascade_top, cascade_x, cascade_y, farewell, first_same, measurable, measured, prepared, restored_h, restored_w,
    valid_windows, Creation,
};
use crate::config::rescaled;
use crate::text_laws::lemma_decimal;
use crate::text::decimal_text;
use vstd::prelude::*;

verus! {

/// The cascade of fences without a place: the first one stands at its distance from the right edge, each
/// further one a step to the left and down, the sixth where the first one stands; no fence begins left
/// of the screen or above it, and none begins lower than its own height above the lower edge allows.
pub proof fn lemma_cascade(screen_w: int, screen_h: int, dpi: int, n: int)
    requires
        dpi >= 0,
        n >= 0,
    ensures
        cascade_x(screen_w, dpi, n + 5) == cascade_x(screen_w, dpi, n),
        cascade_y(screen_h, dpi, n + 5) == cascade_y(screen_h, dpi, n),
        cascade_top(dpi, n + 5) == cascade_top(dpi, n),
        cascade_x(screen_w, dpi, n) >= 0,
        cascade_y(screen_h, dpi, n) >= 0,
        cascade_x(screen_w, dpi, n) > 0 ==> cascade_x(screen_w, dpi, n) + scaled_px(320, dpi) + scaled_px(20, dpi) <= screen_w,
        cascade_y(screen_h, dpi, n) > 0 ==> cascade_y(screen_h, dpi, n) + scaled_px(400, dpi) <= screen_h,
        n % 5 == 0 && screen_w >= scaled_px(320, dpi) + scaled_px(20, dpi) ==> cascade_x(screen_w, dpi, n) + scaled_px(320, dpi)
            + scaled_px(20, dpi) == screen_w,
        n % 5 == 0 && screen_h >= scaled_px(80, dpi) + scaled_px(400, dpi) ==> cascade_y(screen_h, dpi, n) == scaled_px(80, dpi),
        n % 5 == 0 ==> cascade_top(dpi, n) == scaled_px(100, dpi),
        n % 5 != 4 ==> cascade_top(dpi, n + 1) == cascade_top(dpi, n) + scaled_px(40, dpi),
        n % 5 != 4 && cascade_x(screen_w, dpi, n + 1) > 0 ==> cascade_x(screen_w, dpi, n) == cascade_x(screen_w, dpi, n + 1)
            + scaled_px(30, dpi),
        n % 5 != 4 && cascade_y(screen_h, dpi, n + 1) + scaled_px(400, dpi) < screen_h ==> cascade_y(screen_h, dpi, n + 1)
            == cascade_y(screen_h, dpi, n) + scaled_px(40, dpi),
{
    lemma_px_range(320, dpi);
    lemma_px_range(20, dpi);
    lemma_px_range(30, dpi);
    lemma_px_range(40, dpi);
    lemma_px_range(80, dpi);
    lemma_px_range(100, dpi);
    lemma_px_range(400, dpi);
    let k = n % 5;
    let a = scaled_px(30, dpi);
    let b = scaled_px(40, dpi);
    assert((n + 5) % 5 == k);
    assert(k * a >= 0 && k * b >= 0) by (nonlinear_arith)
        requires
            k >= 0,
            a >= 0,
            b >= 0,
    ;
    if k != 4 {
        assert((n + 1) % 5 == k + 1);
        assert((k + 1) * a == k * a + a && (k + 1) * b == k * b + b) by (nonlinear_arith);
    }
    if k == 0 {
        assert(k * a == 0 && k * b == 0) by (nonlinear_arith)
            requires
                k == 0,
        ;
    }
}

/// A fence that has a place keeps it, one that has an id keeps that, and one whose DPI is unknown keeps its
/// size; no fence becomes smaller, and nothing else of it changes.
pub proof fn lemma_prepared(cfg: FenceCfg, next_id: u32, n: int, screen: (i32, i32), system_dpi: int)
    ensures
        ({
            let p = prepared(cfg, next_id, n, screen, system_dpi);
            &&& cfg.x != 0 || cfg.y != 0 ==> p.x == cfg.x && p.y == cfg.y
            &&& cfg.id != 0 ==> p.id == cfg.id
            &&& cfg.id == 0 ==> p.id == next_id
            &&& cfg.dpi == 0 ==> p.w == cfg.w && p.h == cfg.h
            &&& p.w >= cfg.w && p.h >= cfg.h
            &&& cfg.dpi != 0 ==> p.w >= scaled_px(180, cfg.dpi as int) && p.h >= scaled_px(100, cfg.dpi as int)
            &&& cfg.w >= scaled_px(180, cfg.dpi as int) ==> p.w == cfg.w
            &&& cfg.h >= scaled_px(100, cfg.dpi as int) ==> p.h == cfg.h
            &&& p.title == cfg.title && p.folder == cfg.folder && p.opacity == cfg.opacity && p.icon == cfg.icon && p.dpi == cfg.dpi
        }),
{
    lemma_px_range(180, cfg.dpi as int);
    lemma_px_range(100, cfg.dpi as int);
}

/// A restored size is the saved one brought to the display, or the least one where that is more.
pub proof fn lemma_restored(saved: int, saved_dpi: int, current_dpi: int)
    ensures
        restored_w(saved, saved_dpi, current_dpi) >= rescaled(saved, saved_dpi, current_dpi),
        restored_h(saved, saved_dpi, current_dpi) >= rescaled(saved, saved_dpi, current_dpi),
        restored_w(saved, saved_dpi, current_dpi) >= scaled_px(180, current_dpi),
        restored_h(saved, saved_dpi, current_dpi) >= scaled_px(100, current_dpi),
        restored_w(saved, saved_dpi, current_dpi) == rescaled(saved, saved_dpi, current_dpi) || restored_w(
            saved,
            saved_dpi,
            current_dpi,
        ) == scaled_px(180, current_dpi),
        restored_h(saved, saved_dpi, current_dpi) == rescaled(saved, saved_dpi, current_dpi) || restored_h(
            saved,
            saved_dpi,
            current_dpi,
        ) == scaled_px(100, current_dpi),
{
}

/// A window that is clamped to a work area is no larger than that and else as large as it was; where it
/// fits it stays, and else it moves no farther than it must.
pub proof fn lemma_clamped(c: Creation, wa: Rect)
    requires
        wa.left <= wa.right,
        wa.top <= wa.bottom,
    ensures
        ({
            let s = c.clamped_size(wa);
            let p = c.clamped_place(wa);
            &&& c.width() <= wa.right - wa.left ==> s.0 == c.width()
            &&& c.height() <= wa.bottom - wa.top ==> s.1 == c.height()
            &&& c.width() > wa.right - wa.left ==> s.0 == wa.right - wa.left
            &&& c.height() > wa.bottom - wa.top ==> s.1 == wa.bottom - wa.top
            &&& is_brought_in(p.0, c.fence.cfg.x as int, s.0, wa.left as int, wa.right as int)
            &&& is_brought_in(p.1, c.fence.cfg.y as int, s.1, wa.top as int, wa.bottom as int)
        }),
{
}

/// A fence takes over the rectangle of its window edge by edge; one that is empty counts as one pixel.
pub proof fn lemma_measured(f: Fence, reported_dpi: u32, r: Rect)
    requires
        measurable(r),
    ensures
        ({
            let m = measured(f, reported_dpi, r);
            &&& m.cfg.x == r.left && m.cfg.y == r.top
            &&& r.left < r.right ==> m.cfg.x + m.cfg.w == r.right
            &&& r.top < r.bottom ==> m.cfg.y + m.cfg.h == r.bottom
            &&& r.left >= r.right ==> m.cfg.w == 1
            &&& r.top >= r.bottom ==> m.cfg.h == 1
            &&& reported_dpi >= 96 ==> m.dpi == reported_dpi
            &&& reported_dpi < 96 ==> m.dpi == 96
            &&& m.cfg.id == f.cfg.id && m.cfg.folder == f.cfg.folder && m.entries == f.entries && m.hwnd == f.hwnd
        }),
{
}

/// Boxes of different numbers have different names.
pub proof fn lemma_box_names(a: nat, b: nat)
    requires
        a >= 1,
        b >= 1,
        a != b,
    ensures
        box_name_of(a) != box_name_of(b),
{
    reveal_strlit("收纳箱");
    reveal_strlit("收纳箱 ");
    lemma_decimal(a);
    lemma_decimal(b);
    let (x, y) = (box_name_of(a), box_name_of(b));
    if x == y {
        if a != 1 && b != 1 {
            assert(x.skip(4) =~= decimal_text(a));
            assert(y.skip(4) =~= decimal_text(b));
        } else {
            assert(x.len() == y.len());
        }
    }
}

/// The fence that is taken for the download box is the first valid one that shows its directory; there is
/// none where no valid fence does.
pub proof fn lemma_first_same(fences: Seq<Fence>, same_dir: Seq<bool>, k: int)
    requires
        0 <= k <= fences.len(),
        same_dir.len() == fences.len(),
    ensures
        forall|i: int|
            k <= i < fences.len() && (#[trigger] fences[i]).valid && same_dir[i] && (forall|j: int|
                k <= j < i ==> !((#[trigger] fences[j]).valid && same_dir[j])) ==> first_same(fences, same_dir, k) == Some(
                fences[i].cfg.id,
            ),
        (forall|j: int| k <= j < fences.len() ==> !((#[trigger] fences[j]).valid && same_dir[j])) ==> first_same(
            fences,
            same_dir,
            k,
        ) is None,
    decreases fences.len() - k,
{
    if k < fences.len() && !(fences[k].valid && same_dir[k]) {
        lemma_first_same(fences, same_dir, k + 1);
    }
    assert forall|i: int|
        k <= i < fences.len() && (#[trigger] fences[i]).valid && same_dir[i] && (forall|j: int|
            k <= j < i ==> !((#[trigger] fences[j]).valid && same_dir[j])) implies first_same(fences, same_dir, k) == Some(
        fences[i].cfg.id,
    ) by {
        if i > k {
            assert(!(fences[k].valid && same_dir[k]));
        }
    }
}

/// When the configuration is read anew, the window of every valid fence goes, in the order of the fences,
/// and no other.
pub proof fn lemma_all_windows_go(fences: Seq<Fence>, valid: Seq<bool>, each: Seq<Effect>, k: int)
    requires
        0 <= k <= fences.len(),
        valid.len() == fences.len(),
        each.len() == fences.len(),
        forall|i: int| 0 <= i < fences.len() ==> #[trigger] valid[i] == fences[i].valid,
        forall|i: int| 0 <= i < fences.len() ==> #[trigger] each[i] == Effect::Destroy(fences[i].hwnd),
    ensures
        picked(valid_windows(fences.take(k)), each, valid, k),
    decreases k,
{
    if k > 0 {
        lemma_all_windows_go(fences, valid, each, k - 1);
        assert(fences.take(k).drop_last() =~= fences.take(k - 1));
        assert(valid[k - 1] == fences[k - 1].valid);
        assert(each[k - 1] == Effect::Destroy(fences[k - 1].hwnd));
        lemma_picked_step(valid_windows(fences.take(k - 1)), each, valid, k);
    }
}

/// At the program's end the settings are saved first, and then every valid window stops taking dropped
/// files, in the order of the fences.
pub proof fn lemma_farewell(fences: Seq<Fence>, valid: Seq<bool>, each: Seq<Effect>, k: int)
    requires
        0 <= k <= fences.len(),
        valid.len() == fences.len(),
        each.len() == fences.len(),
        forall|i: int| 0 <= i < fences.len() ==> #[trigger] valid[i] == fences[i].valid,
        forall|i: int| 0 <= i < fences.len() ==> #[trigger] each[i] == Effect::RevokeDrop(fences[i].hwnd),
    ensures
        farewell(fences.take(k)).len() > 0,
        farewell(fences.take(k))[0] == Effect::Save,
        picked(farewell(fences.take(k)).skip(1), each, valid, k),
    decreases k,
{
    if k > 0 {
        lemma_farewell(fences, valid, each, k - 1);
        assert(fences.take(k).drop_last() =~= fences.take(k - 1));
        assert(valid[k - 1] == fences[k - 1].valid);
        assert(each[k - 1] == Effect::RevokeDrop(fences[k - 1].hwnd));
        let head = farewell(fences.take(k - 1));
        lemma_picked_step(head.skip(1), each, valid, k);
        if fences[k - 1].valid {
            assert(farewell(fences.take(k)).skip(1) =~= head.skip(1).push(each[k - 1]));
        }
    } else {
        assert(farewell(fences.take(0)).skip(1) =~= Seq::<Effect>::empty());
    }
}

/// A fence that is made joins the others as the last one and leaves them as they are; it keeps its id, its title, its
/// folder and its window, shows its folder, and its folder is watched.
pub proof fn lemma_created(
    old: Global,
    f: Fence,
    reported_dpi: u32,
    rect: Rect,
    listing: Option<Vec<Entry>>,
    wa: Rect,
    g: Global,
    fx: Seq<Effect>,
)
    requires
        created(old, f, reported_dpi, rect, listing, wa, g, fx),
    ensures
        g.fences@.len() == old.fences@.len() + 1,
        forall|i: int| 0 <= i < old.fences@.len() ==> #[trigger] g.fences@[i] == old.fences@[i],
        ({
            let n = g.fences@.last();
            &&& n.cfg.id == f.cfg.id && n.cfg.title == f.cfg.title && n.cfg.folder == f.cfg.folder && n.cfg.opacity == f.cfg.opacity
            &&& n.hwnd == f.hwnd && n.valid == f.valid
            &&& listing is Some ==> n.entries@.to_multiset() == listing->0@.to_multiset()
            &&& listing is None ==> n.entries@.len() == 0
            &&& fx.contains(Effect::Place { hwnd: f.hwnd, x: n.cfg.x, y: n.cfg.y, w: n.cfg.w, h: n.cfg.h })
        }),
        fx.contains(Effect::Render(f.hwnd)),
        fx.contains(Effect::Save),
        f.cfg.folder is Some ==> fx.contains(Effect::Watch(f.hwnd, f.cfg.folder->0)),
        g.zen == old.zen && g.icon_px == old.icon_px && g.download_pending == old.download_pending,
{
    let n = old.fences@.len();
    let f1 = choose|f1: Fence| #[trigger]
        refreshed(measured(f, reported_dpi, rect), listing, old.icon_px, f1) && ({
            let r = settled_rect(old.fences@.push(f1), n as usize, old.icon_px, wa);
            &&& g.only_fences_changed(old)
            &&& g.fences@.len() == n + 1
            &&& g.fences@.drop_last() == old.fences@
            &&& synced(placed(f1, r.0 as i32, r.1 as i32, r.2 as i32, r.3 as i32), old.icon_px, g.fences@[n as int])
            &&& fx == create_effects(f, r)
        });
    assert forall|i: int| 0 <= i < old.fences@.len() implies #[trigger] g.fences@[i] == old.fences@[i] by {
        assert(g.fences@.drop_last()[i] == old.fences@[i]);
    }
    if listing is Some {
        lemma_order(listing->0@);
    }
    let a = stop_effects(f.hwnd).len() as int;
    assert(fx[a] == Effect::Render(f.hwnd));
    let last = g.fences@.last();
    assert(fx[a + 1] == (Effect::Place { hwnd: f.hwnd, x: last.cfg.x, y: last.cfg.y, w: last.cfg.w, h: last.cfg.h }));
    assert(fx[fx.len() - 1] == Effect::Save);
    if f.cfg.folder is Some {
        assert(fx[fx.len() - 2] == Effect::Watch(f.hwnd, f.cfg.folder->0));
    }
}

/// The size of a fence that is made is settled once its window reports the DPI that it was brought to; else it is
/// brought to the reported one, and at the second time the window is clamped.
pub proof fn lemma_next_step(c: Creation, reported_dpi: int)
    requires
        96 <= reported_dpi < 0x20_0000,
    ensures
        c.next_step(reported_dpi) == CreateStep::Finish <==> reported_dpi == c.current_dpi,
        reported_dpi != c.current_dpi && c.rounds == 0 ==> c.next_step(reported_dpi) == CreateStep::Round,
        reported_dpi != c.current_dpi && c.rounds > 0 ==> c.next_step(reported_dpi) == CreateStep::Clamp,
        c.after_look(reported_dpi).current_dpi == reported_dpi,
        c.after_look(reported_dpi).fence == c.fence,
        c.after_look(reported_dpi).saved_dpi == c.saved_dpi,
        c.after_look(reported_dpi).saved_w == c.saved_w && c.after_look(reported_dpi).saved_h == c.saved_h,
{
    lemma_dpi_round_trip(reported_dpi);
}

/// A fence that is made from a menu stands where it is put, and is as large as its logical size asks on the display,
/// to the pixel.
pub proof fn lemma_new_cfg(c: FenceCfg, id: u32, left: int, top: int, width: int, dpi: int)
    requires
        is_new_cfg(c, id, left, top, width, dpi),
        0 < width <= 400,
        96 <= dpi < 0x2000,
    ensures
        c.id == id && c.x == left && c.y == top,
        width * dpi - 96 <= 96 * c.w <= width * dpi,
        340 * dpi - 96 <= 96 * c.h <= 340 * dpi,
        c.dpi == dpi,
        c.icon == 32,
{
    assert(width * dpi < 0x40_0000) by (nonlinear_arith)
        requires
            0 < width <= 400,
            0 < dpi < 0x2000,
    ;
    lemma_scaled_px_close(width, dpi);
    lemma_scaled_px_close(340, dpi);
    lemma_dpi_round_trip(dpi);
}

} // verus!
