//! What holds of the menus and of opacities, for every state and every opacity.
use crate::bits::{decoded, is_special};
use crate::choice::{lemma_picked_step, picked};
use crate::effect::Effect;
use crate::fence::Fence;
use crate::float::{float_abs, float_add, float_le, float_neg, scale, SINGLE};
use crate::geometry::{drawable, icon_px_of, BASE_DPI, MAX_DPI};
use crate::layout::snappable;
use crate::layout_laws::lemma_snappable;
use crate::menu::{
    menu_of, resizable, with_opacity, with_title, FenceMenu, CMD_HIDE_BOX, any_index_of, dispatched, fence_command_of, FenceCommand, removed, render_all, TrayCommand,
};
use crate::opacity::{chosen_preset, nearest_preset, opacity_gap, preset_bits};
use crate::opacity_laws::lemma_decoded;
use crate::order::{lemma_le_total, lemma_le_transitive, lemma_sub_self};
use crate::precision::{lemma_round_positive, lemma_scale_pos};
use crate::state::{index_of, lemma_drawable, lemma_index_of, Global};
use vstd::arithmetic::power2::lemma2_to64;
use vstd::prelude::*;

verus! {

/// Whether the opacity `a` of the menu is nearer to `v` than `b` is, or as near.
pub open spec fn as_near(v: (int, int), a: int, b: int) -> bool {
    float_le(opacity_gap(v, preset_bits(a) as int), opacity_gap(v, preset_bits(b) as int))
}

proof fn lemma_nearest_of(v: (int, int), k: int)
    requires
        0 <= k,
    ensures
        0 <= nearest_preset(v, k) <= k,
        forall|j: int| 0 <= j <= k ==> #[trigger] as_near(v, nearest_preset(v, k), j),
        forall|j: int| 0 <= j < nearest_preset(v, k) ==> !#[trigger] as_near(v, j, nearest_preset(v, k)),
    decreases k,
{
    let gap = |j: int| opacity_gap(v, preset_bits(j) as int);
    if k <= 0 {
        lemma_le_total(gap(0), gap(0));
    } else {
        lemma_nearest_of(v, k - 1);
        let best = nearest_preset(v, k - 1);
        let now = nearest_preset(v, k);
        lemma_le_total(gap(k), gap(k));
        lemma_le_total(gap(best), gap(k));
        assert forall|j: int| 0 <= j <= k implies #[trigger] as_near(v, now, j) by {
            if j < k {
                assert(as_near(v, best, j));
                if now == k {
                    lemma_le_transitive(gap(k), gap(best), gap(j));
                }
            }
        }
        assert forall|j: int| 0 <= j < now implies !#[trigger] as_near(v, j, now) by {
            if now == k {
                assert(as_near(v, best, j));
                if as_near(v, j, k) {
                    lemma_le_transitive(gap(best), gap(j), gap(k));
                }
            }
        }
    }
}

/// The entry of the opacity menu that is ticked is the nearest one to the opacity: no other is nearer, and
/// of those as near it is the first.
pub proof fn lemma_ticked_is_nearest(bits: int)
    requires
        !is_special(bits),
    ensures
        0 <= chosen_preset(bits) < 4,
        forall|j: int| 0 <= j < 4 ==> #[trigger] as_near(decoded(bits), chosen_preset(bits), j),
        forall|j: int| 0 <= j < chosen_preset(bits) ==> !#[trigger] as_near(decoded(bits), j, chosen_preset(bits)),
{
    lemma_nearest_of(decoded(bits), 3);
}

/// The first fence of a window: it belongs to it, and no earlier one does; there is none where no fence does.
pub proof fn lemma_first_of_window(fences: Seq<Fence>, hwnd: u64, k: int)
    requires
        0 <= k <= fences.len() <= usize::MAX,
    ensures
        match any_index_of(fences, hwnd, k) {
            Some(r) => {
                &&& k <= r < fences.len()
                &&& fences[r as int].hwnd == hwnd
                &&& forall|i: int| k <= i < r ==> (#[trigger] fences[i]).hwnd != hwnd
            },
            None => forall|i: int| k <= i < fences.len() ==> (#[trigger] fences[i]).hwnd != hwnd,
        },
    decreases fences.len() - k,
{
    if k < fences.len() && fences[k].hwnd != hwnd {
        lemma_first_of_window(fences, hwnd, k + 1);
    }
}

/// Deleting the fence of a window, which is not the download box, takes out this fence alone: those before
/// it keep their places, those after it move up by one, and its window goes.
pub proof fn lemma_delete_one(
    old: Global,
    hwnd: u64,
    present: Seq<String>,
    g: Global,
    fx0: Seq<Effect>,
    fx: Seq<Effect>,
    i: int,
)
    requires
        removed(old, hwnd, present, g, fx0, fx),
        old.fences@.len() <= usize::MAX,
        0 <= i < old.fences@.len(),
        old.fences@[i].hwnd == hwnd,
        forall|j: int| 0 <= j < i ==> (#[trigger] old.fences@[j]).hwnd != hwnd,
        old.config.download_box_id != Some(old.fences@[i].cfg.id),
    ensures
        g.fences@.len() == old.fences@.len() - 1,
        forall|j: int| 0 <= j < i ==> #[trigger] g.fences@[j] == old.fences@[j],
        forall|j: int| i <= j < g.fences@.len() ==> #[trigger] g.fences@[j] == old.fences@[j + 1],
        fx.len() == fx0.len() + 2,
        fx[fx0.len() as int] == Effect::Destroy(hwnd),
        fx[fx0.len() as int + 1] == Effect::Save,
        g.download_pending == old.download_pending,
        g.config.download_enabled == old.config.download_enabled,
{
    lemma_first_of_window(old.fences@, hwnd, 0);
}

/// Every valid fence is drawn once, in the order of the fences, and no other.
pub proof fn lemma_all_drawn(fences: Seq<Fence>, valid: Seq<bool>, each: Seq<Effect>, k: int)
    requires
        0 <= k <= fences.len(),
        valid.len() == fences.len(),
        each.len() == fences.len(),
        forall|i: int| 0 <= i < fences.len() ==> #[trigger] valid[i] == fences[i].valid,
        forall|i: int| 0 <= i < fences.len() ==> #[trigger] each[i] == Effect::Render(fences[i].hwnd),
    ensures
        picked(render_all(fences.take(k)), each, valid, k),
    decreases k,
{
    if k > 0 {
        lemma_all_drawn(fences, valid, each, k - 1);
        assert(fences.take(k).drop_last() =~= fences.take(k - 1));
        assert(valid[k - 1] == fences[k - 1].valid);
        assert(each[k - 1] == Effect::Render(fences[k - 1].hwnd));
        lemma_picked_step(render_all(fences.take(k - 1)), each, valid, k);
    }
}

/// Whether a command of the tray's menu turns something on or off.
pub open spec fn is_switch(cmd: TrayCommand) -> bool {
    cmd == TrayCommand::Zen || cmd == TrayCommand::ToggleVisibility || cmd == TrayCommand::GhostMode || cmd
        == TrayCommand::DownloadEnabled || cmd == TrayCommand::DownloadVisible || cmd == TrayCommand::Autostart
}

/// What a command switches is changed by the first use and back by the second; nothing else of the
/// settings changes, and the fences stay.
pub proof fn lemma_switch_back(
    a: Global,
    b: Global,
    c: Global,
    cmd: TrayCommand,
    present: Seq<String>,
    fx1: Seq<Effect>,
    fx2: Seq<Effect>,
)
    requires
        is_switch(cmd),
        dispatched(a, cmd, present, b, fx1),
        dispatched(b, cmd, present, c, fx2),
    ensures
        c.config == a.config,
        c.zen == a.zen,
        c.fences == a.fences,
        b.fences == a.fences,
        cmd == TrayCommand::Zen || cmd == TrayCommand::ToggleVisibility ==> b.zen != a.zen && b.config == a.config,
        cmd == TrayCommand::GhostMode ==> b.config.ghost_mode != a.config.ghost_mode,
        cmd == TrayCommand::Autostart ==> b.config.autostart != a.config.autostart && fx1.contains(
            Effect::Autostart(b.config.autostart),
        ),
        cmd == TrayCommand::DownloadEnabled ==> b.config.download_enabled != a.config.download_enabled,
        cmd == TrayCommand::DownloadVisible && a.config.download_enabled ==> b.config.download_box_visible
            != a.config.download_box_visible,
        cmd == TrayCommand::DownloadVisible && !a.config.download_enabled ==> b == a && fx1.len() == 0,
        cmd == TrayCommand::GhostMode || cmd == TrayCommand::Autostart || cmd == TrayCommand::DownloadEnabled || (cmd
            == TrayCommand::DownloadVisible && a.config.download_enabled) ==> fx1.contains(Effect::Save),
{
    if cmd == TrayCommand::GhostMode {
        assert(fx1[0] == Effect::Save);
    }
    if cmd == TrayCommand::Autostart {
        assert(fx1[0] == Effect::Autostart(b.config.autostart));
        assert(fx1[1] == Effect::Save);
    }
    if cmd == TrayCommand::DownloadEnabled || (cmd == TrayCommand::DownloadVisible && a.config.download_enabled) {
        assert(fx1[fx1.len() - 1] == Effect::Save);
    }
}

/// Commands that switch nothing change nothing, and each asks for its own thing.
pub proof fn lemma_plain_command(old: Global, cmd: TrayCommand, present: Seq<String>, g: Global, fx: Seq<Effect>)
    requires
        !is_switch(cmd),
        dispatched(old, cmd, present, g, fx),
    ensures
        g == old,
        cmd == TrayCommand::Nothing <==> fx.len() == 0,
        cmd == TrayCommand::NewPortal <==> fx == seq![Effect::PickFolder],
        cmd == TrayCommand::NewBox <==> fx == seq![Effect::MakeBox],
        cmd == TrayCommand::Sweep <==> fx == seq![Effect::PostSweep],
        cmd == TrayCommand::Reload <==> fx == seq![Effect::Reload],
        cmd == TrayCommand::ConfigDir <==> fx == seq![Effect::ExploreConfig],
        cmd == TrayCommand::Exit <==> fx == seq![Effect::Quit],
{
    if fx.len() > 0 {
        let x = fx[0];
        assert(seq![Effect::PickFolder][0] == Effect::PickFolder);
        assert(seq![Effect::MakeBox][0] == Effect::MakeBox);
        assert(seq![Effect::PostSweep][0] == Effect::PostSweep);
        assert(seq![Effect::Reload][0] == Effect::Reload);
        assert(seq![Effect::ExploreConfig][0] == Effect::ExploreConfig);
        assert(seq![Effect::Quit][0] == Effect::Quit);
    }
}

/// Each command of a fence's menu has one id, and no other id stands for it.
pub proof fn lemma_one_id_each(a: u32, b: u32)
    requires
        fence_command_of(a) == fence_command_of(b),
        fence_command_of(a) != FenceCommand::Nothing,
    ensures
        a == b,
{
}

/// Turning downloads off from the box's menu leaves the box and every other fence, forgets what was waited for, and
/// says so to all windows.
pub proof fn lemma_box_turned_off(
    old: Global,
    hwnd: u64,
    present: Seq<String>,
    g: Global,
    fx0: Seq<Effect>,
    fx: Seq<Effect>,
    i: int,
)
    requires
        removed(old, hwnd, present, g, fx0, fx),
        old.fences@.len() <= usize::MAX,
        0 <= i < old.fences@.len(),
        old.fences@[i].hwnd == hwnd,
        forall|j: int| 0 <= j < i ==> (#[trigger] old.fences@[j]).hwnd != hwnd,
        old.config.download_box_id == Some(old.fences@[i].cfg.id),
    ensures
        g.fences == old.fences,
        !g.config.download_enabled,
        g.config.download_box_id == old.config.download_box_id,
        old.config.download_enabled ==> g.download_pending@.len() == 0 && fx.contains(Effect::Save) && fx.contains(
            Effect::DropArrivals,
        ),
        !old.config.download_enabled ==> g == old && fx == fx0,
{
    lemma_first_of_window(old.fences@, hwnd, 0);
    if old.config.download_enabled {
        assert(fx[fx0.len() as int] == Effect::DropArrivals);
        assert(fx[fx.len() - 1] == Effect::Save);
    }
}

/// The menu of a fence ticks one opacity: the nearest one to that of the fence; and one icon size at most.
pub proof fn lemma_menu_ticks(g: Global, hwnd: u64, m: FenceMenu, i: int)
    requires
        menu_of(g, hwnd, m),
        g.fences@.len() <= usize::MAX,
        0 <= i < g.fences@.len(),
        g.fences@[i].valid && g.fences@[i].hwnd == hwnd,
        forall|j: int| 0 <= j < i ==> !((#[trigger] g.fences@[j]).valid && g.fences@[j].hwnd == hwnd),
        !is_special(g.fences@[i].cfg.opacity as int),
    ensures
        exists|k: int| 0 <= k < 4 && (#[trigger] m.opacities@[k]).checked,
        forall|k: int, l: int|
            0 <= k < 4 && 0 <= l < 4 && (#[trigger] m.opacities@[k]).checked && (#[trigger] m.opacities@[l]).checked ==> k == l,
        forall|k: int, j: int|
            0 <= k < 4 && 0 <= j < 4 && (#[trigger] m.opacities@[k]).checked ==> #[trigger] as_near(
                decoded(g.fences@[i].cfg.opacity as int),
                k,
                j,
            ),
        forall|k: int, l: int|
            0 <= k < 4 && 0 <= l < 4 && (#[trigger] m.icons@[k]).checked && (#[trigger] m.icons@[l]).checked ==> k == l,
        g.config.download_box_id == Some(g.fences@[i].cfg.id) <==> exists|k: int|
            0 <= k < m.commands@.len() && (#[trigger] m.commands@[k]).id == CMD_HIDE_BOX,
{
    lemma_index_of(g.fences@, hwnd);
    assert(index_of(g.fences@, hwnd) == Some(i as usize));
    let bits = g.fences@[i].cfg.opacity as int;
    lemma_ticked_is_nearest(bits);
    let k = chosen_preset(bits);
    assert(m.opacities@[k].checked);
    if g.config.download_box_id == Some(g.fences@[i].cfg.id) {
        assert(m.commands@[1].id == CMD_HIDE_BOX);
    }
}

/// A fence with another opacity or another title differs from it in that alone.
pub proof fn lemma_restyled(f: Fence, bits: u32, title: String)
    ensures
        with_opacity(f, bits).cfg.opacity == bits,
        with_title(f, title).cfg.title == title,
        with_opacity(with_opacity(f, bits), f.cfg.opacity) == f,
        with_title(with_title(f, title), f.cfg.title) == f,
{
}

/// Every icon size can be set on displays and fences that occur.
pub proof fn lemma_any_icon_size(g: Global, size: u32)
    requires
        forall|i: int|
            0 <= i < g.fences@.len() ==> BASE_DPI <= (#[trigger] g.fences@[i]).dpi <= MAX_DPI && g.fences@[i].cfg.w <= 0x2000_0000
                && g.fences@[i].cfg.h <= 0x2000_0000,
    ensures
        resizable(g, size),
{
    let px = icon_px_of(size as int) as u32;
    assert forall|i: int| 0 <= i < g.fences@.len() implies drawable(px, (#[trigger] g.fences@[i]).dpi) && snappable(
        g.fences@[i],
        px,
    ) by {
        lemma_drawable(px, g.fences@[i].dpi);
        lemma_snappable(g.fences@[i], px);
    }
}

/// Where an opacity is no finite number, the first entry is ticked.
pub proof fn lemma_ticked_without_number(bits: int)
    requires
        is_special(bits),
    ensures
        chosen_preset(bits) == 0,
{
}

proof fn lemma_gap_positive(a: (int, int), b: (int, int))
    requires
        a.0 > 0,
        b.0 > 0,
        ({
            let lo = if a.1 < b.1 { a.1 } else { b.1 };
            a.0 * scale(a.1 - lo) != b.0 * scale(b.1 - lo)
        }),
    ensures
        float_abs(float_add(SINGLE as nat, a, float_neg(b))).0 > 0,
        !float_le(float_abs(float_add(SINGLE as nat, a, float_neg(b))), (0, 0)),
{
    reveal(float_add);
    let p = SINGLE as nat;
    let lo = if a.1 < b.1 { a.1 } else { b.1 };
    let x = b.0;
    let y = scale(b.1 - lo);
    assert((-x) * y == -(x * y)) by (nonlinear_arith);
    let n = a.0 * scale(a.1 - lo) + (-x) * y;
    assert(n != 0);
    lemma_round_positive(p, if n < 0 { -n } else { n }, 1);
    let g = float_abs(float_add(p, a, float_neg(b)));
    lemma_scale_pos(g.1);
    assert(g.0 * scale(g.1) > 0) by (nonlinear_arith)
        requires
            g.0 > 0,
            scale(g.1) > 0,
    ;
    assert(0 * scale(0 - g.1) == 0) by (nonlinear_arith);
}

proof fn lemma_small_scale(m: int, e: int)
    requires
        0 <= e <= 2,
    ensures
        m * scale(e) == if e == 0 {
            m
        } else if e == 1 {
            2 * m
        } else {
            4 * m
        },
{
    lemma2_to64();
    let s = scale(e);
    assert(s == 1 ==> m * s == m) by (nonlinear_arith);
    assert(s == 2 ==> m * s == 2 * m) by (nonlinear_arith);
    assert(s == 4 ==> m * s == 4 * m) by (nonlinear_arith);
}

/// A fence that has got the opacity of an entry has that entry ticked.
pub proof fn lemma_ticked_is_set(k: int)
    requires
        0 <= k < 4,
    ensures
        chosen_preset(preset_bits(k) as int) == k,
{
    lemma2_to64();
    let p = SINGLE as nat;
    lemma_decoded(preset_bits(0) as int);
    lemma_decoded(preset_bits(1) as int);
    lemma_decoded(preset_bits(2) as int);
    lemma_decoded(preset_bits(3) as int);
    assert(decoded(preset_bits(0) as int) == (0x80_0000int, -23int));
    assert(decoded(preset_bits(1) as int) == (0xb3_3333int, -24int));
    assert(decoded(preset_bits(2) as int) == (0xe6_6666int, -25int));
    assert(decoded(preset_bits(3) as int) == (0x99_999aint, -25int));
    let v = decoded(preset_bits(k) as int);
    lemma_ticked_is_nearest(preset_bits(k) as int);
    let m = chosen_preset(preset_bits(k) as int);
    assert(as_near(v, m, k));
    lemma_sub_self(p, v);
    assert(opacity_gap(v, preset_bits(k) as int) == (0int, 0int));
    if m != k {
        let w = decoded(preset_bits(m) as int);
        let lo = if v.1 < w.1 { v.1 } else { w.1 };
        lemma_small_scale(v.0, v.1 - lo);
        lemma_small_scale(w.0, w.1 - lo);
        lemma_gap_positive(v, w);
    }
}

} // verus!
