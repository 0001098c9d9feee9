//! What holds of showing, hiding, layering and watching the fences, however many there are.
use crate::choice::{count, lemma_picked_members, lemma_picked_step, picked};
use crate::config::Config;
use crate::effect::{Effect, ShowMode};
use crate::fence::Fence;
use crate::fence_laws::lemma_order;
use crate::geometry::Rect;
use crate::state::Global;
use crate::visibility::{
    astray, host_of, layered, may_show, reservable, reserved, visibility_effects, watch_effects, watched, WindowState,
};
use vstd::prelude::*;

verus! {

/// Whether a fence is the download box while it is not to be seen.
pub open spec fn is_box_away(c: Config, f: Fence) -> bool {
    c.download_box_id is Some && c.download_box_id->0 == f.cfg.id && (!c.download_enabled || !c.download_box_visible)
}

/// Each valid fence, the download box too, gets exactly one command, in the order of the fences, and no
/// other fence gets one. While all fences are hidden each command hides its window; else it shows it,
/// but for a download box that is away.
pub proof fn lemma_each_valid_once(fences: Seq<Fence>, c: Config, zen: bool, valid: Seq<bool>, each: Seq<Effect>)
    requires
        valid.len() == fences.len(),
        each.len() == fences.len(),
        forall|i: int| 0 <= i < fences.len() ==> #[trigger] valid[i] == fences[i].valid,
        forall|i: int|
            0 <= i < fences.len() && (zen || is_box_away(c, fences[i])) ==> #[trigger] each[i] == Effect::Show(
                fences[i].hwnd,
                ShowMode::Hide,
            ),
        forall|i: int|
            0 <= i < fences.len() && !zen && !is_box_away(c, fences[i]) ==> #[trigger] each[i] == Effect::Show(
                fences[i].hwnd,
                ShowMode::Show,
            ),
    ensures
        ({
            let n = fences.len() as int;
            let fx = visibility_effects(fences, c, zen);
            &&& fx.len() == count(valid, n)
            &&& forall|i: int| 0 <= i < n && (#[trigger] fences[i]).valid ==> fx[count(valid, i)] == each[i]
        }),
{
    let n = fences.len() as int;
    lemma_valid_picked(fences, c, zen, valid, each, n);
    assert(fences.take(n) =~= fences);
    assert forall|i: int| 0 <= i < n && (#[trigger] fences[i]).valid implies visibility_effects(fences, c, zen)[count(
        valid,
        i,
    )] == each[i] by {
        assert(valid[i]);
    }
}

proof fn lemma_valid_picked(fences: Seq<Fence>, c: Config, zen: bool, valid: Seq<bool>, each: Seq<Effect>, k: int)
    requires
        0 <= k <= fences.len(),
        valid.len() == fences.len(),
        each.len() == fences.len(),
        forall|i: int| 0 <= i < fences.len() ==> #[trigger] valid[i] == fences[i].valid,
        forall|i: int|
            0 <= i < fences.len() && (zen || is_box_away(c, fences[i])) ==> #[trigger] each[i] == Effect::Show(
                fences[i].hwnd,
                ShowMode::Hide,
            ),
        forall|i: int|
            0 <= i < fences.len() && !zen && !is_box_away(c, fences[i]) ==> #[trigger] each[i] == Effect::Show(
                fences[i].hwnd,
                ShowMode::Show,
            ),
    ensures
        picked(visibility_effects(fences.take(k), c, zen), each, valid, k),
    decreases k,
{
    if k > 0 {
        lemma_valid_picked(fences, c, zen, valid, each, k - 1);
        assert(fences.take(k).drop_last() =~= fences.take(k - 1));
        assert(valid[k - 1] == fences[k - 1].valid);
        assert(each[k - 1] == each[k - 1]);
        lemma_picked_step(visibility_effects(fences.take(k - 1), c, zen), each, valid, k);
    }
}

/// While all fences are hidden every valid fence is told to hide, and a fence is told to be shown only
/// where it is valid, fences are shown, and it is no download box that is away.
pub proof fn lemma_told(fences: Seq<Fence>, c: Config, zen: bool)
    ensures
        forall|i: int|
            0 <= i < fences.len() && (#[trigger] fences[i]).valid && (zen || is_box_away(c, fences[i]))
                ==> visibility_effects(fences, c, zen).contains(Effect::Show(fences[i].hwnd, ShowMode::Hide)),
        forall|i: int|
            0 <= i < fences.len() && (#[trigger] fences[i]).valid && !zen && !is_box_away(c, fences[i])
                ==> visibility_effects(fences, c, zen).contains(Effect::Show(fences[i].hwnd, ShowMode::Show)),
{
    let n = fences.len();
    let valid = Seq::new(n, |i: int| fences[i].valid);
    let each = Seq::new(
        n,
        |i: int|
            Effect::Show(
                fences[i].hwnd,
                if zen || is_box_away(c, fences[i]) {
                    ShowMode::Hide
                } else {
                    ShowMode::Show
                },
            ),
    );
    lemma_valid_picked(fences, c, zen, valid, each, n as int);
    assert(fences.take(n as int) =~= fences);
    lemma_picked_members(visibility_effects(fences, c, zen), each, valid, n as int);
    assert forall|i: int|
        0 <= i < fences.len() && (#[trigger] fences[i]).valid && (zen || is_box_away(c, fences[i])) implies visibility_effects(
        fences,
        c,
        zen,
    ).contains(Effect::Show(fences[i].hwnd, ShowMode::Hide)) by {
        assert(valid[i]);
        assert(each[i] == Effect::Show(fences[i].hwnd, ShowMode::Hide));
    }
    assert forall|i: int|
        0 <= i < fences.len() && (#[trigger] fences[i]).valid && !zen && !is_box_away(c, fences[i]) implies visibility_effects(
        fences,
        c,
        zen,
    ).contains(Effect::Show(fences[i].hwnd, ShowMode::Show)) by {
        assert(valid[i]);
        assert(each[i] == Effect::Show(fences[i].hwnd, ShowMode::Show));
    }
}

/// The desktop's icons are kept out of the rectangle of each valid fence that is not a download box that
/// is away, also while all fences are hidden, and out of no other.
pub proof fn lemma_each_reserved(fences: Seq<Fence>, c: Config, kept: Seq<bool>, each: Seq<Rect>, k: int)
    requires
        0 <= k <= fences.len(),
        kept.len() == fences.len(),
        each.len() == fences.len(),
        forall|i: int| 0 <= i < fences.len() ==> #[trigger] kept[i] == (fences[i].valid && !is_box_away(c, fences[i])),
        forall|i: int|
            0 <= i < fences.len() && kept[i] ==> {
                &&& (#[trigger] each[i]).left == fences[i].cfg.x
                &&& each[i].top == fences[i].cfg.y
                &&& each[i].right - each[i].left == fences[i].cfg.w
                &&& each[i].bottom - each[i].top == fences[i].cfg.h
            },
    ensures
        picked(reserved(fences.take(k), c), each, kept, k),
    decreases k,
{
    if k > 0 {
        lemma_each_reserved(fences, c, kept, each, k - 1);
        assert(fences.take(k).drop_last() =~= fences.take(k - 1));
        assert(kept[k - 1] == (fences[k - 1].valid && !is_box_away(c, fences[k - 1])));
        assert(each[k - 1] == each[k - 1]);
        lemma_picked_step(reserved(fences.take(k - 1), c), each, kept, k);
    }
}

/// Every valid fence that is not a download box that is away is in the desktop's layer, in the order of
/// the fences, and no other window is.
pub proof fn lemma_each_layered(fences: Seq<Fence>, c: Config, kept: Seq<bool>, each: Seq<u64>, k: int)
    requires
        0 <= k <= fences.len(),
        kept.len() == fences.len(),
        each.len() == fences.len(),
        forall|i: int| 0 <= i < fences.len() ==> #[trigger] kept[i] == (fences[i].valid && !is_box_away(c, fences[i])),
        forall|i: int| 0 <= i < fences.len() ==> #[trigger] each[i] == fences[i].hwnd,
    ensures
        picked(layered(fences.take(k), c), each, kept, k),
    decreases k,
{
    if k > 0 {
        lemma_each_layered(fences, c, kept, each, k - 1);
        assert(fences.take(k).drop_last() =~= fences.take(k - 1));
        assert(kept[k - 1] == (fences[k - 1].valid && !is_box_away(c, fences[k - 1])));
        assert(each[k - 1] == fences[k - 1].hwnd);
        lemma_picked_step(layered(fences.take(k - 1), c), each, kept, k);
    }
}

/// Where a fence comes to stand in a list of the chosen ones is the number of chosen ones before it, so
/// the laws above fix the lists as a whole: taken over all fences, they speak of `fences` itself.
pub proof fn lemma_whole(fences: Seq<Fence>, c: Config)
    ensures
        reserved(fences.take(fences.len() as int), c) == reserved(fences, c),
        layered(fences.take(fences.len() as int), c) == layered(fences, c),
{
    assert(fences.take(fences.len() as int) =~= fences);
}

/// Whether a window that should be seen is not.
pub open spec fn is_lost_from_view(g: Global, i: int, w: WindowState) -> bool {
    g.fences@[i].valid && !g.zen && !is_box_away(g.config, g.fences@[i]) && (w.iconic || !w.visible)
}

/// A check of the windows restores and draws every fence that should be seen and is not; it gives every
/// fence that lives on in a new window its drops and draws it, and hides it again while all fences are
/// hidden. It asks for nothing else.
pub proof fn lemma_watch_complete(g: Global, windows: Seq<WindowState>, k: int)
    requires
        0 <= k <= windows.len(),
        windows.len() == g.fences@.len(),
    ensures
        forall|i: int|
            0 <= i < k && is_lost_from_view(g, i, #[trigger] windows[i]) ==> {
                let fx = watch_effects(g, windows, k);
                fx.contains(Effect::Show(g.fences@[i].hwnd, ShowMode::Restore)) && fx.contains(
                    Effect::Render(g.fences@[i].hwnd),
                )
            },
        forall|i: int|
            0 <= i < k && !g.fences@[i].valid && (#[trigger] windows[i]).remade != 0 ==> {
                let fx = watch_effects(g, windows, k);
                let w = windows[i].remade;
                fx.contains(Effect::RegisterDrop(w)) && fx.contains(Effect::StopAnimation(w)) && fx.contains(
                    Effect::Render(w),
                ) && (g.zen ==> fx.contains(Effect::Show(w, ShowMode::Hide)))
            },
        forall|j: int|
            0 <= j < watch_effects(g, windows, k).len() ==> asked_of_some(
                #[trigger] watch_effects(g, windows, k)[j],
                g,
                windows,
                k,
            ),
    decreases k,
{
    if k > 0 {
        lemma_watch_complete(g, windows, k - 1);
        let head = watch_effects(g, windows, k - 1);
        let f = g.fences@[k - 1];
        let w = windows[k - 1];
        let all = watch_effects(g, windows, k);
        let tail = if astray(g, k - 1, w) {
            seq![Effect::Show(f.hwnd, ShowMode::Restore), Effect::Render(f.hwnd)]
        } else if !f.valid && w.remade != 0 {
            seq![Effect::RegisterDrop(w.remade)] + (if g.zen {
                seq![Effect::Show(w.remade, ShowMode::Hide)]
            } else {
                Seq::empty()
            }) + seq![Effect::StopAnimation(w.remade), Effect::Render(w.remade)]
        } else {
            Seq::empty()
        };
        assert(all == head + tail);
        assert(may_show(g.config, f.cfg.id) == !is_box_away(g.config, f));
        assert forall|x: Effect| head.contains(x) || tail.contains(x) implies #[trigger] all.contains(x) by {
            if head.contains(x) {
                let j = head.index_of(x);
                assert(all[j] == x);
            } else {
                let j = tail.index_of(x);
                assert(all[head.len() + j] == x);
            }
        }
        if astray(g, k - 1, w) {
            assert(tail[0] == Effect::Show(f.hwnd, ShowMode::Restore));
            assert(tail[1] == Effect::Render(f.hwnd));
            assert(tail.contains(tail[0]) && tail.contains(tail[1]));
        } else if !f.valid && w.remade != 0 {
            let l = tail.len() as int;
            assert(tail[0] == Effect::RegisterDrop(w.remade));
            assert(tail[l - 2] == Effect::StopAnimation(w.remade));
            assert(tail[l - 1] == Effect::Render(w.remade));
            assert(tail.contains(tail[0]) && tail.contains(tail[l - 2]) && tail.contains(tail[l - 1]));
            if g.zen {
                assert(tail[1] == Effect::Show(w.remade, ShowMode::Hide));
                assert(tail.contains(tail[1]));
            }
        }
        assert forall|i: int| 0 <= i < k && is_lost_from_view(g, i, #[trigger] windows[i]) implies all.contains(
            Effect::Show(g.fences@[i].hwnd, ShowMode::Restore),
        ) && all.contains(Effect::Render(g.fences@[i].hwnd)) by {}
        assert forall|i: int| 0 <= i < k && !g.fences@[i].valid && (#[trigger] windows[i]).remade != 0 implies {
            let w = windows[i].remade;
            all.contains(Effect::RegisterDrop(w)) && all.contains(Effect::StopAnimation(w)) && all.contains(
                Effect::Render(w),
            ) && (g.zen ==> all.contains(Effect::Show(w, ShowMode::Hide)))
        } by {}
        assert forall|j: int| 0 <= j < all.len() implies asked_of_some(#[trigger] all[j], g, windows, k) by {
            if j < head.len() {
                assert(asked_of_some(head[j], g, windows, k - 1));
                let i = choose|i: int| 0 <= i < k - 1 && #[trigger] asked_of(head[j], g, i, windows[i]);
                assert(asked_of(all[j], g, i, windows[i]));
            } else {
                assert(all[j] == tail[j - head.len()]);
                assert(asked_of(all[j], g, k - 1, windows[k - 1]));
            }
        }
    }
}

/// Whether a check of the windows may ask for `x` on account of the fence `i`.
pub open spec fn asked_of(x: Effect, g: Global, i: int, w: WindowState) -> bool {
    if is_lost_from_view(g, i, w) {
        x == Effect::Show(g.fences@[i].hwnd, ShowMode::Restore) || x == Effect::Render(g.fences@[i].hwnd)
    } else {
        !g.fences@[i].valid && w.remade != 0 && (x == Effect::RegisterDrop(w.remade) || x == Effect::StopAnimation(
            w.remade,
        ) || x == Effect::Render(w.remade) || (g.zen && x == Effect::Show(w.remade, ShowMode::Hide)))
    }
}

/// Whether a check of the first `k` windows may ask for `x`.
pub open spec fn asked_of_some(x: Effect, g: Global, windows: Seq<WindowState>, k: int) -> bool {
    exists|i: int| 0 <= i < k && #[trigger] asked_of(x, g, i, windows[i])
}

/// A desktop window that lives is never given up for another one, and one that does not is never kept.
pub proof fn lemma_host(known: Option<u64>, alive: bool, found: Option<u64>)
    ensures
        alive && known is Some ==> host_of(known, alive, found) == known,
        !alive || known is None ==> host_of(known, alive, found) == found,
{
}

/// A check of the windows changes only fences that have lost their window and got another one, and these live on
/// there, with what their folder holds.
pub proof fn lemma_watched(f: Fence, w: WindowState, icon_px: u32, f2: Fence)
    requires
        watched(f, w, icon_px, f2),
    ensures
        f.valid || w.remade == 0 ==> f2 == f,
        !f.valid && w.remade != 0 ==> {
            &&& f2.valid && f2.hwnd == w.remade
            &&& f2.cfg == f.cfg
            &&& !f2.moving && f2.resizing is None && !f2.animating
            &&& w.listing is Some ==> f2.entries@.to_multiset() == w.listing->0@.to_multiset()
            &&& w.listing is None ==> f2.entries@.len() == 0
        },
{
    if w.listing is Some {
        lemma_order(w.listing->0@);
    }
}

/// Icons can be kept out of the fences wherever the far edges of all of them are within the range of a position.
pub proof fn lemma_reservable(fences: Seq<Fence>, c: Config)
    requires
        forall|i: int|
            0 <= i < fences.len() ==> i32::MIN <= (#[trigger] fences[i]).cfg.x + fences[i].cfg.w <= i32::MAX && i32::MIN
                <= fences[i].cfg.y + fences[i].cfg.h <= i32::MAX,
    ensures
        reservable(fences, c),
{
}

} // verus!
