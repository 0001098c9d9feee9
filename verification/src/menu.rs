//! The menus: what they offer, and what their commands do.
use crate::config::{Config, FenceCfg};
use crate::effect::{added, extends, Effect};
use crate::fence::{snapshots, Fence};
use crate::geometry::{drawable, icon_px_of, max_of, set_icon_px, Rect};
use crate::layout::{all_settled, can_snap, layout_effects, settle_all, snappable};
use crate::lifecycle::{box_name, box_name_of, delete_fence};
use crate::opacity::{chosen_preset, preset, preset_bits, preset_command, preset_id, selected_preset};
use crate::paths::{contains, holds, unique};
use crate::state::{can_draw, fence_idx, index_of, lemma_fence_replaced, sync_config, Global, Pending};
use crate::text::{decimal, decimal_text, trimmed, trimmed_text};
use crate::visibility::{
    is_download_box, set_download_box_visible, set_download_enabled, toggle_zen, visibility_effects,
};
use vstd::prelude::*;

verus! {

pub const CMD_DELETE: u32 = 1001;

pub const CMD_RENAME: u32 = 1005;

pub const CMD_HIDE_BOX: u32 = 1010;

pub const CMD_EXPLORE: u32 = 1011;

/// A command in a menu.
#[derive(Debug)]
pub struct MenuItem {
    pub id: u32,
    pub label: String,
    pub checked: bool,
}

impl MenuItem {
    pub open spec fn is(self, id: u32, label: Seq<char>, checked: bool) -> bool {
        self.id == id && self.label@ == label && self.checked == checked
    }
}

/// The menu of a fence: its commands, then a line, then the menus of opacities and icon sizes.
#[derive(Debug)]
pub struct FenceMenu {
    pub commands: Vec<MenuItem>,
    pub opacity_label: String,
    pub opacities: Vec<MenuItem>,
    pub icon_label: String,
    pub icons: Vec<MenuItem>,
}

/// The label of an opacity.
pub open spec fn preset_label(k: int) -> Seq<char> {
    if k == 0 {
        "100%"@
    } else if k == 1 {
        "70%"@
    } else if k == 2 {
        "45%"@
    } else {
        "30%"@
    }
}

/// The icon sizes of the menu.
pub open spec fn icon_size(k: int) -> u32 {
    if k == 0 {
        24
    } else if k == 1 {
        32
    } else if k == 2 {
        48
    } else {
        64
    }
}

/// Whether the fence of a window is the download box.
pub open spec fn is_box_window(g: Global, hwnd: u64) -> bool {
    match index_of(g.fences@, hwnd) {
        Some(i) => g.config.download_box_id == Some(g.fences@[i as int].cfg.id),
        None => false,
    }
}

/// The opacity of the fence of a window, and 0 where there is none.
pub open spec fn opacity_at(g: Global, hwnd: u64) -> u32 {
    match index_of(g.fences@, hwnd) {
        Some(i) => g.fences@[i as int].cfg.opacity,
        None => 0,
    }
}

/// Whether a menu is the one of the fence of a window. The download box cannot be deleted: its first
/// command turns the collection of downloads off, and a second one hides the box.
pub open spec fn menu_of(g: Global, hwnd: u64, m: FenceMenu) -> bool {
    let c = m.commands@;
    &&& if is_box_window(g, hwnd) {
        &&& c.len() == 4
        &&& c[0].is(CMD_DELETE, "关闭下载接管"@, false)
        &&& c[1].is(CMD_HIDE_BOX, "隐藏下载收纳箱"@, false)
        &&& c[2].is(CMD_EXPLORE, "打开收纳箱"@, false)
        &&& c[3].is(CMD_RENAME, "重命名..."@, false)
    } else {
        &&& c.len() == 3
        &&& c[0].is(CMD_DELETE, "删除此栅栏"@, false)
        &&& c[1].is(CMD_EXPLORE, "打开收纳箱"@, false)
        &&& c[2].is(CMD_RENAME, "重命名..."@, false)
    }
    &&& m.opacity_label@ == "透明度"@
    &&& m.opacities@.len() == 4
    &&& forall|k: int|
        0 <= k < 4 ==> (#[trigger] m.opacities@[k]).is(
            preset_id(k),
            preset_label(k),
            chosen_preset(opacity_at(g, hwnd) as int) == k,
        )
    &&& m.icon_label@ == "图标大小"@
    &&& m.icons@.len() == 4
    &&& forall|k: int|
        0 <= k < 4 ==> (#[trigger] m.icons@[k]).is(
            (1006 + k) as u32,
            decimal_text(icon_size(k) as nat) + " px"@,
            max_of(g.config.icon as int, 1) == icon_size(k),
        )
}

fn item(id: u32, label: &str, checked: bool) -> (r: MenuItem)
    ensures
        r.is(id, label@, checked),
{
    MenuItem { id, label: label.to_owned(), checked }
}

fn opacity_label(k: u32) -> (r: &'static str)
    ensures
        r@ == preset_label(k as int),
{
    if k == 0 {
        "100%"
    } else if k == 1 {
        "70%"
    } else if k == 2 {
        "45%"
    } else {
        "30%"
    }
}

fn size_of_icon(k: u32) -> (r: u32)
    ensures
        r == icon_size(k as int),
{
    if k == 0 {
        24
    } else if k == 1 {
        32
    } else if k == 2 {
        48
    } else {
        64
    }
}

fn opacity_items(bits: u32) -> (r: Vec<MenuItem>)
    ensures
        r@.len() == 4,
        forall|k: int|
            0 <= k < 4 ==> (#[trigger] r@[k]).is(preset_id(k), preset_label(k), chosen_preset(bits as int) == k),
{
    let chosen: u32 = selected_preset(bits);
    let mut out: Vec<MenuItem> = Vec::new();
    let mut k: u32 = 0;
    while k < 4
        invariant
            k <= 4,
            out@.len() == k,
            chosen == chosen_preset(bits as int),
            forall|j: int|
                0 <= j < k ==> (#[trigger] out@[j]).is(preset_id(j), preset_label(j), chosen_preset(bits as int) == j),
        decreases 4 - k,
    {
        out.push(item(preset_command(k), opacity_label(k), chosen == k));
        k = k + 1;
    }
    out
}

fn icon_items(icon: u32) -> (r: Vec<MenuItem>)
    ensures
        r@.len() == 4,
        forall|k: int|
            0 <= k < 4 ==> (#[trigger] r@[k]).is(
                (1006 + k) as u32,
                decimal_text(icon_size(k) as nat) + " px"@,
                max_of(icon as int, 1) == icon_size(k),
            ),
{
    let current: u32 = if icon >= 1 { icon } else { 1 };
    let mut out: Vec<MenuItem> = Vec::new();
    let mut k: u32 = 0;
    while k < 4
        invariant
            k <= 4,
            out@.len() == k,
            current == max_of(icon as int, 1),
            forall|j: int|
                0 <= j < k ==> (#[trigger] out@[j]).is(
                    (1006 + j) as u32,
                    decimal_text(icon_size(j) as nat) + " px"@,
                    max_of(icon as int, 1) == icon_size(j),
                ),
        decreases 4 - k,
    {
        let size: u32 = size_of_icon(k);
        let mut label = decimal(size);
        label.append(" px");
        out.push(MenuItem { id: 1006 + k, label, checked: current == size });
        k = k + 1;
    }
    out
}

/// The menu of the fence of a window.
pub fn fence_menu(g: &Global, hwnd: u64) -> (r: FenceMenu)
    ensures
        menu_of(*g, hwnd, r),
{
    let idx = fence_idx(g, hwnd);
    let is_download: bool = match idx {
        Some(i) => is_download_box(g, g.fences[i].cfg.id),
        None => false,
    };
    let mut commands: Vec<MenuItem> = Vec::new();
    if is_download {
        commands.push(item(CMD_DELETE, "关闭下载接管", false));
        commands.push(item(CMD_HIDE_BOX, "隐藏下载收纳箱", false));
    } else {
        commands.push(item(CMD_DELETE, "删除此栅栏", false));
    }
    commands.push(item(CMD_EXPLORE, "打开收纳箱", false));
    commands.push(item(CMD_RENAME, "重命名...", false));
    let opacity: u32 = match idx {
        Some(i) => g.fences[i].cfg.opacity,
        None => 0,
    };
    FenceMenu {
        commands,
        opacity_label: "透明度".to_owned(),
        opacities: opacity_items(opacity),
        icon_label: "图标大小".to_owned(),
        icons: icon_items(g.config.icon),
    }
}

/// The first fence of a window, valid or not.
pub open spec fn any_index_of(fences: Seq<Fence>, hwnd: u64, k: int) -> Option<usize>
    decreases fences.len() - k,
{
    if k < 0 || k >= fences.len() {
        None
    } else if fences[k].hwnd == hwnd {
        Some(k as usize)
    } else {
        any_index_of(fences, hwnd, k + 1)
    }
}

fn any_fence_idx(g: &Global, hwnd: u64) -> (r: Option<usize>)
    ensures
        r == any_index_of(g.fences@, hwnd, 0),
        r is Some ==> r->0 < g.fences@.len(),
{
    let n: usize = g.fences.len();
    let mut i: usize = 0;
    while i < n
        invariant
            i <= n,
            n == g.fences@.len(),
            any_index_of(g.fences@, hwnd, 0) == any_index_of(g.fences@, hwnd, i as int),
        decreases n - i,
    {
        if g.fences[i].hwnd == hwnd {
            return Some(i);
        }
        i = i + 1;
    }
    None
}

/// Whether `g` is `old` after the first command of a fence's menu: the fence is deleted, and for the
/// download box the collection of downloads ends.
pub open spec fn removed(old: Global, hwnd: u64, present: Seq<String>, g: Global, fx0: Seq<Effect>, fx: Seq<Effect>) -> bool {
    match any_index_of(old.fences@, hwnd, 0) {
        Some(i) => if old.config.download_box_id == Some(old.fences@[i as int].cfg.id) {
            if !old.config.download_enabled {
                g == old && fx == fx0
            } else {
                &&& g == (Global {
                    config: Config { download_enabled: false, ..old.config },
                    desktop_seen: g.desktop_seen,
                    download_pending: g.download_pending,
                    ..old
                })
                &&& g.desktop_seen@ == unique(present)
                &&& g.download_pending@ == Seq::<Pending>::empty()
                &&& fx == fx0 + seq![Effect::DropArrivals] + visibility_effects(old.fences@, g.config, old.zen)
                    + seq![Effect::Reserve, Effect::Save]
            }
        } else {
            &&& g.only_fences_changed(old)
            &&& g.fences@ == old.fences@.remove(i as int)
            &&& g.config.fences@ == snapshots(g.fences@)
            &&& fx == fx0 + seq![Effect::Destroy(old.fences@[i as int].hwnd), Effect::Save]
        },
        None => g == old && fx == fx0,
    }
}

/// The first command of a fence's menu. `present` are the downloads that are there.
pub fn on_remove(g: &mut Global, hwnd: u64, present: &Vec<String>, fx: &mut Vec<Effect>)
    ensures
        removed(*old(g), hwnd, present@, *final(g), old(fx)@, final(fx)@),
        old(g).wf() ==> final(g).wf(),
{
    if let Some(i) = any_fence_idx(g, hwnd) {
        if is_download_box(g, g.fences[i].cfg.id) {
            set_download_enabled(g, false, present, fx);
        } else {
            delete_fence(g, i, fx);
        }
    }
}

/// The download box is never deleted from its menu.
pub proof fn lemma_box_stays(old: Global, hwnd: u64, present: Seq<String>, g: Global, fx0: Seq<Effect>, fx: Seq<Effect>)
    requires
        removed(old, hwnd, present, g, fx0, fx),
        any_index_of(old.fences@, hwnd, 0) is Some,
        old.config.download_box_id == Some(old.fences@[any_index_of(old.fences@, hwnd, 0)->0 as int].cfg.id),
    ensures
        g.fences == old.fences,
        !g.config.download_enabled,
{
}

/// A fence with another opacity.
pub open spec fn with_opacity(f: Fence, bits: u32) -> Fence {
    Fence { cfg: FenceCfg { opacity: bits, ..f.cfg }, ..f }
}

/// A fence with another title.
pub open spec fn with_title(f: Fence, title: String) -> Fence {
    Fence { cfg: FenceCfg { title, ..f.cfg }, ..f }
}

/// Gives the fence of a window an opacity of the menu.
pub fn on_opacity(g: &mut Global, hwnd: u64, k: u32, fx: &mut Vec<Effect>)
    ensures
        match index_of(old(g).fences@, hwnd) {
            Some(i) => {
                &&& final(g).only_fences_changed(*old(g))
                &&& final(g).fences@ == old(g).fences@.update(
                    i as int,
                    with_opacity(old(g).fences@[i as int], preset_bits(k as int)),
                )
                &&& final(g).config.fences@ == snapshots(final(g).fences@)
                &&& final(fx)@ == old(fx)@ + seq![Effect::Render(hwnd), Effect::Save]
            },
            None => *final(g) == *old(g) && final(fx)@ == old(fx)@,
        },
        old(g).wf() ==> final(g).wf(),
{
    let ghost before = *g;
    let ghost fx0 = fx@;
    if let Some(i) = fence_idx(g, hwnd) {
        g.fences[i].cfg.opacity = preset(k);
        fx.push(Effect::Render(hwnd));
        sync_config(g, fx);
        proof {
            assert(g.fences@ =~= before.fences@.update(
                i as int,
                with_opacity(before.fences@[i as int], preset_bits(k as int)),
            ));
            assert(fx@ =~= fx0 + seq![Effect::Render(hwnd), Effect::Save]);
            if before.wf() {
                assert(before.fences@[i as int].wf());
                lemma_fence_replaced(before, *g, i as int);
            }
        }
    }
}

/// The title that the renaming of a fence starts with.
pub fn rename_start(g: &Global, hwnd: u64) -> (r: String)
    ensures
        r@ == match index_of(g.fences@, hwnd) {
            Some(i) => g.fences@[i as int].cfg.title@,
            None => Seq::empty(),
        },
{
    match fence_idx(g, hwnd) {
        Some(i) => g.fences[i].cfg.title.clone(),
        None => String::new(),
    }
}

/// Renames the fence of a window to what was entered, without white space at its ends; nothing
/// happens where nothing is left of it or the entry was cancelled.
pub fn rename_fence(g: &mut Global, hwnd: u64, entered: Option<String>, fx: &mut Vec<Effect>)
    ensures
        match (entered, index_of(old(g).fences@, hwnd)) {
            (Some(t), Some(i)) => if trimmed_text(t@).len() == 0 {
                *final(g) == *old(g) && final(fx)@ == old(fx)@
            } else {
                &&& final(g).only_fences_changed(*old(g))
                &&& final(g).fences@ == old(g).fences@.update(i as int, final(g).fences@[i as int])
                &&& final(g).fences@[i as int].cfg.title@ == trimmed_text(t@)
                &&& final(g).fences@[i as int] == with_title(
                    old(g).fences@[i as int],
                    final(g).fences@[i as int].cfg.title,
                )
                &&& final(g).config.fences@ == snapshots(final(g).fences@)
                &&& final(fx)@ == old(fx)@ + seq![Effect::Render(hwnd), Effect::Save]
            },
            _ => *final(g) == *old(g) && final(fx)@ == old(fx)@,
        },
        old(g).wf() ==> final(g).wf(),
{
    let ghost before = *g;
    let ghost fx0 = fx@;
    if let Some(t) = entered {
        let name = trimmed(t.as_str());
        if name.as_str().unicode_len() > 0 {
            if let Some(i) = fence_idx(g, hwnd) {
                g.fences[i].cfg.title = name;
                fx.push(Effect::Render(hwnd));
                sync_config(g, fx);
                proof {
                    assert(g.fences@ =~= before.fences@.update(i as int, g.fences@[i as int]));
                    assert(fx@ =~= fx0 + seq![Effect::Render(hwnd), Effect::Save]);
                    if before.wf() {
                        assert(before.fences@[i as int].wf());
                        lemma_fence_replaced(before, *g, i as int);
                    }
                }
            }
        }
    }
}

/// The folder of the fence of a window, else the vault.
pub fn shown_folder(g: &Global, hwnd: u64, vault: String) -> (r: String)
    ensures
        r@ == match index_of(g.fences@, hwnd) {
            Some(i) => match g.fences@[i as int].cfg.folder {
                Some(d) => d@,
                None => vault@,
            },
            None => vault@,
        },
{
    match fence_idx(g, hwnd) {
        Some(i) => match &g.fences[i].cfg.folder {
            Some(d) => d.clone(),
            None => vault,
        },
        None => vault,
    }
}

/// Whether all fences can be laid out with an icon size, and their sizes brought to its grid.
pub open spec fn resizable(g: Global, size: u32) -> bool {
    forall|i: int|
        0 <= i < g.fences@.len() ==> drawable(icon_px_of(size as int) as u32, (#[trigger] g.fences@[i]).dpi)
            && snappable(g.fences@[i], icon_px_of(size as int) as u32)
}

/// Whether all fences can be laid out with an icon size, and their sizes brought to its grid.
pub fn can_resize_icons(g: &Global, size: u32) -> (r: bool)
    ensures
        r == resizable(*g, size),
{
    let icon_px: u32 = set_icon_px(size);
    let n: usize = g.fences.len();
    let mut i: usize = 0;
    while i < n
        invariant
            i <= n,
            n == g.fences@.len(),
            icon_px == icon_px_of(size as int),
            forall|j: int|
                0 <= j < i ==> drawable(icon_px, (#[trigger] g.fences@[j]).dpi) && snappable(g.fences@[j], icon_px),
        decreases n - i,
    {
        let f = &g.fences[i];
        if !can_draw(icon_px, f.dpi) || !can_snap(icon_px, f.dpi, f.cfg.w, f.cfg.h) {
            assert(!(drawable(icon_px, g.fences@[i as int].dpi) && snappable(g.fences@[i as int], icon_px)));
            return false;
        }
        i = i + 1;
    }
    true
}

/// Sets the icon size of all fences, which settle on the new grid one after the other.
pub fn on_icon_size(g: &mut Global, size: u32, areas: &Vec<Rect>, fx: &mut Vec<Effect>)
    requires
        old(g).wf(),
        areas@.len() == old(g).fences@.len(),
        resizable(*old(g), size),
    ensures
        final(g).wf(),
        all_settled(
            Global {
                icon_px: icon_px_of(size as int) as u32,
                config: Config { icon: size, ..old(g).config },
                ..*old(g)
            },
            areas@,
            *final(g),
        ),
        final(fx)@ == old(fx)@ + layout_effects(
            old(g).fences@,
            icon_px_of(size as int) as u32,
            areas@,
            areas@.len() as int,
        ),
{
    let ghost before = *g;
    g.icon_px = set_icon_px(size);
    g.config.icon = size;
    proof {
        assert forall|i: int| 0 <= i < g.fences@.len() implies (#[trigger] g.fences@[i]).wf() && drawable(
            g.icon_px,
            g.fences@[i].dpi,
        ) && snappable(g.fences@[i], g.icon_px) by {
            assert(before.fences@[i].wf());
        }
    }
    settle_all(g, areas, fx);
}

/// A command of a fence's menu.
#[derive(Clone, Copy, Debug, PartialEq, Eq, Structural)]
pub enum FenceCommand {
    Nothing,
    Remove,
    /// The opacity of an entry of the menu.
    Opacity(u32),
    Rename,
    IconSize(u32),
    HideBox,
    Explore,
}

/// The command that an id stands for.
pub open spec fn fence_command_of(cmd: u32) -> FenceCommand {
    if cmd == CMD_DELETE {
        FenceCommand::Remove
    } else if cmd == 1002 {
        FenceCommand::Opacity(0)
    } else if cmd == 1003 {
        FenceCommand::Opacity(1)
    } else if cmd == 1004 {
        FenceCommand::Opacity(2)
    } else if cmd == 1012 {
        FenceCommand::Opacity(3)
    } else if cmd == CMD_RENAME {
        FenceCommand::Rename
    } else if cmd == CMD_HIDE_BOX {
        FenceCommand::HideBox
    } else if cmd == CMD_EXPLORE {
        FenceCommand::Explore
    } else if 1006 <= cmd <= 1009 {
        FenceCommand::IconSize(icon_size(cmd - 1006))
    } else {
        FenceCommand::Nothing
    }
}

/// The command that an id of a fence's menu stands for.
pub fn fence_command(cmd: u32) -> (r: FenceCommand)
    ensures
        r == fence_command_of(cmd),
{
    match cmd {
        CMD_DELETE => FenceCommand::Remove,
        1002 => FenceCommand::Opacity(0),
        1003 => FenceCommand::Opacity(1),
        1004 => FenceCommand::Opacity(2),
        1012 => FenceCommand::Opacity(3),
        CMD_RENAME => FenceCommand::Rename,
        CMD_HIDE_BOX => FenceCommand::HideBox,
        CMD_EXPLORE => FenceCommand::Explore,
        1006 | 1007 | 1008 | 1009 => FenceCommand::IconSize(size_of_icon(cmd - 1006)),
        _ => FenceCommand::Nothing,
    }
}

/// The menu offers no command that does nothing, and what it offers does what it says: an opacity
/// entry sets its opacity, an icon entry its size.
pub proof fn lemma_menu_commands(g: Global, hwnd: u64, m: FenceMenu)
    requires
        menu_of(g, hwnd, m),
    ensures
        forall|k: int|
            0 <= k < m.commands@.len() ==> fence_command_of((#[trigger] m.commands@[k]).id) != FenceCommand::Nothing,
        forall|k: int|
            0 <= k < 4 ==> fence_command_of((#[trigger] m.opacities@[k]).id) == FenceCommand::Opacity(k as u32),
        forall|k: int|
            0 <= k < 4 ==> fence_command_of((#[trigger] m.icons@[k]).id) == FenceCommand::IconSize(icon_size(k)),
{
    let c = m.commands@;
    assert(c[0].id == CMD_DELETE);
    assert(c[2].id == CMD_RENAME || c[2].id == CMD_EXPLORE);
}

/// A command of the tray's menu.
#[derive(Clone, Copy, Debug, PartialEq, Eq, Structural)]
pub enum TrayCommand {
    NewPortal,
    NewBox,
    ToggleVisibility,
    Zen,
    GhostMode,
    Sweep,
    DownloadEnabled,
    DownloadVisible,
    Autostart,
    Reload,
    ConfigDir,
    Exit,
    Nothing,
}

/// The drawing of all valid fences.
pub open spec fn render_all(fences: Seq<Fence>) -> Seq<Effect>
    decreases fences.len(),
{
    if fences.len() == 0 {
        Seq::empty()
    } else if fences.last().valid {
        render_all(fences.drop_last()).push(Effect::Render(fences.last().hwnd))
    } else {
        render_all(fences.drop_last())
    }
}

/// Makes the fences fade while the mouse is elsewhere, or ends that.
pub fn toggle_ghost(g: &mut Global, fx: &mut Vec<Effect>)
    ensures
        *final(g) == (Global {
            config: Config { ghost_mode: !old(g).config.ghost_mode, ..old(g).config },
            ..*old(g)
        }),
        final(fx)@ == old(fx)@ + seq![Effect::Save] + render_all(old(g).fences@),
{
    let ghost fx0 = fx@;
    g.config.ghost_mode = !g.config.ghost_mode;
    fx.push(Effect::Save);
    let n: usize = g.fences.len();
    let mut i: usize = 0;
    assert(g.fences@.take(0).len() == 0);
    assert(fx@ =~= fx0 + seq![Effect::Save] + render_all(g.fences@.take(0)));
    while i < n
        invariant
            i <= n,
            n == g.fences@.len(),
            fx@ == fx0 + seq![Effect::Save] + render_all(g.fences@.take(i as int)),
        decreases n - i,
    {
        assert(g.fences@.take(i + 1).drop_last() =~= g.fences@.take(i as int));
        if g.fences[i].valid {
            fx.push(Effect::Render(g.fences[i].hwnd));
        }
        assert(fx@ =~= fx0 + seq![Effect::Save] + render_all(g.fences@.take(i + 1)));
        i = i + 1;
    }
    assert(g.fences@.take(n as int) =~= g.fences@);
}

/// What the commands that leave the state alone ask for.
pub open spec fn plain_effect(cmd: TrayCommand) -> Seq<Effect> {
    match cmd {
        TrayCommand::NewPortal => seq![Effect::PickFolder],
        TrayCommand::NewBox => seq![Effect::MakeBox],
        TrayCommand::Sweep => seq![Effect::PostSweep],
        TrayCommand::Reload => seq![Effect::Reload],
        TrayCommand::ConfigDir => seq![Effect::ExploreConfig],
        TrayCommand::Exit => seq![Effect::Quit],
        _ => Seq::empty(),
    }
}

/// Whether `g` is `old` after a command of the tray's menu, with what it asks for.
pub open spec fn dispatched(
    old: Global,
    cmd: TrayCommand,
    present: Seq<String>,
    g: Global,
    fx: Seq<Effect>,
) -> bool {
    match cmd {
        TrayCommand::ToggleVisibility | TrayCommand::Zen => {
            &&& g == (Global { zen: !old.zen, ..old })
            &&& fx == visibility_effects(old.fences@, old.config, !old.zen)
        },
        TrayCommand::GhostMode => {
            &&& g == (Global { config: Config { ghost_mode: !old.config.ghost_mode, ..old.config }, ..old })
            &&& fx == seq![Effect::Save] + render_all(old.fences@)
        },
        TrayCommand::DownloadEnabled => {
            &&& g == (Global {
                config: Config { download_enabled: !old.config.download_enabled, ..old.config },
                desktop_seen: g.desktop_seen,
                download_pending: g.download_pending,
                ..old
            })
            &&& g.desktop_seen@ == unique(present)
            &&& g.download_pending@ == Seq::<Pending>::empty()
            &&& fx == seq![Effect::DropArrivals] + visibility_effects(old.fences@, g.config, old.zen) + seq![
                Effect::Reserve,
                Effect::Save,
            ]
        },
        TrayCommand::DownloadVisible => if old.config.download_enabled {
            &&& g == (Global {
                config: Config { download_box_visible: !old.config.download_box_visible, ..old.config },
                ..old
            })
            &&& fx == visibility_effects(old.fences@, g.config, old.zen) + seq![Effect::Reserve, Effect::Save]
        } else {
            g == old && fx == Seq::<Effect>::empty()
        },
        TrayCommand::Autostart => {
            &&& g == (Global { config: Config { autostart: !old.config.autostart, ..old.config }, ..old })
            &&& fx == seq![Effect::Autostart(!old.config.autostart), Effect::Save]
        },
        _ => g == old && fx == plain_effect(cmd),
    }
}

/// Carries out a command of the tray's menu. `present` are the downloads that are there.
pub fn dispatch_menu(g: &mut Global, cmd: TrayCommand, present: &Vec<String>, fx: &mut Vec<Effect>)
    ensures
        extends(old(fx)@, final(fx)@),
        dispatched(*old(g), cmd, present@, *final(g), added(old(fx)@, final(fx)@)),
        old(g).wf() ==> final(g).wf(),
{
    let ghost before = *g;
    let ghost fx0 = fx@;
    match cmd {
        TrayCommand::NewPortal => fx.push(Effect::PickFolder),
        TrayCommand::NewBox => fx.push(Effect::MakeBox),
        TrayCommand::ToggleVisibility | TrayCommand::Zen => toggle_zen(g, fx),
        TrayCommand::GhostMode => toggle_ghost(g, fx),
        TrayCommand::Sweep => fx.push(Effect::PostSweep),
        TrayCommand::DownloadEnabled => {
            let enabled: bool = !g.config.download_enabled;
            set_download_enabled(g, enabled, present, fx);
        },
        TrayCommand::DownloadVisible => {
            if g.config.download_enabled {
                let visible: bool = !g.config.download_box_visible;
                set_download_box_visible(g, visible, fx);
            }
        },
        TrayCommand::Autostart => {
            g.config.autostart = !g.config.autostart;
            fx.push(Effect::Autostart(g.config.autostart));
            fx.push(Effect::Save);
        },
        TrayCommand::Reload => fx.push(Effect::Reload),
        TrayCommand::ConfigDir => fx.push(Effect::ExploreConfig),
        TrayCommand::Exit => fx.push(Effect::Quit),
        TrayCommand::Nothing => {},
    }
    proof {
        let tail = added(fx0, fx@);
        assert(fx@.take(fx0.len() as int) =~= fx0);
        match cmd {
            TrayCommand::ToggleVisibility | TrayCommand::Zen => {
                assert(tail =~= visibility_effects(before.fences@, before.config, !before.zen));
            },
            TrayCommand::GhostMode => {
                assert(tail =~= seq![Effect::Save] + render_all(before.fences@));
            },
            TrayCommand::DownloadEnabled => {
                assert(tail =~= seq![Effect::DropArrivals] + visibility_effects(
                    before.fences@,
                    g.config,
                    before.zen,
                ) + seq![Effect::Reserve, Effect::Save]);
            },
            TrayCommand::DownloadVisible => {
                if before.config.download_enabled {
                    assert(tail =~= visibility_effects(before.fences@, g.config, before.zen) + seq![
                        Effect::Reserve,
                        Effect::Save,
                    ]);
                } else {
                    assert(tail =~= Seq::<Effect>::empty());
                }
            },
            TrayCommand::Autostart => {
                assert(tail =~= seq![Effect::Autostart(!before.config.autostart), Effect::Save]);
            },
            _ => {
                assert(tail =~= plain_effect(cmd));
            },
        }
    }
}

/// The first name of a new box that is not taken.
pub fn free_box(taken: &Vec<String>) -> (r: u32)
    ensures
        r >= 1,
        forall|m: nat| 1 <= m < r ==> #[trigger] holds(taken@, box_name_of(m)),
        r < u32::MAX ==> !holds(taken@, box_name_of(r as nat)),
{
    let mut n: u32 = 1;
    while n < u32::MAX
        invariant
            n >= 1,
            forall|m: nat| 1 <= m < n ==> #[trigger] holds(taken@, box_name_of(m)),
        decreases u32::MAX - n,
    {
        if !contains(taken, &box_name(n)) {
            return n;
        }
        n = n + 1;
    }
    n
}

/// What is done about the list of programs that start with the system.
#[derive(Debug)]
pub enum AutostartAction {
    /// Enter this program.
    Write(String),
    Remove,
    Nothing,
}

/// What is done about the list of programs that start with the system: the program is entered where
/// its own path is known, and removed where it is not to start.
pub fn set_autostart(enabled: bool, exe: Option<String>) -> (r: AutostartAction)
    ensures
        r == match (enabled, exe) {
            (true, Some(path)) => AutostartAction::Write(path),
            (true, None) => AutostartAction::Nothing,
            (false, _) => AutostartAction::Remove,
        },
{
    if enabled {
        match exe {
            Some(path) => AutostartAction::Write(path),
            None => AutostartAction::Nothing,
        }
    } else {
        AutostartAction::Remove
    }
}

} // verus!
