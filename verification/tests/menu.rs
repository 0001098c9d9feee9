use feather_fences::config::{Config, FenceCfg};
use feather_fences::effect::{Effect, ShowMode};
use feather_fences::fence::Fence;
use feather_fences::geometry::Rect;
use feather_fences::lifecycle::start;
use feather_fences::menu::{
    dispatch_menu, fence_command, fence_menu, free_box, on_icon_size, on_opacity, on_remove, rename_fence,
    rename_start, set_autostart, shown_folder, AutostartAction, FenceCommand, MenuItem, TrayCommand,
};
use feather_fences::opacity::{background_alpha, preset, preset_command, selected_preset};
use feather_fences::state::Global;

const WA: Rect = Rect { left: 0, top: 0, right: 1920, bottom: 1040 };

fn global() -> Global {
    let mut g = start(Config::default(), 1, &Vec::new());
    for id in [1u32, 2] {
        let cfg = FenceCfg { id, x: 300 * id as i32, y: 10, title: format!("t{id}"), ..Default::default() };
        g.fences.push(Fence::new(cfg, 100 + id as u64, 96));
    }
    g
}

fn rows(v: &[MenuItem]) -> Vec<(u32, String, bool)> {
    v.iter().map(|i| (i.id, i.label.clone(), i.checked)).collect()
}

#[test]
fn an_ordinary_fence_can_be_deleted() {
    let g = global();
    let m = fence_menu(&g, 101);
    assert_eq!(
        rows(&m.commands),
        vec![
            (1001, "删除此栅栏".to_string(), false),
            (1011, "打开收纳箱".to_string(), false),
            (1005, "重命名...".to_string(), false),
        ]
    );
    assert_eq!(m.opacity_label, "透明度");
    assert_eq!(m.icon_label, "图标大小");
    assert_eq!(
        rows(&m.opacities),
        vec![
            (1002, "100%".to_string(), false),
            (1003, "70%".to_string(), true),
            (1004, "45%".to_string(), false),
            (1012, "30%".to_string(), false),
        ]
    );
    assert_eq!(
        rows(&m.icons),
        vec![
            (1006, "24 px".to_string(), false),
            (1007, "32 px".to_string(), true),
            (1008, "48 px".to_string(), false),
            (1009, "64 px".to_string(), false),
        ]
    );
}

#[test]
fn the_download_box_has_a_menu_of_its_own() {
    let mut g = global();
    g.config.download_box_id = Some(2);
    let ids = |hwnd| fence_menu(&g, hwnd).commands.iter().map(|i| i.id).collect::<Vec<_>>();
    assert_eq!(ids(102), [1001, 1010, 1011, 1005]);
    assert_eq!(ids(101), [1001, 1011, 1005]);
    assert_eq!(fence_menu(&g, 102).commands[0].label, "关闭下载接管");
    assert_eq!(fence_menu(&g, 102).commands[1].label, "隐藏下载收纳箱");
}

#[test]
fn an_unknown_window_gets_the_lowest_opacity() {
    let g = global();
    let m = fence_menu(&g, 999);
    assert!(m.opacities[3].checked);
    assert_eq!(m.commands.len(), 3);
}

fn expected_preset(cur: f32) -> u32 {
    let presets = [(1002u32, 1.0f32), (1003, 0.7), (1004, 0.45), (1012, 0.3)];
    presets
        .iter()
        .min_by(|(_, a), (_, b)| (cur - *a).abs().total_cmp(&(cur - *b).abs()))
        .map(|(id, _)| *id)
        .unwrap()
}

#[test]
fn the_nearest_opacity_is_checked() {
    let mut seed = 3u64;
    let mut values: Vec<f32> = (0..2000).map(|i| i as f32 / 1700.0).collect();
    values.extend([-1.0, 0.0, -0.0, 1e30, -1e30, f32::MAX, f32::MIN, 1e-40, f32::INFINITY, f32::NEG_INFINITY, f32::NAN]);
    for _ in 0..3000 {
        seed = seed.wrapping_mul(6364136223846793005).wrapping_add(1442695040888963407);
        values.push(f32::from_bits((seed >> 32) as u32));
    }
    for v in values {
        assert_eq!(preset_command(selected_preset(v.to_bits())), expected_preset(v), "{v}");
        let alpha = (255.0 * v.clamp(0.1, 1.0)) as u8;
        assert_eq!(background_alpha(v.to_bits()), alpha, "{v}");
    }
    for k in 0..4 {
        assert_eq!(selected_preset(preset(k)), k);
    }
    assert_eq!([0, 1, 2, 3].map(|k| f32::from_bits(preset(k))), [1.0, 0.7, 0.45, 0.3]);
}

#[test]
fn ids_stand_for_commands() {
    for (id, want) in [
        (1001, FenceCommand::Remove),
        (1002, FenceCommand::Opacity(0)),
        (1003, FenceCommand::Opacity(1)),
        (1004, FenceCommand::Opacity(2)),
        (1012, FenceCommand::Opacity(3)),
        (1005, FenceCommand::Rename),
        (1006, FenceCommand::IconSize(24)),
        (1007, FenceCommand::IconSize(32)),
        (1008, FenceCommand::IconSize(48)),
        (1009, FenceCommand::IconSize(64)),
        (1010, FenceCommand::HideBox),
        (1011, FenceCommand::Explore),
        (0, FenceCommand::Nothing),
        (1013, FenceCommand::Nothing),
    ] {
        assert_eq!(fence_command(id), want, "{id}");
    }
}

#[test]
fn a_fence_is_deleted_and_the_box_is_turned_off() {
    let mut g = global();
    g.config.download_box_id = Some(2);
    let mut fx = Vec::new();
    on_remove(&mut g, 102, &vec!["x".to_string()], &mut fx);
    assert!(g.fences.len() == 2 && !g.config.download_enabled);
    assert_eq!(g.desktop_seen, ["x"]);
    fx.clear();
    on_remove(&mut g, 102, &Vec::new(), &mut fx);
    assert!(fx.is_empty());
    on_remove(&mut g, 101, &Vec::new(), &mut fx);
    assert_eq!(g.fences.len(), 1);
    assert_eq!(fx, vec![Effect::Destroy(101), Effect::Save]);
    on_remove(&mut g, 999, &Vec::new(), &mut fx);
    assert_eq!(fx.len(), 2);
}

#[test]
fn an_opacity_is_set_and_saved() {
    let mut g = global();
    let mut fx = Vec::new();
    on_opacity(&mut g, 101, 2, &mut fx);
    assert_eq!(f32::from_bits(g.fences[0].cfg.opacity), 0.45);
    assert_eq!(f32::from_bits(g.config.fences[0].opacity), 0.45);
    assert_eq!(fx, vec![Effect::Render(101), Effect::Save]);
    on_opacity(&mut g, 999, 2, &mut fx);
    assert_eq!(fx.len(), 2);
}

#[test]
fn a_fence_is_renamed_to_what_was_entered() {
    let mut g = global();
    let mut fx = Vec::new();
    assert_eq!(rename_start(&g, 101), "t1");
    assert_eq!(rename_start(&g, 999), "");
    rename_fence(&mut g, 101, None, &mut fx);
    rename_fence(&mut g, 101, Some("  \t ".to_string()), &mut fx);
    rename_fence(&mut g, 999, Some("x".to_string()), &mut fx);
    assert!(fx.is_empty() && g.fences[0].cfg.title == "t1");
    rename_fence(&mut g, 101, Some("  new name ".to_string()), &mut fx);
    assert_eq!(g.fences[0].cfg.title, "new name");
    assert_eq!(g.config.fences[0].title, "new name");
    assert_eq!(fx, vec![Effect::Render(101), Effect::Save]);
}

#[test]
fn the_folder_of_a_fence_is_opened() {
    let mut g = global();
    assert_eq!(shown_folder(&g, 101, "V".to_string()), "V");
    g.fences[0].cfg.folder = Some("F".to_string());
    assert_eq!(shown_folder(&g, 101, "V".to_string()), "F");
    assert_eq!(shown_folder(&g, 999, "V".to_string()), "V");
}

#[test]
fn an_icon_size_settles_all_fences_anew() {
    let mut g = global();
    let mut fx = Vec::new();
    on_icon_size(&mut g, 64, &vec![WA, WA], &mut fx);
    assert_eq!((g.icon_px, g.config.icon), (64, 64));
    for f in &g.fences {
        assert_eq!((f.cfg.w - 42) % 76, 0);
        assert_eq!((f.cfg.h - 50) % 102, 0);
    }
    assert_eq!(fx.iter().filter(|e| matches!(e, Effect::Save)).count(), 2);
}

#[test]
fn the_tray_commands_do_what_they_say() {
    let none = Vec::new();
    let run = |g: &mut Global, cmd| {
        let mut fx = Vec::new();
        dispatch_menu(g, cmd, &none, &mut fx);
        fx
    };
    let mut g = global();
    for (cmd, want) in [
        (TrayCommand::NewPortal, Effect::PickFolder),
        (TrayCommand::NewBox, Effect::MakeBox),
        (TrayCommand::Sweep, Effect::PostSweep),
        (TrayCommand::Reload, Effect::Reload),
        (TrayCommand::ConfigDir, Effect::ExploreConfig),
        (TrayCommand::Exit, Effect::Quit),
    ] {
        assert_eq!(run(&mut g, cmd), vec![want]);
    }
    assert!(run(&mut g, TrayCommand::Nothing).is_empty());
    for cmd in [TrayCommand::Zen, TrayCommand::ToggleVisibility] {
        let zen = g.zen;
        assert_eq!(run(&mut g, cmd).len(), 2);
        assert_eq!(g.zen, !zen);
    }
    g.fences[1].valid = false;
    assert_eq!(run(&mut g, TrayCommand::GhostMode), vec![Effect::Save, Effect::Render(101)]);
    assert!(g.config.ghost_mode);
    assert_eq!(run(&mut g, TrayCommand::Autostart), vec![Effect::Autostart(true), Effect::Save]);
    assert_eq!(run(&mut g, TrayCommand::Autostart), vec![Effect::Autostart(false), Effect::Save]);
    assert_eq!(
        run(&mut g, TrayCommand::DownloadVisible),
        vec![Effect::Show(101, ShowMode::Show), Effect::Reserve, Effect::Save]
    );
    assert!(!g.config.download_box_visible);
    assert_eq!(run(&mut g, TrayCommand::DownloadEnabled).len(), 4);
    assert!(!g.config.download_enabled);
    assert!(run(&mut g, TrayCommand::DownloadVisible).is_empty());
    assert!(!g.config.download_box_visible);
}

#[test]
fn a_new_box_gets_the_first_free_name() {
    let names = |v: &[&str]| v.iter().map(|s| s.to_string()).collect::<Vec<_>>();
    assert_eq!(free_box(&names(&[])), 1);
    assert_eq!(free_box(&names(&["收纳箱 2"])), 1);
    assert_eq!(free_box(&names(&["收纳箱", "收纳箱 2", "收纳箱 4"])), 3);
}

#[test]
fn the_program_is_entered_only_with_a_path() {
    assert!(matches!(set_autostart(true, Some("p".to_string())), AutostartAction::Write(p) if p == "p"));
    assert!(matches!(set_autostart(true, None), AutostartAction::Nothing));
    assert!(matches!(set_autostart(false, Some("p".to_string())), AutostartAction::Remove));
    assert!(matches!(set_autostart(false, None), AutostartAction::Remove));
}
