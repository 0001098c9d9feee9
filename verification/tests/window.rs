use feather_fences::config::{Config, FenceCfg};
use feather_fences::effect::{Cursor, Effect, ShowMode};
use feather_fences::fence::{grid_dims, start_page_anim, Entry, Fence};
use feather_fences::geometry::Rect;
use feather_fences::lifecycle::start;
use feather_fences::message::{
    fence_message, fence_result, host_message, prompt_message, FenceMessage, HostMessage, PromptMessage,
};
use feather_fences::state::Global;
use feather_fences::window::{
    cancel_refresh, delete_target, folder_changed, folder_posted, listed_dir, on_anim_tick, on_deleted, on_destroy, on_display_change, on_dpi_changed,
    on_drop, on_minimized, on_mouse_leave, on_refresh, on_refresh_tick, on_restore, on_set_cursor, recycle_list,
    recycled, refresh_window, schedule_render,
};

const WA: Rect = Rect { left: 0, top: 0, right: 1920, bottom: 1040 };

fn entry(name: &str) -> Entry {
    Entry { path: format!("D/{name}"), name: name.to_string(), is_dir: false }
}

fn global() -> Global {
    let mut g = start(Config::default(), 1, &Vec::new());
    for id in [1u32, 2] {
        let cfg = FenceCfg { id, x: 300 * id as i32, y: 10, ..Default::default() };
        g.fences.push(Fence::new(cfg, 100 + id as u64, 96));
    }
    g.fences[0].entries = vec![entry("a"), entry("b")];
    g
}

#[test]
fn messages_mean_what_the_system_says() {
    for (msg, wparam, want) in [
        (0x0081, 0, FenceMessage::Default),
        (0x0112, 0xf020, FenceMessage::Ignored),
        (0x0112, 0xf02f, FenceMessage::Ignored),
        (0x0112, 0xf030, FenceMessage::Default),
        (0x0005, 1, FenceMessage::Minimized),
        (0x0005, 0, FenceMessage::Default),
        (0x8014, 0, FenceMessage::Restore),
        (0x0014, 0, FenceMessage::Erase),
        (0x0084, 0, FenceMessage::HitTest),
        (0x000f, 0, FenceMessage::Paint),
        (0x0002, 0, FenceMessage::Destroy),
        (0x8001, 0, FenceMessage::Refresh),
        (0x8002, 0, FenceMessage::Drop),
        (0x0100, 0x2e, FenceMessage::Delete),
        (0x0100, 0x2f, FenceMessage::Default),
        (0x0200, 0, FenceMessage::MouseMove),
        (0x0201, 0, FenceMessage::ButtonDown),
        (0x0202, 0, FenceMessage::ButtonUp),
        (0x0203, 0, FenceMessage::DoubleClick),
        (0x0205, 0, FenceMessage::Menu),
        (0x020a, 0, FenceMessage::Wheel),
        (0x0113, 0xfe10, FenceMessage::AnimationTick),
        (0x0113, 0xfe11, FenceMessage::RefreshTick),
        (0x0113, 1, FenceMessage::Ignored),
        (0x02a3, 0, FenceMessage::MouseLeave),
        (0x0020, 0, FenceMessage::SetCursor),
        (0x02e0, 0, FenceMessage::DpiChanged),
        (0x007e, 0, FenceMessage::DisplayChange),
        (0x1234, 0, FenceMessage::Default),
    ] {
        assert_eq!(fence_message(msg, wparam), want, "{msg:x} {wparam:x}");
    }
    assert_eq!(fence_result(FenceMessage::Default), None);
    assert_eq!(fence_result(FenceMessage::HitTest), Some(1));
    assert_eq!(fence_result(FenceMessage::Erase), Some(1));
    assert_eq!(fence_result(FenceMessage::SetCursor), Some(1));
    assert_eq!(fence_result(FenceMessage::Wheel), Some(0));
}

#[test]
fn the_programs_window_hears_the_tray_the_hotkey_and_the_timers() {
    let tray = 0x8003;
    for (msg, wparam, lparam, want) in [
        (tray, 0, 0x0205, HostMessage::TrayMenu),
        (tray, 0, 0x1_007b, HostMessage::TrayMenu),
        (tray, 0, 0x0203, HostMessage::ToggleZen),
        (tray, 0, 0x0200, HostMessage::Ignored),
        (0x0312, 1, 0, HostMessage::ToggleZen),
        (0x0113, 1, 0, HostMessage::Watchdog),
        (0x0113, 3, 0, HostMessage::SweepRetry),
        (0x0113, 4, 0, HostMessage::Downloads),
        (0x0113, 5, 0, HostMessage::DesktopLayer),
        (0x0113, 2, 0, HostMessage::Ignored),
        (0x8005, 0, 0, HostMessage::Sweep),
        (0x0002, 0, 0, HostMessage::Quit),
        (0x0003, 0, 0, HostMessage::Default),
    ] {
        assert_eq!(host_message(msg, wparam, lparam, tray), want, "{msg:x}");
    }
}

#[test]
fn a_prompt_is_accepted_or_cancelled() {
    assert_eq!(prompt_message(0x0111, 0x5_0001), PromptMessage::Accept);
    assert_eq!(prompt_message(0x0111, 2), PromptMessage::Cancel);
    assert_eq!(prompt_message(0x0111, 3), PromptMessage::Ignored);
    assert_eq!(prompt_message(0x0010, 0), PromptMessage::Cancel);
    assert_eq!(prompt_message(0x0100, 1), PromptMessage::Default);
}

#[test]
fn minimised_fences_come_back() {
    let mut g = global();
    let mut fx = Vec::new();
    on_minimized(101, &mut fx);
    on_restore(&g, 101, &mut fx);
    on_restore(&g, 999, &mut fx);
    g.zen = true;
    on_restore(&g, 101, &mut fx);
    assert_eq!(
        fx,
        vec![Effect::PostRestore(101), Effect::Show(101, ShowMode::Restore), Effect::Render(101)]
    );
    fx.clear();
    schedule_render(&g, 102, &mut fx);
    schedule_render(&g, 103, &mut fx);
    assert_eq!(fx, vec![Effect::Render(102)]);
}

#[test]
fn a_destroyed_window_leaves_its_fence_behind() {
    let mut g = global();
    on_destroy(&mut g, 102);
    assert!(g.fences[0].valid && !g.fences[1].valid);
    on_destroy(&mut g, 102);
    assert_eq!(g.fences.len(), 2);
}

#[test]
fn a_refresh_waits_for_quiet() {
    let mut g = global();
    let mut fx = Vec::new();
    g.fences[0].refresh_signal.post(1_000_000_000);
    on_refresh(&g, 101, &mut fx);
    assert_eq!(fx, vec![Effect::StartRefresh(101, 150)]);
    fx.clear();
    assert!(!on_refresh_tick(&mut g, 101, 1_100_000_000, &mut fx));
    assert_eq!(fx, vec![Effect::StartRefresh(101, 50)]);
    fx.clear();
    assert!(on_refresh_tick(&mut g, 101, 1_150_000_000, &mut fx));
    assert!(!on_refresh_tick(&mut g, 101, 1_150_000_000, &mut fx));
    assert_eq!(fx, vec![Effect::StopRefresh(101), Effect::StopRefresh(101)]);
    fx.clear();
    assert!(!on_refresh_tick(&mut g, 999, 0, &mut fx));
    on_refresh(&g, 999, &mut fx);
    assert!(fx.is_empty());
}

#[test]
fn a_drop_refreshes_at_once() {
    let mut g = global();
    let mut fx = Vec::new();
    g.fences[0].refresh_signal.post(0);
    assert!(on_drop(&mut g, 101, &mut fx));
    assert!(!g.fences[0].refresh_signal.state.queued);
    refresh_window(&mut g, 101, &Some(vec![entry("z")]), &mut fx);
    assert_eq!(g.fences[0].entries[0].name, "z");
    assert_eq!(fx, vec![Effect::StopRefresh(101), Effect::StopAnimation(101), Effect::Render(101)]);
    assert!(!on_drop(&mut g, 7, &mut fx));
    assert!(!cancel_refresh(&mut g, 7));
    refresh_window(&mut g, 7, &None, &mut fx);
    assert_eq!(fx.len(), 3);
}

#[test]
fn a_fence_lists_its_folder_or_the_vault() {
    let mut g = global();
    assert_eq!(listed_dir(&g.fences[0], "V".to_string()), "V");
    g.fences[0].cfg.folder = Some("F".to_string());
    assert_eq!(listed_dir(&g.fences[0], "V".to_string()), "F");
}

#[test]
fn the_delete_key_is_for_the_selected_entry() {
    let mut g = global();
    let mut fx = Vec::new();
    assert_eq!(delete_target(&g, 101), None);
    g.fences[0].selected = Some(1);
    assert_eq!(delete_target(&g, 101), Some("D/b".to_string()));
    assert_eq!(delete_target(&g, 102), None);
    assert_eq!(delete_target(&g, 999), None);
    assert_eq!(recycle_list(vec![65, 66]), vec![65, 66, 0, 0]);
    assert!(recycled(0, false) && !recycled(0, true) && !recycled(2, false));
    on_deleted(&mut g, 101, &Some(vec![entry("a"), entry("b")]), &mut fx);
    assert_eq!(g.fences[0].selected, None);
    assert_eq!(fx, vec![Effect::StopAnimation(101), Effect::Render(101)]);
    g.fences[0].selected = Some(9);
    assert_eq!(delete_target(&g, 101), None);
}

#[test]
fn the_animation_moves_with_its_timer() {
    let mut g = global();
    let mut fx = Vec::new();
    on_anim_tick(&mut g, 101, &mut fx);
    assert_eq!(fx, vec![Effect::Render(101)]);
    fx.clear();
    g.fences[0].entries = (0..40).map(|i| entry(&format!("{i}"))).collect();
    g.fences[0].page = 1;
    start_page_anim(&mut g.fences[0], &mut fx);
    for _ in 0..13 {
        on_anim_tick(&mut g, 101, &mut fx);
    }
    assert!(!g.fences[0].animating);
    assert_eq!(fx.len(), 1 + 13 + 1);
    assert_eq!(fx[13], Effect::StopAnimation(101));
    let rows = grid_dims(&g.fences[0], g.icon_px).1;
    assert_eq!(g.fences[0].top_row.round_i32(24), rows);
}

#[test]
fn a_mouse_that_leaves_ends_the_hover() {
    let mut g = global();
    let mut fx = Vec::new();
    g.fences[0].hover = Some(1);
    g.fences[0].hover_visible = true;
    on_mouse_leave(&mut g, 101, &mut fx);
    assert!(g.fences[0].hover.is_none() && !g.fences[0].hover_visible);
    assert_eq!(fx, vec![Effect::Render(101)]);
}

#[test]
fn the_cursor_shows_what_can_be_done() {
    let g = global();
    for (x, y, want) in [
        (100, 29, Cursor::SizeAll),
        (0, 100, Cursor::SizeWe),
        (259, 100, Cursor::SizeWe),
        (100, 339, Cursor::SizeNs),
        (0, 339, Cursor::SizeNesw),
        (259, 339, Cursor::SizeNwse),
        (100, 100, Cursor::Arrow),
        (0, 0, Cursor::SizeAll),
    ] {
        let mut fx = Vec::new();
        on_set_cursor(&g, 101, x, y, &mut fx);
        assert_eq!(fx, vec![Effect::SetCursor(want)], "{x} {y}");
    }
    let mut fx = Vec::new();
    on_set_cursor(&g, 7, 0, 0, &mut fx);
    assert!(fx.is_empty());
}

#[test]
fn a_new_dpi_brings_the_suggested_rectangle() {
    let mut g = global();
    let mut fx = Vec::new();
    let rect = Rect { left: -500, top: 40, right: 20, bottom: 720 };
    on_dpi_changed(&mut g, 101, 0x00c0_00c0, rect, &mut fx);
    let f = &g.fences[0];
    assert_eq!((f.dpi, f.cfg.dpi, f.cfg.x, f.cfg.y, f.cfg.w, f.cfg.h), (192, 192, -500, 40, 520, 680));
    assert_eq!(
        fx,
        vec![
            Effect::Place { hwnd: 101, x: -500, y: 40, w: 520, h: 680 },
            Effect::StopAnimation(101),
            Effect::Render(101),
            Effect::Save,
        ]
    );
    assert_eq!(g.config.fences[0].dpi, 192);
    fx.clear();
    on_dpi_changed(&mut g, 101, 0x00c0_0000, rect, &mut fx);
    assert!(fx.is_empty() && g.fences[0].dpi == 192);
    let flat = Rect { left: 5, top: 5, right: 5, bottom: 1 };
    on_dpi_changed(&mut g, 101, 96, flat, &mut fx);
    assert_eq!((g.fences[0].cfg.w, g.fences[0].cfg.h), (1, 1));
}

#[test]
fn a_changed_display_pulls_fences_back_without_snapping() {
    let mut g = global();
    let mut fx = Vec::new();
    g.fences[0].cfg.x = 3333;
    g.fences[0].cfg.y = -77;
    g.fences[0].cfg.w = 2500;
    g.fences[0].cfg.h = 50;
    on_display_change(&mut g, 101, 96, WA, &mut fx);
    let c = &g.fences[0].cfg;
    assert_eq!((c.x, c.y, c.w, c.h), (0, 0, 1920, 100));
    assert_eq!(fx.len(), 4);
    fx.clear();
    g.fences[1].cfg.x = 601;
    on_display_change(&mut g, 102, 144, WA, &mut fx);
    let c = &g.fences[1].cfg;
    assert_eq!((c.x, c.w, g.fences[1].dpi), (601, 270, 144));
    fx.clear();
    on_display_change(&mut g, 102, 144, WA, &mut fx);
    assert!(fx.is_empty());
}

#[test]
fn a_change_in_a_folder_is_refreshed_once_it_is_quiet() {
    let ms = 1_000_000u64;
    let mut g = global();
    let mut fx = Vec::new();
    assert!(folder_changed(&mut g, 101, 1_000 * ms));
    folder_posted(&mut g, 101, true);
    assert!(!folder_changed(&mut g, 101, 1_050 * ms));
    assert!(!g.fences[1].refresh_signal.state.queued);
    on_refresh(&g, 101, &mut fx);
    assert!(!on_refresh_tick(&mut g, 101, 1_150 * ms, &mut fx));
    assert!(on_refresh_tick(&mut g, 101, 1_200 * ms, &mut fx));
    assert_eq!(
        fx,
        vec![Effect::StartRefresh(101, 150), Effect::StartRefresh(101, 50), Effect::StopRefresh(101)]
    );
    assert!(folder_changed(&mut g, 101, 1_300 * ms));
    folder_posted(&mut g, 101, false);
    assert!(folder_changed(&mut g, 101, 1_400 * ms));
    assert!(!folder_changed(&mut g, 999, 1_400 * ms));
    folder_posted(&mut g, 999, false);
}
