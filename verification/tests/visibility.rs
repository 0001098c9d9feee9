use feather_fences::config::{Config, FenceCfg};
use feather_fences::effect::{Effect, ShowMode};
use feather_fences::fence::{Entry, Fence};
use feather_fences::geometry::Rect;
use feather_fences::lifecycle::start;
use feather_fences::state::{fence_idx, DownloadCandidate, Global, Pending};
use feather_fences::visibility::{
    apply_visibility, can_reserve, desktop_layer_tick, download_box_should_show, is_download_box, layer_insert,
    layer_restore, reserve_desktop_icons, set_download_box_visible, set_download_enabled, toggle_zen, watchdog_tick,
    WindowState,
};

fn global(ids: &[u32]) -> Global {
    let mut g = start(Config::default(), 1, &Vec::new());
    for &id in ids {
        let cfg = FenceCfg { id, x: 300 * id as i32, y: 10, ..Default::default() };
        g.fences.push(Fence::new(cfg, 100 + id as u64, 96));
    }
    g
}

fn pending(path: &str) -> Pending {
    Pending {
        path: path.to_string(),
        state: DownloadCandidate { len: 1, modified: None, stable_ticks: 1 },
    }
}

#[test]
fn the_download_box_is_shown_only_while_downloads_are_collected() {
    let mut g = global(&[1, 2]);
    g.config.download_box_id = Some(2);
    assert!(is_download_box(&g, 2) && !is_download_box(&g, 1));
    for (enabled, visible, shown) in [(true, true, true), (true, false, false), (false, true, false), (false, false, false)] {
        g.config.download_enabled = enabled;
        g.config.download_box_visible = visible;
        assert_eq!(download_box_should_show(&g, 2), shown);
        assert!(download_box_should_show(&g, 1));
    }
}

#[test]
fn visibility_is_applied_to_valid_fences() {
    let mut g = global(&[1, 2, 3]);
    g.fences[0].valid = false;
    g.config.download_box_id = Some(3);
    g.config.download_box_visible = false;
    let mut fx = Vec::new();
    apply_visibility(&g, &mut fx);
    assert_eq!(fx, vec![Effect::Show(102, ShowMode::Show), Effect::Show(103, ShowMode::Hide)]);
}

#[test]
fn hiding_all_fences_twice_shows_them_again() {
    let mut g = global(&[1, 2]);
    let mut fx = Vec::new();
    toggle_zen(&mut g, &mut fx);
    assert!(g.zen);
    assert_eq!(fx, vec![Effect::Show(101, ShowMode::Hide), Effect::Show(102, ShowMode::Hide)]);
    fx.clear();
    toggle_zen(&mut g, &mut fx);
    assert!(!g.zen);
    assert_eq!(fx, vec![Effect::Show(101, ShowMode::Show), Effect::Show(102, ShowMode::Show)]);
}

#[test]
fn icons_are_kept_out_of_the_fences_that_are_shown() {
    let mut g = global(&[1, 2, 3]);
    g.fences[1].valid = false;
    g.config.download_box_id = Some(3);
    assert_eq!(
        reserve_desktop_icons(&g),
        vec![
            Rect { left: 300, top: 10, right: 560, bottom: 350 },
            Rect { left: 900, top: 10, right: 1160, bottom: 350 },
        ]
    );
    g.config.download_enabled = false;
    assert_eq!(reserve_desktop_icons(&g).len(), 1);
    assert!(can_reserve(&g));
    g.fences[0].cfg.x = i32::MAX;
    assert!(!can_reserve(&g));
}

#[test]
fn turning_the_collection_off_forgets_what_was_followed() {
    let mut g = global(&[1]);
    g.config.download_box_id = Some(1);
    g.download_pending.push(pending("a"));
    g.desktop_seen.push("a".to_string());
    let mut fx = Vec::new();
    let present = vec!["b".to_string(), "b".to_string()];
    set_download_enabled(&mut g, true, &present, &mut fx);
    assert!(fx.is_empty() && g.download_pending.len() == 1);
    set_download_enabled(&mut g, false, &present, &mut fx);
    assert!(!g.config.download_enabled && g.download_pending.is_empty());
    assert_eq!(g.desktop_seen, ["b"]);
    assert_eq!(
        fx,
        vec![Effect::DropArrivals, Effect::Show(101, ShowMode::Hide), Effect::Reserve, Effect::Save]
    );
}

#[test]
fn hiding_the_box_keeps_the_collection() {
    let mut g = global(&[1]);
    g.config.download_box_id = Some(1);
    g.download_pending.push(pending("a"));
    let mut fx = Vec::new();
    set_download_box_visible(&mut g, true, &mut fx);
    assert!(fx.is_empty());
    set_download_box_visible(&mut g, false, &mut fx);
    assert!(g.config.download_enabled && g.download_pending.len() == 1);
    assert_eq!(fx, vec![Effect::Show(101, ShowMode::Hide), Effect::Reserve, Effect::Save]);
}

fn seen(iconic: bool, visible: bool) -> WindowState {
    WindowState { iconic, visible, remade: 0, listing: None }
}

#[test]
fn the_watchdog_restores_fences_that_went_astray() {
    let mut g = global(&[1, 2, 3]);
    g.config.download_box_id = Some(3);
    g.config.download_box_visible = false;
    let mut fx = Vec::new();
    let windows = vec![seen(true, true), seen(false, true), seen(false, false)];
    watchdog_tick(&mut g, &windows, &mut fx);
    assert_eq!(fx, vec![Effect::Show(101, ShowMode::Restore), Effect::Render(101), Effect::Reserve]);
    fx.clear();
    g.zen = true;
    watchdog_tick(&mut g, &windows, &mut fx);
    assert_eq!(fx, vec![Effect::Reserve]);
}

#[test]
fn the_watchdog_gives_lost_fences_a_new_window() {
    let mut g = global(&[1, 2]);
    g.fences[0].valid = false;
    g.fences[0].moving = true;
    g.fences[1].valid = false;
    let entry = Entry { path: "p".to_string(), name: "p".to_string(), is_dir: false };
    let windows = vec![
        WindowState { iconic: false, visible: true, remade: 900, listing: Some(vec![entry]) },
        seen(false, true),
    ];
    let mut fx = Vec::new();
    g.zen = true;
    watchdog_tick(&mut g, &windows, &mut fx);
    assert_eq!((g.fences[0].hwnd, g.fences[0].valid, g.fences[0].moving), (900, true, false));
    assert_eq!(g.fences[0].entries.len(), 1);
    assert!(!g.fences[1].valid);
    assert_eq!(
        fx,
        vec![
            Effect::RegisterDrop(900),
            Effect::Show(900, ShowMode::Hide),
            Effect::StopAnimation(900),
            Effect::Render(900),
            Effect::Reserve,
        ]
    );
    assert_eq!(fence_idx(&g, 900), Some(0));
    assert_eq!(fence_idx(&g, 102), None);
}

#[test]
fn fences_are_layered_above_the_desktop() {
    let mut g = global(&[1, 2, 3]);
    g.fences[1].valid = false;
    assert!(desktop_layer_tick(&mut g, false, None).is_none());
    assert_eq!(desktop_layer_tick(&mut g, false, Some(50)), Some((50, vec![101, 103])));
    assert_eq!(g.desktop_host, Some(50));
    assert_eq!(desktop_layer_tick(&mut g, true, Some(60)), Some((50, vec![101, 103])));
    assert_eq!(desktop_layer_tick(&mut g, false, Some(60)), Some((60, vec![101, 103])));
    g.zen = true;
    assert!(desktop_layer_tick(&mut g, false, Some(70)).is_none());
    assert_eq!(g.desktop_host, Some(60));
}

#[test]
fn a_window_is_inserted_only_where_it_is_not_yet() {
    let mut fx = Vec::new();
    layer_restore(5, false, true, &mut fx);
    layer_insert(5, 5, &mut fx);
    assert!(fx.is_empty());
    layer_restore(5, true, true, &mut fx);
    layer_restore(5, false, false, &mut fx);
    layer_insert(5, 6, &mut fx);
    assert_eq!(
        fx,
        vec![
            Effect::Show(5, ShowMode::Restore),
            Effect::Show(5, ShowMode::Restore),
            Effect::InsertAfter { hwnd: 5, above: 6 },
        ]
    );
}
