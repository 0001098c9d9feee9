use feather_fences::config::{Config, FenceCfg};
use feather_fences::effect::Effect;
use feather_fences::fence::{Entry, Fence};
use feather_fences::geometry::Rect;
use feather_fences::lifecycle::{
    adopt_download_box, begin_create, begin_reload, box_cfg, box_name, create_fence, delete_fence, ensure_download_box,
    portal_cfg, shut_down, start, CreateStep, Creation,
};
use feather_fences::state::{can_draw, can_draw_all, Global};

const WA: Rect = Rect { left: 0, top: 0, right: 1920, bottom: 1040 };

fn empty() -> Global {
    start(Config::default(), 1, &Vec::new())
}

fn with_fences(ids: &[u32]) -> Global {
    let mut g = empty();
    for &id in ids {
        let cfg = FenceCfg { id, x: 300 * id as i32, ..Default::default() };
        g.fences.push(Fence::new(cfg, 100 + id as u64, 96));
    }
    g
}

#[test]
fn the_program_starts_from_its_configuration() {
    let mut c = Config { icon: 0, ..Default::default() };
    c.fences.push(FenceCfg { id: 5, icon: 200, ..Default::default() });
    let g = start(c, 9, &vec!["a".to_string(), "b".to_string(), "a".to_string()]);
    assert_eq!((g.next_id, g.msg_hwnd, g.icon_px, g.config.icon), (6, 9, 128, 200));
    assert_eq!(g.desktop_seen, ["a", "b"]);
    assert!(g.fences.is_empty() && !g.zen && !g.exiting);
    assert_eq!(empty().next_id, 1);
}

#[test]
fn a_fence_without_a_place_joins_the_cascade() {
    for dpi in [96u32, 144, 192] {
        let ms = dpi as f32 / 96.0;
        for n in 0..7u32 {
            let mut g = with_fences(&(1..=n).collect::<Vec<_>>());
            let cfg = FenceCfg { id: 0, x: 0, y: 0, ..Default::default() };
            let next = g.next_id;
            let c = begin_create(&mut g, cfg, (1920, 1080), dpi);
            let k = n as i32 % 5;
            let x = (1920 - (320.0 * ms) as i32 - (20.0 * ms) as i32 - k * (30.0 * ms) as i32).max(0);
            let y = ((80.0 * ms) as i32 + k * (40.0 * ms) as i32).min((1080 - (400.0 * ms) as i32).max(0));
            assert_eq!((c.x, c.y, c.id), (x, y, next));
            assert_eq!(g.next_id, next + 1);
        }
    }
}

#[test]
fn a_fence_with_a_place_and_an_id_keeps_them() {
    let mut g = empty();
    let cfg = FenceCfg { id: 8, x: 0, y: 5, w: 50, h: 20, dpi: 192, ..Default::default() };
    let c = begin_create(&mut g, cfg, (1920, 1080), 96);
    assert_eq!((c.id, c.x, c.y, c.w, c.h), (8, 0, 5, 360, 200));
    assert_eq!(g.next_id, 1);
    let cfg = FenceCfg { id: 8, x: 0, y: 5, w: 50, h: 20, dpi: 0, ..Default::default() };
    let c = begin_create(&mut g, cfg, (1920, 1080), 96);
    assert_eq!((c.w, c.h), (50, 20));
}

#[test]
fn a_small_screen_cannot_push_a_fence_off() {
    let mut g = empty();
    let cfg = FenceCfg { x: 0, y: 0, ..Default::default() };
    let c = begin_create(&mut g, cfg, (100, 100), 192);
    assert_eq!((c.x, c.y), (0, 0));
}

#[test]
fn a_saved_size_is_brought_to_the_dpi_of_the_display() {
    let mut fx = Vec::new();
    let cfg = FenceCfg { id: 1, x: 10, y: 20, w: 520, h: 680, dpi: 192, ..Default::default() };
    let mut c = Creation::new(cfg, 7, 144, &mut fx);
    assert_eq!(c.current_dpi, 144);
    c.round(&mut fx);
    assert_eq!((c.fence.cfg.w, c.fence.cfg.h, c.fence.dpi), (390, 510, 144));
    assert_eq!(fx, vec![Effect::RegisterDrop(7), Effect::Place { hwnd: 7, x: 10, y: 20, w: 390, h: 510 }]);
    assert_eq!(c.observe(144), CreateStep::Finish);
}

#[test]
fn a_size_comes_back_on_the_display_it_was_saved_on() {
    let mut g = with_fences(&[1]);
    g.fences[0].dpi = 144;
    g.fences[0].cfg.w = 501;
    g.fences[0].cfg.h = 333;
    let saved = feather_fences::fence::config_snapshot(&g.fences).remove(0);
    let mut fx = Vec::new();
    let mut c = Creation::new(saved, 7, 144, &mut fx);
    c.round(&mut fx);
    assert_eq!((c.fence.cfg.x, c.fence.cfg.w, c.fence.cfg.h), (300, 501, 333));
    assert_eq!(fx, vec![Effect::RegisterDrop(7)]);
    assert_eq!(c.observe(144), CreateStep::Finish);
}

#[test]
fn an_unknown_dpi_keeps_the_saved_size() {
    let mut fx = Vec::new();
    let cfg = FenceCfg { id: 1, w: 520, h: 680, dpi: 0, ..Default::default() };
    let mut c = Creation::new(cfg, 7, 192, &mut fx);
    c.round(&mut fx);
    assert_eq!((c.fence.cfg.w, c.fence.cfg.h), (520, 680));
    assert_eq!(fx, vec![Effect::RegisterDrop(7)]);
}

#[test]
fn a_window_between_two_displays_comes_to_rest() {
    let mut fx = Vec::new();
    let cfg = FenceCfg { id: 1, x: 1800, y: 20, w: 3000, h: 340, dpi: 96, ..Default::default() };
    let mut c = Creation::new(cfg, 7, 96, &mut fx);
    c.round(&mut fx);
    assert_eq!(c.observe(192), CreateStep::Round);
    c.round(&mut fx);
    assert_eq!((c.fence.cfg.w, c.fence.cfg.h), (6000, 680));
    assert_eq!(c.observe(96), CreateStep::Clamp);
    fx.clear();
    c.clamp(WA, &mut fx);
    assert_eq!(fx, vec![Effect::Place { hwnd: 7, x: 0, y: 20, w: 1920, h: 340 }]);
    assert_eq!(c.fence.dpi, 96);
}

fn listing(names: &[&str]) -> Option<Vec<Entry>> {
    Some(
        names
            .iter()
            .map(|n| Entry { path: format!("D/{n}"), name: n.to_string(), is_dir: false })
            .collect(),
    )
}

#[test]
fn a_created_fence_takes_over_what_its_window_has_become() {
    let mut g = with_fences(&[1]);
    g.fences[0].cfg.x = 0;
    let mut fx = Vec::new();
    let cfg = FenceCfg { id: 4, folder: Some("D".to_string()), ..Default::default() };
    let c = Creation::new(cfg, 7, 96, &mut fx);
    fx.clear();
    let rect = Rect { left: 1000, top: 500, right: 1262, bottom: 830 };
    let id = create_fence(&mut g, c.fence, 96, rect, &listing(&["b", "a"]), WA, &mut fx);
    assert_eq!(id, 4);
    let f = &g.fences[1];
    assert_eq!((f.cfg.x, f.cfg.y, f.cfg.w, f.cfg.h, f.cfg.dpi), (1012, 490, 262, 330, 96));
    assert_eq!(f.entries.iter().map(|e| e.name.as_str()).collect::<Vec<_>>(), ["a", "b"]);
    assert_eq!(
        fx,
        vec![
            Effect::StopAnimation(7),
            Effect::Render(7),
            Effect::Place { hwnd: 7, x: 1012, y: 490, w: 262, h: 330 },
            Effect::StopAnimation(7),
            Effect::Render(7),
            Effect::Save,
            Effect::Reserve,
            Effect::Watch(7, "D".to_string()),
            Effect::Save,
        ]
    );
    assert_eq!(g.config.fences.len(), 2);
    assert_eq!(g.config.fences[1].id, 4);
}

#[test]
fn a_deleted_fence_is_gone_from_the_configuration() {
    let mut g = with_fences(&[1, 2, 3]);
    let mut fx = Vec::new();
    delete_fence(&mut g, 1, &mut fx);
    assert_eq!(g.fences.iter().map(|f| f.cfg.id).collect::<Vec<_>>(), [1, 3]);
    assert_eq!(g.config.fences.iter().map(|f| f.id).collect::<Vec<_>>(), [1, 3]);
    assert_eq!(fx, vec![Effect::Destroy(102), Effect::Save]);
    delete_fence(&mut g, 9, &mut fx);
    assert_eq!((g.fences.len(), fx.len()), (2, 2));
}

#[test]
fn new_fences_start_at_the_upper_right() {
    for dpi in [72u32, 96, 144, 200] {
        let s = (dpi as f32 / 96.0).max(1.0);
        let g = with_fences(&[1, 2, 3, 4, 5, 6, 7]);
        let top = (100.0 * s) as i32 + 2 * (40.0 * s) as i32;
        let p = portal_cfg(&g, "D".to_string(), None, 1920, dpi);
        assert_eq!((p.id, p.x, p.y), (g.next_id, 1920 - (340.0 * s) as i32, top));
        assert_eq!((p.w, p.h, p.dpi), ((280.0 * s) as i32, (340.0 * s) as i32, (96.0 * s).round() as u32));
        assert_eq!((p.title.as_str(), p.icon), ("文件夹栅栏", 32));
        assert_eq!(f32::from_bits(p.opacity), 0.74);
        let b = box_cfg(&g, "D".to_string(), Some("t".to_string()), 1920, dpi);
        assert_eq!((b.id, b.x, b.y, b.w), (0, 1920 - (320.0 * s) as i32, top, (260.0 * s) as i32));
        assert_eq!((b.title.as_str(), b.folder.as_deref()), ("t", Some("D")));
        assert_eq!(box_cfg(&g, "D".to_string(), None, 1920, dpi).title, "收纳箱");
        assert_eq!(portal_cfg(&g, "D".to_string(), Some("n".to_string()), 1920, dpi).title, "n");
    }
}

#[test]
fn boxes_are_numbered_from_the_second_on() {
    assert_eq!(box_name(1), "收纳箱");
    assert_eq!(box_name(2), "收纳箱 2");
    assert_eq!(box_name(10), "收纳箱 10");
}

#[test]
fn the_download_box_is_found_adopted_or_made() {
    let mut fx = Vec::new();
    let mut g = with_fences(&[1, 2]);
    g.config.download_box_id = Some(2);
    assert!(ensure_download_box(&mut g, &vec![true, false], "D".to_string(), 1920, 96, &mut fx).is_none());
    assert_eq!((g.config.download_box_id, fx.len()), (Some(2), 0));

    g.fences[1].valid = false;
    assert!(ensure_download_box(&mut g, &vec![true, true], "D".to_string(), 1920, 96, &mut fx).is_none());
    assert_eq!(g.config.download_box_id, Some(1));
    assert_eq!(fx, vec![Effect::Save]);

    let mut g = with_fences(&[1, 2]);
    let c = ensure_download_box(&mut g, &vec![false, false], "D".to_string(), 1920, 144, &mut fx).unwrap();
    assert_eq!((c.id, c.x, c.y, c.w, c.h, c.dpi), (0, 1440, 150, 390, 510, 144));
    assert_eq!((c.title.as_str(), c.folder.as_deref()), ("下载收纳箱", Some("D")));
    assert_eq!(g.config.download_box_id, None);

    fx.clear();
    adopt_download_box(&mut g, 0, &mut fx);
    assert_eq!((g.config.download_box_id, fx.len()), (None, 0));
    adopt_download_box(&mut g, 2, &mut fx);
    assert_eq!((g.config.download_box_id, fx.len()), (Some(2), 1));
}

#[test]
fn a_reload_removes_all_windows() {
    let mut g = with_fences(&[1, 2, 3]);
    g.fences[1].valid = false;
    let mut fx = Vec::new();
    let c = Config { ghost_mode: true, ..Default::default() };
    begin_reload(&mut g, c, &mut fx);
    assert!(g.fences.is_empty() && g.config.ghost_mode);
    assert_eq!(fx, vec![Effect::Destroy(101), Effect::Destroy(103), Effect::StopWatches]);
}

#[test]
fn the_end_saves_and_withdraws_the_windows() {
    let mut g = with_fences(&[1, 2]);
    g.fences[0].valid = false;
    let mut fx = Vec::new();
    shut_down(&mut g, &mut fx);
    assert!(g.exiting);
    assert_eq!(fx, vec![Effect::Save, Effect::RevokeDrop(102)]);
}

#[test]
fn displays_that_occur_can_be_drawn_on() {
    for px in 16..=128 {
        for dpi in [96, 120, 144, 192, 384, 65_535] {
            assert!(can_draw(px, dpi));
        }
    }
    assert!(can_draw(0, 96));
    assert!(!can_draw(32, u32::MAX));
    assert!(!can_draw(16, 1));
    let mut g = with_fences(&[1, 2]);
    assert!(can_draw_all(&g, 16));
    g.fences[1].dpi = 1;
    assert!(!can_draw_all(&g, 16));
}
