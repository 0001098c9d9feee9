use feather_fences::config::{Config, FenceCfg};
use feather_fences::effect::Effect;
use feather_fences::fence::{Entry, Fence, ResizeDir};
use feather_fences::geometry::Rect;
use feather_fences::lifecycle::start;
use feather_fences::mouse::{on_button_down, on_button_up, on_double_click, on_mouse_move, on_wheel, Mouse};
use feather_fences::state::Global;

const WA: Rect = Rect { left: 0, top: 0, right: 1920, bottom: 1040 };

fn entry(i: usize) -> Entry {
    Entry { path: format!("D/{i:03}"), name: format!("{i:03}"), is_dir: false }
}

fn global(n: usize) -> Global {
    let mut g = start(Config::default(), 1, &Vec::new());
    let cfg = FenceCfg { id: 1, x: 300, y: 200, w: 262, h: 330, ..Default::default() };
    g.fences.push(Fence::new(cfg, 101, 96));
    g.fences[0].entries = (0..n).map(entry).collect();
    g
}

fn mouse(x: i32, y: i32) -> Mouse {
    Mouse {
        x,
        y,
        cursor: (300 + x, 200 + y),
        rect: Rect { left: 300, top: 200, right: 562, bottom: 530 },
        wa: WA,
        drag_w: 4,
        drag_h: 4,
    }
}

fn smooth(v: f32, step: i32, origin: i32) -> f32 {
    let n = ((v - origin as f32) / step as f32).round();
    let target = origin as f32 + n * step as f32;
    let dist = (target - v).abs();
    let max_range = step as f32 * 0.5;
    if max_range <= 0.0 || dist >= max_range {
        return v;
    }
    let t = 1.0 - dist / max_range;
    v + (target - v) * (t * t)
}

#[test]
fn the_title_moves_a_fence() {
    let mut g = global(0);
    let mut fx = Vec::new();
    on_button_down(&mut g, 101, &mouse(40, 10), &mut fx);
    assert!(g.fences[0].moving);
    assert_eq!(g.fences[0].move_off, (40, 10));
    assert_eq!(fx, vec![Effect::Focus(101), Effect::Capture(101)]);
    for cx in (-200..2200).step_by(13) {
        fx.clear();
        let mut m = mouse(0, 0);
        m.cursor = (cx, 77);
        assert_eq!(on_mouse_move(&mut g, 101, &m, &mut fx), None);
        let x = (smooth((cx - 40) as f32, 44, 0).round() as i32).clamp(0, 1920 - 262);
        let y = (smooth(67.0, 70, 0).round() as i32).clamp(0, 1040 - 330);
        assert_eq!(fx, vec![Effect::Move { hwnd: 101, x, y }], "{cx}");
        assert_eq!((g.fences[0].cfg.x, g.fences[0].cfg.y), (x, y));
    }
    fx.clear();
    on_button_up(&mut g, 101, WA, &mut fx);
    assert!(!g.fences[0].moving);
    assert_eq!(fx[0], Effect::ReleaseCapture);
    assert_eq!(fx.len(), 6);
    assert_eq!(g.fences[0].cfg.y, 70);
}

fn size(v: i32, step: i32, base: i32) -> i32 {
    (smooth(v as f32 - base as f32, step, 0) + base as f32).round() as i32
}

fn expected_resize(dir: ResizeDir, m: &Mouse) -> (i32, i32, i32, i32) {
    let (mut nx, mut ny) = (m.rect.left, m.rect.top);
    let (mut nw, mut nh) = (m.rect.right - nx, m.rect.bottom - ny);
    match dir {
        ResizeDir::E | ResizeDir::NE | ResizeDir::SE => nw = (m.cursor.0 - nx).max(180),
        ResizeDir::W | ResizeDir::NW | ResizeDir::SW => {
            let right = nx + nw;
            nx = m.cursor.0.min(right - 180);
            nw = right - nx;
        }
        _ => {}
    }
    match dir {
        ResizeDir::S | ResizeDir::SE | ResizeDir::SW => nh = (m.cursor.1 - ny).max(100),
        ResizeDir::N | ResizeDir::NE | ResizeDir::NW => {
            let bottom = ny + nh;
            ny = m.cursor.1.min(bottom - 100);
            nh = bottom - ny;
        }
        _ => {}
    }
    let w = size(nw, 44, 42).min((WA.right - nx).max(180));
    let h = size(nh, 70, 50).min((WA.bottom - ny).max(100));
    (nx, ny, w, h)
}

#[test]
fn borders_resize_a_fence() {
    for dir in [
        ResizeDir::N,
        ResizeDir::S,
        ResizeDir::E,
        ResizeDir::W,
        ResizeDir::NW,
        ResizeDir::NE,
        ResizeDir::SW,
        ResizeDir::SE,
    ] {
        for cx in (0..2100).step_by(97) {
            for cy in (0..1200).step_by(83) {
                let mut g = global(3);
                g.fences[0].resizing = Some(dir);
                let mut m = mouse(0, 0);
                m.cursor = (cx, cy);
                let mut fx = Vec::new();
                on_mouse_move(&mut g, 101, &m, &mut fx);
                let (x, y, w, h) = expected_resize(dir, &m);
                let c = &g.fences[0].cfg;
                assert_eq!((c.x, c.y, c.w, c.h), (x, y, w, h), "{dir:?} {cx} {cy}");
                assert_eq!(
                    fx,
                    vec![
                        Effect::Place { hwnd: 101, x, y, w, h },
                        Effect::StopAnimation(101),
                        Effect::Render(101),
                    ]
                );
            }
        }
    }
}

#[test]
fn an_entry_is_selected_and_dragged_out() {
    let mut g = global(6);
    let mut fx = Vec::new();
    on_button_down(&mut g, 101, &mouse(60, 50), &mut fx);
    assert_eq!((g.fences[0].selected, g.fences[0].drag_idx), (Some(1), Some(1)));
    assert_eq!(fx, vec![Effect::Focus(101), Effect::Capture(101), Effect::Render(101)]);
    fx.clear();
    assert_eq!(on_mouse_move(&mut g, 101, &mouse(63, 47), &mut fx), None);
    assert!(fx.is_empty());
    assert_eq!(on_mouse_move(&mut g, 101, &mouse(64, 50), &mut fx), Some("D/001".to_string()));
    assert_eq!(fx, vec![Effect::ReleaseCapture, Effect::Render(101)]);
    assert!(g.fences[0].drag_idx.is_none());
}

#[test]
fn a_larger_threshold_of_the_system_counts() {
    let mut g = global(6);
    let mut fx = Vec::new();
    on_button_down(&mut g, 101, &mouse(60, 50), &mut fx);
    let mut m = mouse(60, 59);
    m.drag_h = 10;
    assert_eq!(on_mouse_move(&mut g, 101, &m, &mut fx), None);
    m.y = 40;
    assert_eq!(on_mouse_move(&mut g, 101, &m, &mut fx), Some("D/001".to_string()));
}

#[test]
fn an_entry_that_vanished_is_not_dragged() {
    let mut g = global(6);
    let mut fx = Vec::new();
    on_button_down(&mut g, 101, &mouse(60, 50), &mut fx);
    g.fences[0].entries.clear();
    fx.clear();
    assert_eq!(on_mouse_move(&mut g, 101, &mouse(160, 50), &mut fx), None);
    assert_eq!(fx, vec![Effect::Render(101)]);
}

#[test]
fn a_click_beside_the_entries_ends_the_selection() {
    let mut g = global(2);
    let mut fx = Vec::new();
    g.fences[0].selected = Some(1);
    on_button_down(&mut g, 101, &mouse(100, 250), &mut fx);
    assert_eq!(g.fences[0].selected, None);
    assert_eq!(fx, vec![Effect::Focus(101), Effect::Render(101)]);
    fx.clear();
    on_button_down(&mut g, 101, &mouse(100, 250), &mut fx);
    assert_eq!(fx, vec![Effect::Focus(101)]);
    fx.clear();
    on_button_down(&mut g, 9, &mouse(100, 250), &mut fx);
    assert_eq!(fx, vec![Effect::Focus(9)]);
    on_button_up(&mut g, 101, WA, &mut fx);
    assert_eq!(fx.len(), 1);
}

#[test]
fn a_simple_click_releases_the_mouse() {
    let mut g = global(2);
    let mut fx = Vec::new();
    on_button_down(&mut g, 101, &mouse(20, 50), &mut fx);
    fx.clear();
    on_button_up(&mut g, 101, WA, &mut fx);
    assert_eq!(fx, vec![Effect::ReleaseCapture]);
    assert_eq!((g.fences[0].selected, g.fences[0].drag_idx), (Some(0), None));
}

#[test]
fn the_mouse_highlights_what_is_under_it() {
    let mut g = global(2);
    let mut fx = Vec::new();
    on_mouse_move(&mut g, 101, &mouse(20, 50), &mut fx);
    assert_eq!((g.fences[0].hover, fx.len()), (Some(0), 1));
    on_mouse_move(&mut g, 101, &mouse(21, 50), &mut fx);
    assert_eq!(fx.len(), 1);
    on_mouse_move(&mut g, 101, &mouse(200, 200), &mut fx);
    assert_eq!((g.fences[0].hover, fx.len()), (None, 2));
}

#[test]
fn a_fading_fence_shows_under_the_mouse() {
    let mut g = global(2);
    let mut fx = Vec::new();
    g.config.ghost_mode = true;
    on_mouse_move(&mut g, 101, &mouse(200, 200), &mut fx);
    assert!(g.fences[0].hover_visible);
    assert_eq!(fx, vec![Effect::TrackLeave(101), Effect::Render(101)]);
    fx.clear();
    on_mouse_move(&mut g, 101, &mouse(200, 201), &mut fx);
    assert!(fx.is_empty());
}

#[test]
fn a_double_click_renames_or_opens() {
    let g = global(2);
    let mut fx = Vec::new();
    on_double_click(&g, 101, 96, 50, 10, &mut fx);
    on_double_click(&g, 101, 96, 60, 50, &mut fx);
    on_double_click(&g, 101, 96, 200, 200, &mut fx);
    on_double_click(&g, 55, 96, 60, 50, &mut fx);
    on_double_click(&g, 101, 192, 60, 50, &mut fx);
    assert_eq!(fx, vec![Effect::Rename(101), Effect::Open("D/001".to_string()), Effect::Rename(101)]);
}

fn turn(delta: i16) -> u64 {
    ((delta as u16) as u64) << 16
}

#[test]
fn the_wheel_turns_pages() {
    let mut g = global(100);
    let mut fx = Vec::new();
    on_wheel(&mut g, 101, turn(-120), &mut fx);
    assert_eq!((g.fences[0].page, g.fences[0].animating, g.fences[0].anim_frames), (1, true, 1));
    assert_eq!(fx, vec![Effect::StartAnimation(101), Effect::Render(101)]);
    fx.clear();
    on_wheel(&mut g, 101, turn(-240), &mut fx);
    assert_eq!(g.fences[0].page, 3);
    assert_eq!(fx, vec![Effect::Render(101)]);
    on_wheel(&mut g, 101, turn(-32768), &mut fx);
    assert_eq!(g.fences[0].page, 4);
    on_wheel(&mut g, 101, turn(32767), &mut fx);
    assert_eq!(g.fences[0].page, 0);
    assert!(g.fences[0].wheel_acc.abs() < 120);
    fx.clear();
    on_wheel(&mut g, 101, turn(0), &mut fx);
    on_wheel(&mut g, 7, turn(120), &mut fx);
    assert!(fx.is_empty());
}

#[test]
fn small_turns_add_up() {
    let mut g = global(100);
    let mut fx = Vec::new();
    for _ in 0..3 {
        on_wheel(&mut g, 101, turn(-30), &mut fx);
    }
    assert_eq!((g.fences[0].page, g.fences[0].wheel_acc), (0, -90));
    assert!(fx.is_empty());
    on_wheel(&mut g, 101, turn(-40), &mut fx);
    assert_eq!((g.fences[0].page, g.fences[0].wheel_acc), (1, -10));
    on_wheel(&mut g, 101, turn(120), &mut fx);
    assert_eq!((g.fences[0].page, g.fences[0].wheel_acc), (1, 110));
}

#[test]
fn at_the_ends_the_wheel_only_redraws() {
    let mut g = global(3);
    let mut fx = Vec::new();
    on_wheel(&mut g, 101, turn(-120), &mut fx);
    on_wheel(&mut g, 101, turn(120), &mut fx);
    assert_eq!(g.fences[0].page, 0);
    assert_eq!(fx, vec![Effect::Render(101), Effect::Render(101)]);
}

#[test]
fn without_a_window_the_wheel_turns_pages_without_a_timer() {
    let mut g = global(100);
    g.fences[0].hwnd = 0;
    let mut fx = Vec::new();
    on_wheel(&mut g, 0, turn(-120), &mut fx);
    assert_eq!((g.fences[0].page, g.fences[0].animating, g.fences[0].anim_frames), (1, false, 1));
    assert_eq!(fx, vec![Effect::Render(0)]);
}
