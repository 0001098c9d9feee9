use feather_fences::config::FenceCfg;
use feather_fences::effect::Effect;
use feather_fences::fence::{
    config_snapshot, grid_dims, high16, hit_item, low16, page_size, refresh_entries, resize_dir_at, sort_entries,
    start_page_anim, step_page_anim, sync_page, total_pages, Entry, Fence, ResizeDir,
};
use feather_fences::float::{Float, SINGLE};

const ICON: u32 = 32;

fn single(f: Float) -> f32 {
    (f.mant as f64 * 2f64.powi(f.exp)) as f32
}

fn entry(name: &str, is_dir: bool) -> Entry {
    Entry { path: format!("C:/dir/{name}"), name: name.to_string(), is_dir }
}

fn items(n: usize) -> Vec<Entry> {
    (0..n).map(|i| entry(&format!("item-{i:02}.txt"), false)).collect()
}

fn fence(hwnd: u64) -> Fence {
    let cfg = FenceCfg { folder: Some("C:/dir".to_string()), ..FenceCfg::default() };
    Fence::new(cfg, hwnd, 96)
}

#[test]
fn refresh_preserves_page_and_clamps_when_contents_shrink() {
    let mut fx = Vec::new();
    let mut f = fence(0);
    f.page = 1;
    refresh_entries(&mut f, &Some(items(40)), ICON, &mut fx);
    assert_eq!(f.page, 1);
    assert_eq!(single(f.top_row), grid_dims(&f, ICON).1 as f32);

    refresh_entries(&mut f, &Some(Vec::new()), ICON, &mut fx);
    assert_eq!(f.page, 0);
    assert_eq!(single(f.top_row), 0.0);
    assert!(fx.is_empty());
}

#[test]
fn a_new_fence_is_at_rest() {
    let f = fence(5);
    assert_eq!((f.hwnd, f.dpi, f.page, f.wheel_acc, f.valid), (5, 96, 0, 0, true));
    assert!(f.entries.is_empty() && !f.animating && !f.moving && f.resizing.is_none());
    assert!(f.hover.is_none() && f.selected.is_none() && f.drag_idx.is_none());
    assert_eq!(Fence::new(FenceCfg::default(), 1, 72).dpi, 96);
    assert_eq!(Fence::new(FenceCfg::default(), 1, 144).dpi, 144);
}

#[test]
fn the_grid_leaves_room_for_margins_rail_and_title() {
    let mut f = fence(1);
    assert_eq!(grid_dims(&f, ICON), ((260 - 20 - 22) / 44, (340 - 30 - 20) / 70));
    assert_eq!(grid_dims(&f, ICON), (4, 4));
    assert_eq!(page_size(&f, ICON), 16);
    f.cfg.w = 10;
    f.cfg.h = 10;
    assert_eq!(grid_dims(&f, ICON), (1, 0));
    assert_eq!(page_size(&f, ICON), 0);
    assert_eq!(total_pages(&f, ICON), 1);
    f.cfg.w = i32::MIN;
    f.cfg.h = i32::MIN;
    assert_eq!(grid_dims(&f, ICON), (1, 0));
}

#[test]
fn pages_hold_all_entries() {
    let mut f = fence(1);
    for (n, pages) in [(0, 1), (1, 1), (16, 1), (17, 2), (32, 2), (33, 3)] {
        f.entries = items(n);
        assert_eq!(total_pages(&f, ICON), pages, "{n}");
    }
}

#[test]
fn the_page_is_brought_into_range() {
    let mut fx = Vec::new();
    let mut f = fence(9);
    f.entries = items(33);
    f.page = 7;
    f.animating = true;
    sync_page(&mut f, ICON, &mut fx);
    assert_eq!((f.page, f.animating, single(f.top_row)), (2, false, 8.0));
    assert_eq!(fx, vec![Effect::StopAnimation(9)]);
}

#[test]
fn folders_come_first_and_names_are_sorted_without_case() {
    let v = vec![
        entry("b.txt", false),
        entry("Zeta", true),
        entry("A.txt", false),
        entry("alpha", true),
        entry("a.TXT", false),
        entry("中.txt", false),
    ];
    let names: Vec<String> = sort_entries(&v).into_iter().map(|e| e.name).collect();
    assert_eq!(names, ["alpha", "Zeta", "A.txt", "a.TXT", "b.txt", "中.txt"]);
    let mut want: Vec<String> = v.iter().map(|e| e.name.clone()).collect();
    want.sort();
    let mut got = names.clone();
    got.sort();
    assert_eq!(got, want);
}

#[test]
fn sorting_agrees_with_the_standard_library() {
    let mut seed = 5u64;
    let mut v = Vec::new();
    for _ in 0..300 {
        seed = seed.wrapping_mul(6364136223846793005).wrapping_add(1442695040888963407);
        let name: String = (0..(seed >> 60) % 4).map(|i| b"abAB"[((seed >> (20 + 2 * i)) % 4) as usize] as char).collect();
        v.push(Entry { path: format!("{}", v.len()), name, is_dir: (seed >> 40) % 3 == 0 });
    }
    let mut want = v.clone();
    want.sort_by(|a, b| {
        b.is_dir.cmp(&a.is_dir).then_with(|| a.name.to_lowercase().cmp(&b.name.to_lowercase()))
    });
    let paths = |v: &[Entry]| v.iter().map(|e| e.path.clone()).collect::<Vec<_>>();
    assert_eq!(paths(&sort_entries(&v)), paths(&want));
}

#[test]
fn the_selected_file_stays_selected() {
    let mut fx = Vec::new();
    let mut f = fence(2);
    refresh_entries(&mut f, &Some(vec![entry("b", false), entry("c", false)]), ICON, &mut fx);
    f.selected = Some(1);
    f.wheel_acc = 60;
    refresh_entries(&mut f, &Some(vec![entry("c", false), entry("a", false), entry("b", false)]), ICON, &mut fx);
    assert_eq!(f.selected, Some(2));
    assert_eq!(f.wheel_acc, 0);
    refresh_entries(&mut f, &Some(vec![entry("a", false)]), ICON, &mut fx);
    assert_eq!(f.selected, None);
    f.selected = Some(0);
    refresh_entries(&mut f, &None, ICON, &mut fx);
    assert!(f.entries.is_empty() && f.selected.is_none());
}

fn expected_step(frames: u32, from: f32, target: f32) -> (f32, bool) {
    let t = (frames as f32 / 13f32).min(1.0);
    let e = 1.0 - (1.0 - t) * (1.0 - t) * (1.0 - t);
    if t >= 1.0 {
        (target, false)
    } else {
        (from + (target - from) * e, true)
    }
}

#[test]
fn the_animation_takes_thirteen_frames_and_ends_on_the_page() {
    for (from, to) in [(0usize, 1usize), (2, 0), (1, 2)] {
        let mut fx = Vec::new();
        let mut f = fence(3);
        f.entries = items(48);
        f.page = from;
        sync_page(&mut f, ICON, &mut fx);
        f.page = to;
        start_page_anim(&mut f, &mut fx);
        assert!(f.animating);
        let rows = grid_dims(&f, ICON).1 as f32;
        let mut frames = 0;
        loop {
            frames += 1;
            let more = step_page_anim(&mut f, ICON, &mut fx);
            let (row, on) = expected_step(frames, from as f32 * rows, to as f32 * rows);
            assert_eq!((single(f.top_row), more), (row, on), "{frames}");
            if !more {
                break;
            }
        }
        assert_eq!(frames, 13);
        assert!(!f.animating);
        assert_eq!(single(f.top_row), to as f32 * rows);
        assert_eq!(fx, vec![Effect::StopAnimation(3), Effect::StartAnimation(3), Effect::StopAnimation(3)]);
    }
}

#[test]
fn the_animation_moves_toward_its_page_and_never_past_it() {
    for (from, to) in [(0usize, 1usize), (2, 0), (1, 2), (0, 2), (1, 1)] {
        let mut fx = Vec::new();
        let mut f = fence(3);
        f.entries = items(48);
        f.page = from;
        sync_page(&mut f, ICON, &mut fx);
        f.page = to;
        start_page_anim(&mut f, &mut fx);
        let mut rows = vec![single(f.top_row)];
        while step_page_anim(&mut f, ICON, &mut fx) {
            rows.push(single(f.top_row));
        }
        rows.push(single(f.top_row));
        assert_eq!(rows.len(), 14);
        let up = from <= to;
        assert!(rows.windows(2).all(|w| if up { w[0] <= w[1] } else { w[0] >= w[1] }), "{rows:?}");
    }
}

#[test]
fn an_animation_needs_a_window_and_does_not_restart() {
    let mut fx = Vec::new();
    let mut f = fence(0);
    start_page_anim(&mut f, &mut fx);
    assert!(!f.animating && fx.is_empty());
    let mut f = fence(4);
    start_page_anim(&mut f, &mut fx);
    f.anim_frames = 5;
    start_page_anim(&mut f, &mut fx);
    assert_eq!((f.anim_frames, fx.len()), (5, 1));
}

#[test]
fn a_snapshot_holds_the_rectangle_and_the_dpi_of_the_window() {
    let mut f = fence(1);
    f.cfg.x = -1200;
    f.cfg.dpi = 0;
    f.dpi = 144;
    let mut small = fence(2);
    small.dpi = 50;
    let c = config_snapshot(&vec![f, small]);
    assert_eq!((c[0].x, c[0].w, c[0].dpi), (-1200, 260, 144));
    assert_eq!(c[1].dpi, 96);
    assert_eq!(c[0].folder, Some("C:/dir".to_string()));
}

fn expected_hit(f: &Fence, x: i32, y: i32, cols: i32) -> Option<usize> {
    let d = f.dpi as f32 / 96.0;
    let (m, t) = ((10.0 * d) as i32, (30.0 * d) as i32);
    let i = (ICON as f32 * d).round() as i32;
    if f.entries.is_empty() || x < m || y < t + m {
        return None;
    }
    let col = (x - m) / (i + 12);
    let row = (y - t - m) / (i + (38.0 * d) as i32);
    if col >= cols || row < 0 {
        return None;
    }
    let row_abs = (row + single(f.top_row).round() as i32) as i64;
    let idx = row_abs * cols as i64 + col as i64;
    if idx >= 0 && (idx as usize) < f.entries.len() {
        Some(idx as usize)
    } else {
        None
    }
}

#[test]
fn points_hit_the_entries_of_their_cells() {
    let mut fx = Vec::new();
    for dpi in [96, 144] {
        let mut f = fence(1);
        f.dpi = dpi;
        f.cfg.w = 400;
        f.cfg.h = 500;
        f.entries = items(30);
        for page in 0..3 {
            f.page = page;
            sync_page(&mut f, ICON, &mut fx);
            let cols = grid_dims(&f, ICON).0;
            for x in (-5..420).step_by(7) {
                for y in (-5..520).step_by(9) {
                    assert_eq!(hit_item(&f, ICON, x, y, cols), expected_hit(&f, x, y, cols), "{x} {y}");
                }
            }
        }
    }
    let f = fence(1);
    assert_eq!(hit_item(&f, ICON, 20, 60, 4), None);
}

#[test]
fn a_moving_page_hits_the_nearest_row() {
    let mut f = fence(1);
    f.entries = items(40);
    f.top_row = Float::from_int(SINGLE, 5).div(SINGLE, Float::from_int(SINGLE, 2));
    assert_eq!(hit_item(&f, ICON, 10, 40, 4), Some(12));
}

#[test]
fn borders_are_found_by_edge_and_corner() {
    let f = fence(1);
    for (x, y, want) in [
        (0, 0, Some(ResizeDir::NW)),
        (0, 339, Some(ResizeDir::SW)),
        (259, 0, Some(ResizeDir::NE)),
        (252, 332, Some(ResizeDir::SE)),
        (7, 100, Some(ResizeDir::W)),
        (8, 100, None),
        (252, 100, Some(ResizeDir::E)),
        (251, 100, None),
        (100, 7, Some(ResizeDir::N)),
        (100, 332, Some(ResizeDir::S)),
        (100, 331, None),
    ] {
        assert_eq!(resize_dir_at(&f, x, y), want, "{x} {y}");
    }
}

#[test]
fn coordinates_are_signed_halves_of_a_word() {
    assert_eq!((low16(0x0005_fffe), high16(0x0005_fffe)), (-2, 5));
    assert_eq!((low16(0x8000_7fff), high16(0x8000_7fff)), (32767, -32768));
    assert_eq!((low16(u64::MAX), high16(u64::MAX)), (-1, -1));
    assert_eq!(high16(0xff88_0000), -120);
}
