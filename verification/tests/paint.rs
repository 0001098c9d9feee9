use feather_fences::config::FenceCfg;
use feather_fences::fence::{grid_dims, sync_page, total_pages, Entry, Fence};
use feather_fences::float::{Float, SINGLE};
use feather_fences::paint::{
    add_rounded_path, circle_square, corner_radius, display_title, draw_label, draw_outlined_text, ensure_cache, label_halves, needs_surface,
    paint_core, premultiply, premultiply_all, render_fence, tint, Frame, Label, RectF,
};

const ICON: u32 = 32;

fn single(f: Float) -> f32 {
    (f.mant as f64 * 2f64.powi(f.exp)) as f32
}

fn quad(r: RectF) -> (f32, f32, f32, f32) {
    (single(r.x), single(r.y), single(r.w), single(r.h))
}

fn fence(dpi: u32, n: usize) -> Fence {
    let cfg = FenceCfg { w: 401, h: 503, ..Default::default() };
    let mut f = Fence::new(cfg, 7, dpi);
    f.entries = (0..n)
        .map(|i| Entry { path: format!("{i}"), name: format!("n{i}"), is_dir: false })
        .collect();
    f
}

struct Expected {
    index: usize,
    panel: (f32, f32, f32, f32),
    icon: (i32, i32),
    label: (f32, f32, f32, f32),
}

fn expected_cells(f: &Fence) -> Vec<Expected> {
    let mut out = Vec::new();
    let d = f.dpi as f32 / 96.0;
    let (w, h) = (f.cfg.w, f.cfg.h);
    let (m, r, t, lh) = ((10.0 * d) as i32, (22.0 * d) as i32, (30.0 * d) as i32, (38.0 * d) as i32);
    let icon = (ICON as f32 * d).round() as i32;
    let cell_h = icon + lh;
    let (cols, rows) = grid_dims(f, ICON);
    if rows <= 0 {
        return out;
    }
    let top_row = single(f.top_row);
    let cell_w = (w - 2 * m - r) as f32 / cols.max(1) as f32;
    let row0 = top_row.floor() as i32 - 1;
    for row in row0..(row0 + rows + 2) {
        if row < 0 {
            continue;
        }
        let y = t as f32 + m as f32 + (row as f32 - top_row) * cell_h as f32;
        if y >= h as f32 {
            break;
        }
        for col in 0..cols {
            let index = (row * cols + col) as usize;
            if index >= f.entries.len() {
                break;
            }
            let x = m as f32 + col as f32 * cell_w;
            out.push(Expected {
                index,
                panel: (x - 3.0, y - 2.0, cell_w + 6.0, (icon + lh) as f32 + 4.0),
                icon: ((x + (cell_w - icon as f32) / 2.0).round() as i32, y.round() as i32),
                label: (x - 2.0, y + icon as f32 + 3.0, cell_w + 4.0, lh as f32 - 4.0),
            });
        }
    }
    out
}

fn fraction(n: i128, d: i128) -> Float {
    Float::from_int(SINGLE, n).div(SINGLE, Float::from_int(SINGLE, d))
}

#[test]
fn entries_are_drawn_where_single_precision_puts_them() {
    for dpi in [96, 120, 144, 192, 250] {
        for n in [1, 17, 40, 90] {
            for (a, b) in [(0, 1), (1, 1), (4, 1), (7, 3), (10, 7), (29, 13), (1, 1000), (40, 1), (-7, 3)] {
                let mut f = fence(dpi, n);
                f.top_row = fraction(a, b);
                let cells = paint_core(&f, ICON, 200).cells;
                let want = expected_cells(&f);
                assert_eq!(cells.len(), want.len(), "{dpi} {n} {a}/{b}");
                for (c, e) in cells.iter().zip(want.iter()) {
                    assert_eq!(c.index, e.index);
                    assert_eq!(quad(c.panel), e.panel);
                    assert_eq!(c.icon, e.icon);
                    assert_eq!(quad(c.label), e.label);
                }
            }
        }
    }
}

#[test]
fn a_page_at_rest_shows_its_entries() {
    let mut fx = Vec::new();
    let mut f = fence(96, 150);
    let (cols, rows) = grid_dims(&f, ICON);
    f.page = 1;
    sync_page(&mut f, ICON, &mut fx);
    let p = paint_core(&f, ICON, 200);
    let top = single(p.clip.0);
    let bottom = top + single(p.clip.1);
    let inside: Vec<usize> = p
        .cells
        .iter()
        .filter(|c| (c.icon.1 as f32) >= top && (c.icon.1 as f32) < bottom)
        .map(|c| c.index)
        .collect();
    let per_page = (cols * rows) as usize;
    assert_eq!(inside, (per_page..2 * per_page).collect::<Vec<_>>());
    assert_eq!(p.icon_clip, (40, 40 + (rows * 70) as i64));
}

#[test]
fn selected_and_hovered_entries_are_highlighted() {
    let mut f = fence(96, 5);
    f.selected = Some(1);
    f.hover = Some(2);
    let colors: Vec<Option<u32>> = paint_core(&f, ICON, 200).cells.iter().map(|c| c.highlight).collect();
    assert_eq!(colors, vec![None, Some(0x55FF_FFFF), Some(0x22FF_FFFF), None, None]);
    f.hover = Some(1);
    assert_eq!(paint_core(&f, ICON, 200).cells[1].highlight, Some(0x55FF_FFFF));
}

#[test]
fn an_empty_fence_says_so() {
    let mut f = fence(144, 0);
    let p = paint_core(&f, ICON, 178);
    assert!(p.cells.is_empty() && p.dots.is_empty());
    let hint = p.hint.unwrap();
    assert_eq!(hint.text, "将文件拖入此处收纳");
    assert_eq!(quad(hint.rect), (10.0, 55.0, 381.0, 438.0));
    assert_eq!(p.icon_clip, (60, 60));
    f.cfg.folder = Some("F".to_string());
    assert_eq!(paint_core(&f, ICON, 178).hint.unwrap().text, "空文件夹");
    assert!(paint_core(&fence(96, 1), ICON, 178).hint.is_none());
}

#[test]
fn the_title_leaves_room_for_the_rail() {
    for dpi in [96u32, 120, 144, 200] {
        let d = dpi as f32 / 96.0;
        let p = paint_core(&fence(dpi, 0), ICON, 255);
        assert_eq!(quad(p.title), (0.0, 0.0, (401 - (22.0 * d) as i32).max(1) as f32, ((30.0 * d) as i32) as f32));
        assert_eq!(single(p.title_size), 11.5 * d);
        assert_eq!(single(p.label_size), 12.0 * d);
        assert_eq!(p.icon_size, (32.0 * d).round() as i32);
    }
    let mut f = fence(96, 0);
    f.cfg.w = 5;
    assert_eq!(quad(paint_core(&f, ICON, 255).title).2, 1.0);
}

#[test]
fn a_folder_without_a_title_shows_its_name() {
    let mut f = fence(96, 0);
    let name = || Some("docs".to_string());
    assert_eq!(display_title(&f, name()), "栅栏");
    f.cfg.title.clear();
    assert_eq!(display_title(&f, name()), "");
    f.cfg.folder = Some("C:/docs".to_string());
    assert_eq!(display_title(&f, name()), "docs");
    assert_eq!(display_title(&f, None), "");
    f.cfg.title = "t".to_string();
    assert_eq!(display_title(&f, name()), "t");
}

#[test]
fn page_dots_grow_and_brighten_with_their_page() {
    for dpi in [96u32, 144, 250] {
        for (a, b) in [(0, 1), (5, 1), (7, 3), (29, 13)] {
            let mut f = fence(dpi, 90);
            f.top_row = fraction(a, b);
            let pages = total_pages(&f, ICON);
            let rows = grid_dims(&f, ICON).1;
            let dots = paint_core(&f, ICON, 200).dots;
            assert_eq!(dots.len(), pages);
            let d = dpi as f32 / 96.0;
            let (m, r, t) = ((10.0 * d) as i32, (22.0 * d) as i32, (30.0 * d) as i32);
            let pfrac = single(f.top_row) / rows as f32;
            let dot_r = 2.5 * d;
            let spacing = 15.0 * d;
            let cy0 = (t as f32 + f.cfg.h as f32) / 2.0 - spacing * (pages as f32 - 1.0) / 2.0;
            let cx = f.cfg.w as f32 - m as f32 - r as f32 / 2.0;
            for (p, dot) in dots.iter().enumerate() {
                let act = (1.0 - (pfrac - p as f32).abs()).clamp(0.0, 1.0);
                let radius = dot_r + dot_r * 0.8 * act;
                let alpha = (0x4D as f32 + (0xFF - 0x4D) as f32 * act) as u32;
                assert_eq!((single(dot.x), single(dot.y)), (cx, cy0 + p as f32 * spacing));
                assert_eq!(single(dot.radius), radius);
                assert_eq!(dot.color, (alpha << 24) | 0x00FF_FFFF);
                if act > 0.01 {
                    let (color, wide) = dot.glow.unwrap();
                    assert_eq!(color, (((0x40 as f32) * act) as u32) << 24 | 0x00FF_FFFF);
                    assert_eq!(single(wide), radius * 2.0);
                } else {
                    assert!(dot.glow.is_none());
                }
            }
        }
    }
    assert!(paint_core(&fence(96, 3), ICON, 200).dots.is_empty());
}

#[test]
fn a_frame_needs_a_size_and_a_window() {
    let mut f = fence(96, 0);
    assert_eq!(render_fence(&f, false), Some(Frame { w: 401, h: 503, background: 178, global: 255 }));
    assert_eq!(render_fence(&f, true).unwrap().global, (255.0 * 0.16f32) as u8);
    f.hover_visible = true;
    assert_eq!(render_fence(&f, true).unwrap().global, 255);
    f.cfg.w = 0;
    assert_eq!(render_fence(&f, false), None);
    f.cfg.w = 1;
    f.cfg.h = -1;
    assert_eq!(render_fence(&f, false), None);
    f.cfg.h = 1;
    f.hwnd = 0;
    assert_eq!(render_fence(&f, false), None);
}

#[test]
fn a_surface_is_made_when_the_size_changes() {
    let mut f = fence(96, 0);
    assert!(needs_surface(&f, 10, 20));
    assert!(!ensure_cache(&mut f, 10, 20, false));
    assert!(ensure_cache(&mut f, 10, 20, true));
    assert!(!needs_surface(&f, 10, 20));
    assert!(ensure_cache(&mut f, 10, 20, false));
    assert!(needs_surface(&f, 10, 21));
    assert!(!ensure_cache(&mut f, 10, 21, false));
    assert_eq!(f.cache, None);
}

#[test]
fn the_panel_is_tinted() {
    for a in 0..=255u8 {
        assert_eq!(tint(a), (((a as u32) * 170 / 255) << 24) | 0x001A_1C20);
    }
}

fn expected_pixel(p: u32, g: u32) -> u32 {
    let a = (p >> 24) & 0xFF;
    if a == 0 {
        return 0;
    }
    let a2 = a * g / 255;
    let b = ((p & 0xFF) * a2) / 255;
    let gr = (((p >> 8) & 0xFF) * a2) / 255;
    let r = (((p >> 16) & 0xFF) * a2) / 255;
    (a2 << 24) | (r << 16) | (gr << 8) | b
}

#[test]
fn pixels_are_premultiplied() {
    let mut seed = 11u64;
    let mut pixels = Vec::new();
    for _ in 0..20_000 {
        seed = seed.wrapping_mul(6364136223846793005).wrapping_add(1442695040888963407);
        pixels.push((seed >> 32) as u32);
    }
    pixels.extend([0, u32::MAX, 0x00FF_FFFF, 0xFF00_0000]);
    for g in [0u8, 1, 40, 128, 255] {
        for &p in &pixels {
            assert_eq!(premultiply(p, g), expected_pixel(p, g as u32));
        }
        let mut all = pixels.clone();
        premultiply_all(&mut all, g);
        assert_eq!(all, pixels.iter().map(|&p| expected_pixel(p, g as u32)).collect::<Vec<_>>());
    }
    assert_eq!(premultiply(0x80FF_0000, 255), 0x8080_0000);
}

#[test]
fn labels_take_one_line_or_two() {
    let room = Float::from_int(SINGLE, 50);
    let width = |w: f32| w.to_bits();
    assert!(matches!(draw_label("abc", 3, width(50.5), room), Label::One));
    assert!(matches!(draw_label("abc", -1, width(10.0), room), Label::One));
    assert!(matches!(draw_label("", 0, width(0.0), room), Label::One));
    assert!(matches!(draw_label("abc", 3, width(50.6), room), Label::Two(a, b) if a == "abc" && b.is_empty()));
    assert!(matches!(draw_label("abc", 2, width(10.0), room), Label::Two(a, b) if a == "ab" && b == "c"));
    assert!(matches!(draw_label("abc", 0, width(10.0), room), Label::Two(a, b) if a == "a" && b == "bc"));
    assert!(matches!(draw_label("a😀", 2, width(10.0), room), Label::Two(a, b) if a == "a" && b == "😀"));
    assert!(matches!(draw_label("😀b", 1, width(10.0), room), Label::Two(a, b) if a == "😀" && b == "b"));
    assert!(matches!(draw_label("abc", 3, width(f32::NAN), room), Label::Two(_, _)));
    assert!(matches!(draw_label("abc", 3, width(f32::INFINITY), room), Label::Two(_, _)));
    assert!(matches!(draw_label("abc", 3, width(f32::NEG_INFINITY), room), Label::One));
}

fn rect(x: i128, y: i128, w: i128, h: i128) -> RectF {
    let f = |v| Float::from_int(SINGLE, v);
    RectF { x: f(x), y: f(y), w: f(w), h: f(h) }
}

#[test]
fn the_lines_of_a_label_share_its_height() {
    let (a, b) = label_halves(rect(1, 2, 30, 35));
    assert_eq!(quad(a), (1.0, 2.0, 30.0, 17.5));
    assert_eq!(quad(b), (1.0, 19.5, 30.0, 17.5));
}

#[test]
fn a_text_is_outlined_in_eight_directions() {
    let around: Vec<(f32, f32)> =
        draw_outlined_text(rect(10, 20, 5, 6)).into_iter().map(|r| (single(r.x), single(r.y))).collect();
    assert_eq!(
        around,
        vec![
            (9.0, 20.0),
            (11.0, 20.0),
            (10.0, 19.0),
            (10.0, 21.0),
            (9.0, 19.0),
            (11.0, 19.0),
            (9.0, 21.0),
            (11.0, 21.0),
        ]
    );
}

#[test]
fn corners_are_at_most_half_a_side() {
    let f = |v| Float::from_int(SINGLE, v);
    assert_eq!(single(corner_radius(f(100), f(80), f(8))), 8.0);
    assert_eq!(single(corner_radius(f(10), f(80), f(8))), 5.0);
    assert_eq!(single(corner_radius(f(100), f(7), f(8))), 3.5);
}

#[test]
fn a_rounded_rectangle_has_four_corners() {
    let arcs: Vec<(f32, f32, f32, u32)> = add_rounded_path(rect(10, 20, 100, 60), Float::from_int(SINGLE, 8))
        .into_iter()
        .map(|a| (single(a.x), single(a.y), single(a.extent), a.start))
        .collect();
    assert_eq!(
        arcs,
        vec![(10.0, 20.0, 16.0, 180), (94.0, 20.0, 16.0, 270), (94.0, 64.0, 16.0, 0), (10.0, 64.0, 16.0, 90)]
    );
}

#[test]
fn a_circle_stands_in_its_square() {
    let f = |v| Float::from_int(SINGLE, v);
    assert_eq!(quad(circle_square(f(10), f(20), f(3))), (7.0, 17.0, 6.0, 6.0));
}
