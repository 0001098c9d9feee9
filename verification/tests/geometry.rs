use feather_fences::float::{Float, SINGLE};
use feather_fences::geometry::{
    cell_h, cell_w, dpi_scale, dpi_units, edge, half, icon, label_h, magnet, magnet_size_smooth, magnet_smooth, margin,
    min_h, min_w, rail, rects_overlap, set_icon_px, snap_size, title_h, window_dpi,
};

fn single(f: Float) -> f32 {
    (f.mant as f64 * 2f64.powi(f.exp)) as f32
}

fn dpis() -> Vec<u32> {
    let mut v: Vec<u32> = (1..1500).collect();
    v.extend([2000, 9600, 30_001, 65_535]);
    v
}

#[test]
fn lengths_follow_the_scale_factor() {
    for dpi in dpis() {
        let d = dpi as f32 / 96.0;
        assert_eq!(title_h(dpi), (30.0 * d) as i32, "{dpi}");
        assert_eq!(edge(dpi), (8.0 * d) as i32);
        assert_eq!(margin(dpi), (10.0 * d) as i32);
        assert_eq!(rail(dpi), (22.0 * d) as i32);
        assert_eq!(label_h(dpi), (38.0 * d) as i32);
        assert_eq!(min_w(dpi), (180.0 * d) as i32);
        assert_eq!(min_h(dpi), (100.0 * d) as i32);
        for px in [0u32, 16, 24, 32, 48, 64, 128] {
            let base = if px == 0 { 32 } else { px };
            let i = (base as f32 * d).round() as i32;
            assert_eq!(icon(px, dpi), i);
            assert_eq!(cell_w(px, dpi), i + 12);
            assert_eq!(cell_h(px, dpi), i + (38.0 * d) as i32);
        }
        assert_eq!(dpi_units(dpi), (d * 96.0).round() as u32);
        assert_eq!(dpi_units(dpi), dpi);
    }
}

#[test]
fn a_title_is_as_high_as_single_precision_makes_it() {
    assert_eq!(title_h(400), 124);
    assert_eq!(title_h(96), 30);
    assert_eq!(title_h(144), 45);
}

#[test]
fn a_dpi_counts_as_at_least_96() {
    assert_eq!(dpi_scale(0), 96);
    assert_eq!(dpi_scale(95), 96);
    assert_eq!(window_dpi(72), 96);
    assert_eq!(window_dpi(120), 120);
}

#[test]
fn icons_are_between_16_and_128() {
    assert_eq!(set_icon_px(0), 16);
    assert_eq!(set_icon_px(16), 16);
    assert_eq!(set_icon_px(48), 48);
    assert_eq!(set_icon_px(129), 128);
    assert_eq!(set_icon_px(u32::MAX), 128);
}

fn expected_magnet(v: i32, step: i32, origin: i32, factor: f32) -> i32 {
    if step <= 0 {
        return v;
    }
    let rel = (v - origin) as f32;
    let n = (rel / step as f32).round();
    let target = origin + (n as i32) * step;
    if ((target - v).abs() as f32) <= step as f32 * factor {
        target
    } else {
        v
    }
}

fn expected_smooth(v: f32, step: i32, origin: i32, range: f32) -> f32 {
    if step <= 0 {
        return v;
    }
    let rel = v - origin as f32;
    let n = (rel / step as f32).round();
    let target = origin as f32 + n * step as f32;
    let dist = (target - v).abs();
    let max_range = step as f32 * range;
    if max_range <= 0.0 || dist >= max_range {
        return v;
    }
    let t = 1.0 - dist / max_range;
    let pull = t * t;
    v + (target - v) * pull
}

#[test]
fn magnets_match_single_precision_arithmetic() {
    for step in [-3, 0, 1, 7, 44, 70, 88, 1000] {
        for origin in [-1920, -7, 0, 40, 2560] {
            for v in -400..400 {
                for v in [v, v * 17 + 3, v * 5003] {
                    assert_eq!(magnet(v, step, origin, half()), expected_magnet(v, step, origin, 0.5));
                    let f = Float::from_int(SINGLE, v as i128);
                    let s = magnet_smooth(f, step, origin, half());
                    assert_eq!(single(s), expected_smooth(v as f32, step, origin, 0.5), "{v} {step} {origin}");
                    let s = magnet_size_smooth(f, step, 42, half());
                    let want = expected_smooth(v as f32 - 42.0, step, 0, 0.5) + 42.0;
                    assert_eq!(single(s), want, "{v} {step}");
                }
            }
        }
    }
}

#[test]
fn a_larger_tolerance_snaps_as_well_and_a_snapped_position_stays() {
    let factors = [half(), half().add(SINGLE, half()), Float::from_int(SINGLE, 3)];
    for factor in factors {
        for v in -500..500 {
            let p = magnet(v, 44, 13, factor);
            assert_eq!(p, magnet(v, 44, 13, half()));
            assert_eq!(magnet(p, 44, 13, factor), p);
        }
    }
    // Too far away for single precision to tell which line is nearest.
    assert_eq!(magnet(16_777_213, 3, 0, half()), 16_777_213);
    assert_eq!(expected_magnet(16_777_213, 3, 0, 0.5), 16_777_213);
}

#[test]
fn a_released_fence_always_lands_on_the_grid() {
    for v in -500..500 {
        let p = magnet(v, 44, 13, half());
        assert_eq!((p - 13).rem_euclid(44), 0);
        assert!((p - v).abs() <= 22);
    }
}

#[test]
fn a_dragged_fence_rests_on_a_grid_line_and_is_free_between_two() {
    for k in -5..5 {
        let on = Float::from_int(SINGLE, 13 + 44 * k);
        assert_eq!(single(magnet_smooth(on, 44, 13, half())), (13 + 44 * k) as f32);
        let between = Float::from_int(SINGLE, 13 + 44 * k + 22);
        assert_eq!(single(magnet_smooth(between, 44, 13, half())), (13 + 44 * k + 22) as f32);
    }
}

#[test]
fn a_dragged_fence_stays_between_the_mouse_and_the_grid_line() {
    for v in -300..300 {
        let r = single(magnet_smooth(Float::from_int(SINGLE, v), 44, 13, half()));
        let line = magnet(v as i32, 44, 13, half()) as f32;
        let v = v as f32;
        assert!(if v <= line { v <= r && r <= line } else { line <= r && r <= v }, "{v} {r} {line}");
    }
}

fn expected_snap(px: u32, dpi: u32, w: i32, h: i32) -> (i32, i32) {
    let d = dpi as f32 / 96.0;
    let i = (px as f32 * d).round() as i32;
    let (cw, ch) = (i + 12, i + (38.0 * d) as i32);
    let (m, r, t) = ((10.0 * d) as i32, (22.0 * d) as i32, (30.0 * d) as i32);
    let mut cols = (((w - 2 * m - r) as f32 / cw as f32).round().max(1.0)) as i32;
    let mut rows = (((h - t - 2 * m) as f32 / ch as f32).round().max(1.0)) as i32;
    while 2 * m + r + cols * cw < (180.0 * d) as i32 {
        cols += 1;
    }
    while t + 2 * m + rows * ch < (100.0 * d) as i32 {
        rows += 1;
    }
    (2 * m + r + cols * cw, t + 2 * m + rows * ch)
}

#[test]
fn sizes_snap_to_whole_cells() {
    for dpi in [96, 120, 144, 192, 250, 400] {
        for px in [16, 24, 32, 48, 64, 128] {
            for w in (-100..3000).step_by(37) {
                for h in [-5, 0, 100, 211, 340, 999, 2160] {
                    assert_eq!(snap_size(px, dpi, w, h), expected_snap(px, dpi, w, h), "{px} {dpi} {w} {h}");
                }
            }
        }
    }
    assert_eq!(snap_size(32, 96, 260, 340), (262, 330));
    assert_eq!(snap_size(32, 96, 180, 100), (218, 120));
    assert_eq!(snap_size(32, 96, -9, -9), (218, 120));
}

#[test]
fn rectangles_that_touch_do_not_overlap() {
    assert!(rects_overlap(0, 0, 10, 10, 9, 9, 10, 10));
    assert!(!rects_overlap(0, 0, 10, 10, 10, 0, 10, 10));
    assert!(!rects_overlap(0, 0, 10, 10, 0, 10, 10, 10));
    assert!(rects_overlap(9, 9, 10, 10, 0, 0, 10, 10));
    assert!(!rects_overlap(i32::MAX, 0, i32::MAX, 1, 0, 0, 1, 1));
}
