use feather_fences::config::{Config, FenceCfg};
use feather_fences::effect::Effect;
use feather_fences::fence::Fence;
use feather_fences::geometry::{cell_h, cell_w, half, magnet, rects_overlap, snap_size, Rect};
use feather_fences::layout::{overlaps_any, settle_all, settle_fence};
use feather_fences::lifecycle::start;
use feather_fences::state::Global;

fn global(rects: &[(i32, i32, i32, i32)]) -> Global {
    let mut g = start(Config::default(), 1, &Vec::new());
    for (i, &(x, y, w, h)) in rects.iter().enumerate() {
        let cfg = FenceCfg { id: i as u32 + 1, x, y, w, h, ..Default::default() };
        g.fences.push(Fence::new(cfg, 100 + i as u64, 96));
    }
    g
}

fn rect(g: &Global, i: usize) -> (i32, i32, i32, i32) {
    let c = &g.fences[i].cfg;
    (c.x, c.y, c.w, c.h)
}

const WA: Rect = Rect { left: 0, top: 0, right: 1920, bottom: 1040 };

fn expected_settle(g: &Global, idx: usize, wa: Rect) -> (i32, i32, i32, i32) {
    let f = &g.fences[idx];
    let (nw, nh) = snap_size(g.icon_px, f.dpi, f.cfg.w, f.cfg.h);
    let (sw, sh) = (cell_w(g.icon_px, f.dpi), cell_h(g.icon_px, f.dpi));
    let mut nx = magnet(f.cfg.x, sw, wa.left, half());
    let mut ny = magnet(f.cfg.y, sh, wa.top, half());
    nx = nx.clamp(wa.left, (wa.right - nw).max(wa.left));
    ny = ny.clamp(wa.top, (wa.bottom - nh).max(wa.top));
    let taken = |x, y| {
        g.fences.iter().enumerate().any(|(i, o)| {
            i != idx && o.valid && rects_overlap(x, y, nw, nh, o.cfg.x, o.cfg.y, o.cfg.w, o.cfg.h)
        })
    };
    if taken(nx, ny) {
        let (bx, by) = (nx, ny);
        'outer: for d in 1..96 {
            for (dx, dy) in [(-d, 0), (d, 0), (0, -d), (0, d)] {
                let (tx, ty) = (bx + dx * sw, by + dy * sh);
                if tx < wa.left || ty < wa.top || tx + nw > wa.right || ty + nh > wa.bottom {
                    continue;
                }
                if !taken(tx, ty) {
                    nx = tx;
                    ny = ty;
                    break 'outer;
                }
            }
        }
    }
    (nx, ny, nw, nh)
}

#[test]
fn fences_settle_where_the_search_finds_room() {
    let mut seed = 77u64;
    let mut next = |n: i32| {
        seed = seed.wrapping_mul(6364136223846793005).wrapping_add(1442695040888963407);
        ((seed >> 33) % n as u64) as i32
    };
    for _ in 0..300 {
        let rects: Vec<(i32, i32, i32, i32)> = (0..6)
            .map(|_| (next(2200) - 150, next(1300) - 150, next(700) + 50, next(600) + 50))
            .collect();
        let mut g = global(&rects);
        let idx = next(6) as usize;
        let want = expected_settle(&g, idx, WA);
        let mut fx = Vec::new();
        settle_fence(&mut g, idx, WA, &mut fx);
        assert_eq!(rect(&g, idx), want);
        let (x, y, w, h) = want;
        let hwnd = 100 + idx as u64;
        assert_eq!(
            fx,
            vec![
                Effect::Place { hwnd, x, y, w, h },
                Effect::StopAnimation(hwnd),
                Effect::Render(hwnd),
                Effect::Save,
                Effect::Reserve,
            ]
        );
        assert_eq!((g.config.fences[idx].x, g.config.fences[idx].w), (x, w));
    }
}

#[test]
fn a_fence_moves_off_another_one() {
    let mut g = global(&[(0, 0, 262, 330), (10, 10, 262, 330)]);
    let mut fx = Vec::new();
    settle_fence(&mut g, 1, WA, &mut fx);
    let (x, y, w, h) = rect(&g, 1);
    assert!(!overlaps_any(&g, 1, x, y, w, h));
    assert_eq!((w, h), (262, 330));
    assert_eq!((x, y), (0, 5 * 70));
    assert_eq!(rect(&g, 0), (0, 0, 262, 330));
}

#[test]
fn lost_fences_do_not_take_room() {
    let mut g = global(&[(0, 0, 262, 330), (10, 10, 262, 330)]);
    g.fences[0].valid = false;
    let mut fx = Vec::new();
    settle_fence(&mut g, 1, WA, &mut fx);
    assert_eq!(rect(&g, 1), (0, 0, 262, 330));
}

#[test]
fn without_room_a_fence_stays_where_it_snapped() {
    let wa = Rect { left: 0, top: 0, right: 270, bottom: 340 };
    let mut g = global(&[(0, 0, 262, 330), (5, 5, 262, 330)]);
    let mut fx = Vec::new();
    settle_fence(&mut g, 1, wa, &mut fx);
    assert_eq!(rect(&g, 1), (0, 0, 262, 330));
}

#[test]
fn a_fence_outside_comes_back_inside() {
    let mut g = global(&[(5000, -900, 262, 330)]);
    let mut fx = Vec::new();
    settle_fence(&mut g, 0, WA, &mut fx);
    let (x, y, w, h) = rect(&g, 0);
    assert!(x >= 0 && y >= 0 && x + w <= 1920 && y + h <= 1040);
}

#[test]
fn an_unknown_index_changes_nothing() {
    let mut g = global(&[(0, 0, 262, 330)]);
    let mut fx = Vec::new();
    settle_fence(&mut g, 1, WA, &mut fx);
    assert!(fx.is_empty());
    assert_eq!(rect(&g, 0), (0, 0, 262, 330));
}

#[test]
fn all_fences_settle_clear_of_each_other() {
    let mut g = global(&[(0, 0, 262, 330), (0, 0, 262, 330), (0, 0, 262, 330)]);
    let mut fx = Vec::new();
    settle_all(&mut g, &vec![WA, WA, WA], &mut fx);
    for i in 0..3 {
        let (x, y, w, h) = rect(&g, i);
        assert!(!overlaps_any(&g, i, x, y, w, h), "{i}");
    }
    assert_eq!(fx.iter().filter(|e| matches!(e, Effect::Save)).count(), 3);
    assert_eq!(g.config.fences.len(), 3);
    let mut g = global(&[]);
    let mut fx = Vec::new();
    settle_all(&mut g, &Vec::new(), &mut fx);
    assert!(fx.is_empty());
}
