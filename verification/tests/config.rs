use feather_fences::config::{
    boxes_dir, config_dir, config_path, default_vault_dir, dir_state, download_box_dir, downloads_dir,
    ensure_dir, first_free_id, load, migrate_icon, normalize_dpi, normalize_dpi_with_system, save,
    scale_extent_for_dpi, vault_dir, Config, DirState, FenceCfg, Location, RawConfig, RawFence, SweepRule,
};

fn fixture(version: u32, x: i32, w: i32, dpi: u32) -> Config {
    Config {
        version,
        fences: vec![FenceCfg { x, w, dpi, ..Default::default() }],
        ..Default::default()
    }
}

#[test]
fn v1_physical_geometry_stays_physical_and_dpi_remains_unknown() {
    let mut c = fixture(1, 2400, 260, 0);
    normalize_dpi_with_system(&mut c, 192);
    assert_eq!((c.fences[0].x, c.fences[0].w, c.fences[0].dpi), (2400, 260, 0));
    assert_eq!(c.version, 3);
}

#[test]
fn v2_logical_geometry_uses_the_legacy_system_dpi_migration() {
    let mut c = fixture(2, 1000, 260, 0);
    normalize_dpi_with_system(&mut c, 192);
    assert_eq!((c.fences[0].x, c.fences[0].w, c.fences[0].dpi), (2000, 520, 192));
    assert_eq!(c.version, 3);
}

#[test]
fn v3_physical_geometry_is_not_rescaled_by_system_dpi() {
    let mut c = fixture(3, 2000, 520, 192);
    normalize_dpi_with_system(&mut c, 96);
    assert_eq!((c.fences[0].x, c.fences[0].w, c.fences[0].dpi), (2000, 520, 192));
}

#[test]
fn unknown_saved_dpi_preserves_v1_extent() {
    assert_eq!(scale_extent_for_dpi(260, 0, 192), 260);
    assert_eq!(scale_extent_for_dpi(520, 192, 144), 390);
}

fn flag(v: &serde_json::Value, name: &str) -> Option<bool> {
    v.get(name).and_then(|x| x.as_bool())
}

fn number(v: &serde_json::Value, name: &str) -> Option<u32> {
    v.get(name).and_then(|x| x.as_u64()).map(|x| x as u32)
}

fn raw_from(text: &str) -> RawConfig {
    let v: serde_json::Value = serde_json::from_str(text).unwrap();
    RawConfig {
        fences: None,
        sweep_rules: None,
        ghost_mode: flag(&v, "ghost_mode"),
        autostart: flag(&v, "autostart"),
        vault_dir: v.get("vault_dir").and_then(|x| x.as_str()).map(|x| x.to_string()),
        download_box_id: number(&v, "download_box_id"),
        download_enabled: flag(&v, "download_enabled"),
        download_box_visible: flag(&v, "download_box_visible"),
        icon: number(&v, "icon"),
        version: number(&v, "version"),
    }
}

#[test]
fn legacy_config_keeps_download_capture_enabled_and_visible() {
    let c = load(Some(raw_from("{}")));
    assert!(c.download_enabled);
    assert!(c.download_box_visible);
}

#[test]
fn an_empty_file_gets_the_defaults_of_old_versions() {
    let c = load(Some(raw_from("{}")));
    assert_eq!(c.version, 0);
    assert_eq!(c.icon, 32);
    assert!(c.fences.is_empty());
    assert!(!c.ghost_mode);
    assert!(!c.autostart);
    assert_eq!(c.vault_dir, None);
    assert_eq!(c.download_box_id, None);
}

#[test]
fn what_the_file_says_is_taken_over() {
    let c = load(Some(raw_from(
        "{\"ghost_mode\":true,\"autostart\":true,\"vault_dir\":\"D:/v\",\"download_box_id\":4,\
         \"download_enabled\":false,\"download_box_visible\":false,\"icon\":48,\"version\":2}",
    )));
    assert!(c.ghost_mode && c.autostart && !c.download_enabled && !c.download_box_visible);
    assert_eq!(c.vault_dir, Some("D:/v".to_string()));
    assert_eq!((c.download_box_id, c.icon, c.version), (Some(4), 48, 2));
}

#[test]
fn an_unreadable_file_gives_the_default_configuration() {
    let c = load(None);
    assert_eq!((c.version, c.icon), (3, 32));
    assert!(c.download_enabled && c.download_box_visible);
    assert!(c.fences.is_empty() && c.sweep_rules.is_empty());
}

#[test]
fn raw_fences_are_completed() {
    let raw = RawConfig {
        fences: Some(vec![RawFence {
            id: 7,
            title: "a".to_string(),
            folder: Some("C:/x".to_string()),
            x: 1,
            y: 2,
            w: 3,
            h: 4,
            dpi: None,
            opacity: None,
            icon: None,
        }]),
        sweep_rules: Some(vec![SweepRule { ext: ".jpg".to_string(), dest: "C:/p".to_string() }]),
        ..raw_from("{}")
    };
    let c = load(Some(raw));
    let f = &c.fences[0];
    assert_eq!((f.id, f.x, f.y, f.w, f.h, f.dpi, f.icon), (7, 1, 2, 3, 4, 0, 32));
    assert_eq!(f32::from_bits(f.opacity), 0.7);
    assert_eq!(f.title, "a");
    assert_eq!(f.folder, Some("C:/x".to_string()));
    assert_eq!(c.sweep_rules[0].ext, ".jpg");
    assert_eq!(c.sweep_rules[0].dest, "C:/p");
}

#[test]
fn the_default_fence_is_as_documented() {
    let f = FenceCfg::default();
    assert_eq!((f.id, f.x, f.y, f.w, f.h, f.dpi, f.icon), (0, 0, 0, 260, 340, 96, 32));
    assert_eq!(f.title, "栅栏");
    assert_eq!(f.folder, None);
    assert_eq!(f32::from_bits(f.opacity), 0.7);
}

#[test]
fn migration_matches_single_precision_arithmetic() {
    for dpi in [1u32, 95, 96, 97, 120, 144, 168, 192, 250, 400, 65535, 0xffff_ffff] {
        for v in [0i32, 1, -1, 7, 260, -340, 99_999, 16_777_217, i32::MAX, i32::MIN] {
            let mut c = fixture(2, v, v, 0);
            normalize_dpi_with_system(&mut c, dpi);
            let s = dpi as f32 / 96.0;
            let want = if s != 1.0 { (v as f32 * s).round() as i32 } else { v };
            assert_eq!(c.fences[0].x, want, "{v} at {dpi}");
            assert_eq!(c.fences[0].w, want);
            assert_eq!(c.fences[0].dpi, dpi);
        }
    }
}

#[test]
fn migration_is_done_once() {
    let mut c = fixture(2, 1000, 260, 0);
    normalize_dpi_with_system(&mut c, 192);
    normalize_dpi_with_system(&mut c, 144);
    assert_eq!((c.fences[0].x, c.fences[0].w, c.fences[0].dpi), (2000, 520, 192));
}

#[test]
fn the_system_dpi_counts_as_at_least_96() {
    let mut c = fixture(2, 1000, 260, 0);
    normalize_dpi(&mut c, 72);
    assert_eq!((c.fences[0].x, c.fences[0].dpi), (1000, 96));
    let mut c = fixture(2, 1000, 260, 0);
    normalize_dpi(&mut c, 144);
    assert_eq!((c.fences[0].x, c.fences[0].w, c.fences[0].dpi), (1500, 390, 144));
}

fn expected_extent(value: i32, saved: u32, current: u32) -> i32 {
    let from = if saved == 0 { current } else { saved }.max(1) as f64;
    ((value as f64 * current.max(1) as f64) / from).round() as i32
}

#[test]
fn extents_match_double_precision_arithmetic() {
    let mut seed = 12345u64;
    let mut next = || {
        seed = seed.wrapping_mul(6364136223846793005).wrapping_add(1442695040888963407);
        (seed >> 32) as u32
    };
    for _ in 0..4000 {
        let v = next() as i32;
        let a = next();
        let b = next();
        for (value, saved, current) in [
            (v, a, b),
            (v % 10_000, a % 600, b % 600),
            (v, a % 7, b),
            (v, a, b % 5),
            (v, 0, b),
            (v, b, b),
        ] {
            assert_eq!(
                scale_extent_for_dpi(value, saved, current),
                expected_extent(value, saved, current),
                "{value} {saved} {current}"
            );
        }
    }
}

#[test]
fn an_unchanged_dpi_keeps_every_extent() {
    for v in [0, 1, -1, 260, i32::MAX, i32::MIN, 1_234_567_891] {
        for d in [0u32, 1, 3, 96, 97, 144, 0xffff_ffff] {
            assert_eq!(scale_extent_for_dpi(v, 0, d), v);
            assert_eq!(scale_extent_for_dpi(v, d, d), v);
        }
    }
}

#[test]
fn halves_are_rounded_away_from_zero() {
    assert_eq!(scale_extent_for_dpi(1, 192, 96), 1);
    assert_eq!(scale_extent_for_dpi(-1, 192, 96), -1);
    assert_eq!(scale_extent_for_dpi(3, 192, 96), 2);
    assert_eq!(scale_extent_for_dpi(i32::MAX, 96, 192), i32::MAX);
    assert_eq!(scale_extent_for_dpi(i32::MIN, 96, 192), i32::MIN);
}

fn shape(l: Location) -> (String, Vec<String>) {
    (l.root, l.parts)
}

fn strings(v: &[&str]) -> Vec<String> {
    v.iter().map(|s| s.to_string()).collect()
}

#[test]
fn data_lives_under_the_application_data() {
    let a = || Some("C:/data".to_string());
    assert_eq!(shape(config_dir(a())), ("C:/data".to_string(), strings(&["feather-fences"])));
    assert_eq!(shape(config_path(a())).1, strings(&["feather-fences", "config.json"]));
    assert_eq!(shape(default_vault_dir(a())).1, strings(&["feather-fences", "vault"]));
    assert_eq!(shape(boxes_dir(a())).1, strings(&["feather-fences", "boxes"]));
    assert_eq!(shape(download_box_dir(a())).1, strings(&["feather-fences", "boxes", "下载收纳箱"]));
    assert_eq!(shape(config_dir(None)).0, ".");
}

#[test]
fn the_vault_can_be_chosen() {
    let mut c = Config::default();
    let a = Some("C:/data".to_string());
    assert_eq!(shape(vault_dir(&c, a)).1, strings(&["feather-fences", "vault"]));
    c.vault_dir = Some("D:/v".to_string());
    assert_eq!(shape(vault_dir(&c, None)), ("D:/v".to_string(), strings(&[])));
}

#[test]
fn downloads_need_a_profile() {
    assert!(downloads_dir(None).is_none());
    let l = downloads_dir(Some("C:/me".to_string())).unwrap();
    assert_eq!(shape(l), ("C:/me".to_string(), strings(&["Downloads"])));
}

#[test]
fn a_directory_is_ready_blocked_or_made() {
    assert_eq!(dir_state(true, true), DirState::Ready);
    assert_eq!(dir_state(true, false), DirState::Blocked);
    assert_eq!(dir_state(false, false), DirState::Missing);
    assert!(ensure_dir(true, true, false));
    assert!(!ensure_dir(true, false, true));
    assert!(ensure_dir(false, false, true));
    assert!(!ensure_dir(false, false, false));
}

#[test]
fn the_icon_size_moves_from_the_fences() {
    let mut c = Config { icon: 0, ..Default::default() };
    migrate_icon(&mut c);
    assert_eq!(c.icon, 32);
    let mut c = Config { icon: 0, ..Default::default() };
    for icon in [0, 48, 24] {
        c.fences.push(FenceCfg { icon, ..Default::default() });
    }
    migrate_icon(&mut c);
    assert_eq!(c.icon, 48);
    let mut c = Config { icon: 64, ..Default::default() };
    c.fences.push(FenceCfg { icon: 24, ..Default::default() });
    migrate_icon(&mut c);
    assert_eq!(c.icon, 64);
}

#[test]
fn ids_go_on_after_the_largest() {
    let mut c = Config::default();
    assert_eq!(first_free_id(&c), 1);
    for id in [3, 9, 2] {
        c.fences.push(FenceCfg { id, ..Default::default() });
    }
    assert_eq!(first_free_id(&c), 10);
}

#[test]
fn what_is_written_is_read_back() {
    let mut c = Config { ghost_mode: true, icon: 48, vault_dir: Some("V".to_string()), ..Default::default() };
    c.download_box_id = Some(2);
    c.download_box_visible = false;
    c.sweep_rules.push(SweepRule { ext: ".a".to_string(), dest: "D".to_string() });
    c.fences.push(FenceCfg { id: 2, x: -7, dpi: 0, opacity: 0x3e99_999a, icon: 0, ..Default::default() });
    let text = format!("{c:?}");
    assert_eq!(format!("{:?}", load(Some(save(&c)))), text);
}

#[test]
fn an_extent_comes_back_from_a_denser_display() {
    let dpis = [1u32, 72, 96, 97, 120, 144, 192, 250, 65_535];
    for (i, &from) in dpis.iter().enumerate() {
        for &to in &dpis[i..] {
            for v in [0, 1, -1, 7, 260, -341, 9_999, -32_000] {
                let there = scale_extent_for_dpi(v, from, to);
                assert_eq!(scale_extent_for_dpi(there, to, from), v, "{v} {from} {to}");
            }
        }
    }
    // Beyond where double precision is exact, an extent may change on the way.
    let there = scale_extent_for_dpi(1_100_060_597, 2_200_120_585, 2_200_120_586);
    assert_eq!(scale_extent_for_dpi(there, 2_200_120_586, 2_200_120_585), 1_100_060_598);
}
