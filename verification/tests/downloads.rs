use feather_fences::config::{Config, FenceCfg, SweepRule};
use feather_fences::downloads::{
    begin_download_tick, begin_sweep, completed, download_target, drop_done, drop_target, exclude_download_dragout,
    find_rule, finish_downloads, handle_drop, ingest_desktop_events, look, observe_downloads, sweep_desktop,
    sweep_failed, sweep_retry_tick, sweep_wanted, Arrival, DesktopFile, Dropped, FileMeta, RetryOutcome, Verdict,
};
use feather_fences::effect::Effect;
use feather_fences::fence::{Entry, Fence};
use feather_fences::lifecycle::start;
use feather_fences::paths::{collect, contains, insert, remove, retain};
use feather_fences::state::{DownloadCandidate, Global, Retry};

fn strings(v: &[&str]) -> Vec<String> {
    v.iter().map(|s| s.to_string()).collect()
}

fn global() -> Global {
    let mut g = start(Config::default(), 1, &Vec::new());
    let cfg = FenceCfg { id: 3, folder: Some("BOX".to_string()), ..Default::default() };
    g.fences.push(Fence::new(cfg, 103, 96));
    g.config.download_box_id = Some(3);
    g
}

fn arrival(name: &str, is_file: bool) -> Arrival {
    Arrival { path: format!("D/{name}"), name: name.to_string(), is_file }
}

#[test]
fn new_downloads_are_taken_up_once() {
    let mut g = global();
    let present = strings(&["D/a.zip", "D/b.zip"]);
    let reports = vec![
        arrival("a.zip", true),
        arrival("a.zip", true),
        arrival("Desktop.ini", true),
        arrival("dir", false),
        arrival("x.crdownload", true),
        arrival("b.zip", true),
    ];
    ingest_desktop_events(&mut g, true, &reports, &present);
    let paths: Vec<String> = g.download_pending.iter().map(|p| p.path.clone()).collect();
    assert_eq!(paths, ["D/a.zip", "D/b.zip"]);
    assert_eq!(g.desktop_seen, ["D/a.zip", "D/b.zip"]);
    assert_eq!(
        g.download_pending[0].state,
        DownloadCandidate { len: u64::MAX, modified: None, stable_ticks: 0 }
    );
    g.download_pending[0].state.stable_ticks = 1;
    ingest_desktop_events(&mut g, true, &reports, &present);
    assert_eq!(g.download_pending.len(), 2);
    assert_eq!(g.download_pending[0].state.stable_ticks, 1);
}

#[test]
fn what_is_gone_is_forgotten_and_may_come_again() {
    let mut g = global();
    g.download_ignored = strings(&["T/x", "T/y"]);
    ingest_desktop_events(&mut g, true, &vec![arrival("a", true)], &strings(&["T/y"]));
    assert!(g.desktop_seen.is_empty());
    assert_eq!(g.download_ignored, ["T/y"]);
    assert_eq!(g.download_pending.len(), 1);
    g.download_pending[0].state.stable_ticks = 2;
    ingest_desktop_events(&mut g, true, &vec![arrival("a", true)], &strings(&["D/a"]));
    assert_eq!(g.download_pending.len(), 1);
    assert_eq!(g.download_pending[0].state.stable_ticks, 0);
    assert_eq!(g.desktop_seen, ["D/a"]);
    assert!(g.download_ignored.is_empty());
}

#[test]
fn without_a_directory_nothing_is_taken_up() {
    let mut g = global();
    g.download_ignored = strings(&["T/x"]);
    ingest_desktop_events(&mut g, false, &vec![arrival("a", true)], &Vec::new());
    assert!(g.download_pending.is_empty());
    assert_eq!(g.download_ignored, ["T/x"]);
}

#[test]
fn a_download_is_ready_after_two_looks_without_a_change() {
    let meta = |len, t| Some(FileMeta { is_file: true, len, modified: Some(t) });
    let mut s = DownloadCandidate { len: u64::MAX, modified: None, stable_ticks: 0 };
    assert_eq!(look(&mut s, meta(10, 1)), Verdict::Waiting);
    assert_eq!(look(&mut s, meta(10, 1)), Verdict::Waiting);
    assert_eq!(look(&mut s, meta(11, 1)), Verdict::Waiting);
    assert_eq!(look(&mut s, meta(11, 1)), Verdict::Waiting);
    assert_eq!(look(&mut s, meta(11, 2)), Verdict::Waiting);
    assert_eq!(look(&mut s, meta(11, 2)), Verdict::Waiting);
    assert_eq!(look(&mut s, meta(11, 2)), Verdict::Ready);
    assert_eq!(look(&mut s, None), Verdict::Gone);
    assert_eq!(look(&mut s, Some(FileMeta { is_file: false, len: 0, modified: None })), Verdict::Gone);
    assert_eq!(s.stable_ticks, 2);
    s.stable_ticks = 255;
    assert_eq!(look(&mut s, meta(11, 2)), Verdict::Ready);
    assert_eq!(s.stable_ticks, 255);
}

fn entry(name: &str) -> Entry {
    Entry { path: format!("BOX/{name}"), name: name.to_string(), is_dir: false }
}

#[test]
fn finished_downloads_leave_the_lists_and_show_in_the_box() {
    let mut g = global();
    let mut fx = Vec::new();
    let present = strings(&["D/a", "D/b", "D/c"]);
    let reports = vec![arrival("a", true), arrival("b", true), arrival("c", true)];
    assert!(begin_download_tick(&mut g, true, &reports, &present, &mut fx));
    let m = Some(FileMeta { is_file: true, len: 5, modified: None });
    for _ in 0..2 {
        assert_eq!(
            observe_downloads(&mut g, &vec![m, m, m]),
            vec![Verdict::Waiting, Verdict::Waiting, Verdict::Waiting]
        );
        finish_downloads(&mut g, &vec![false, false, false], &None, &mut fx);
    }
    assert!(fx.is_empty());
    let v = observe_downloads(&mut g, &vec![m, m, None]);
    assert_eq!(v, vec![Verdict::Ready, Verdict::Ready, Verdict::Gone]);
    let done = completed(&v, &vec![true, false, false]);
    assert_eq!(done, vec![true, false, true]);
    finish_downloads(&mut g, &done, &Some(vec![entry("a")]), &mut fx);
    assert_eq!(g.download_pending.len(), 1);
    assert_eq!(g.download_pending[0].path, "D/b");
    assert_eq!(g.desktop_seen, ["D/b"]);
    assert_eq!(g.fences[0].entries.len(), 1);
    assert_eq!(fx, vec![Effect::StopAnimation(103), Effect::Render(103), Effect::Reserve]);
}

#[test]
fn while_the_collection_is_off_nothing_is_waited_for() {
    let mut g = global();
    let mut fx = Vec::new();
    begin_download_tick(&mut g, true, &vec![arrival("a", true)], &strings(&["D/a"]), &mut fx);
    g.config.download_enabled = false;
    assert!(!begin_download_tick(&mut g, true, &vec![arrival("b", true)], &strings(&["D/b"]), &mut fx));
    assert!(g.download_pending.is_empty());
    assert_eq!(fx, vec![Effect::DropArrivals]);
}

#[test]
fn downloads_go_to_the_box() {
    let mut g = global();
    assert_eq!(download_target(&g, "USUAL".to_string()), "BOX");
    g.fences[0].valid = false;
    assert_eq!(download_target(&g, "USUAL".to_string()), "USUAL");
    g.fences[0].valid = true;
    g.fences[0].cfg.folder = None;
    assert_eq!(download_target(&g, "USUAL".to_string()), "USUAL");
    g.config.download_box_id = None;
    assert_eq!(download_target(&g, "USUAL".to_string()), "USUAL");
}

fn rule(ext: &str, dest: &str) -> SweepRule {
    SweepRule { ext: ext.to_string(), dest: dest.to_string() }
}

fn file(name: &str, is_file: bool) -> DesktopFile {
    DesktopFile { path: format!("T/{name}"), name: name.to_string(), is_file }
}

#[test]
fn rules_move_files_off_the_desktop() {
    let mut g = global();
    g.config.sweep_rules = vec![rule(".JPG", "P"), rule(".jpg", "Q"), rule("", "R")];
    g.download_ignored = strings(&["T/keep.jpg"]);
    g.download_pending.push(feather_fences::state::Pending {
        path: "T/new.jpg".to_string(),
        state: DownloadCandidate { len: 0, modified: None, stable_ticks: 0 },
    });
    let files = vec![
        file("a.Jpg", true),
        file("keep.jpg", true),
        file("new.jpg", true),
        file("dir.jpg", false),
        file("b.png", true),
        file("noext", true),
    ];
    let plan: Vec<(String, String)> = sweep_desktop(&g, &files).into_iter().map(|m| (m.src, m.dest)).collect();
    assert_eq!(
        plan,
        vec![("T/a.Jpg".to_string(), "P".to_string()), ("T/noext".to_string(), "R".to_string())]
    );
    assert_eq!(find_rule(&g.config.sweep_rules, &"x.JPG".to_string()), Some(0));
    assert!(sweep_wanted(&g.config.sweep_rules, &strings(&["b.png", "c.jpg"])));
    assert!(!sweep_wanted(&g.config.sweep_rules, &strings(&["b.png"])));
    g.config.sweep_rules.clear();
    assert!(sweep_desktop(&g, &files).is_empty());
}

#[test]
fn a_sweep_takes_in_downloads_only_while_they_are_collected() {
    let mut g = global();
    g.config.download_enabled = false;
    begin_sweep(&mut g, true, &vec![arrival("a", true)], &strings(&["D/a"]));
    assert!(g.download_pending.is_empty());
    g.config.download_enabled = true;
    begin_sweep(&mut g, true, &vec![arrival("a", true)], &strings(&["D/a"]));
    assert_eq!(g.download_pending.len(), 1);
}

#[test]
fn failed_moves_are_tried_until_they_work_or_the_file_is_gone() {
    let mut g = global();
    for src in ["a", "b", "c"] {
        sweep_failed(&mut g, Retry { src: src.to_string(), dest: "P".to_string() });
    }
    sweep_retry_tick(&mut g, &vec![RetryOutcome::Moved, RetryOutcome::Failed, RetryOutcome::Gone]);
    assert_eq!(g.sweep_retry.len(), 1);
    assert_eq!((g.sweep_retry[0].src.as_str(), g.sweep_retry[0].dest.as_str()), ("b", "P"));
}

#[test]
fn files_taken_out_of_the_box_are_left_alone() {
    let mut g = global();
    exclude_download_dragout(&mut g, Some("T/a".to_string()), false);
    exclude_download_dragout(&mut g, None, true);
    assert!(g.download_ignored.is_empty());
    exclude_download_dragout(&mut g, Some("T/a".to_string()), true);
    exclude_download_dragout(&mut g, Some("T/a".to_string()), true);
    assert_eq!(g.download_ignored, ["T/a"]);
}

#[test]
fn dropped_files_go_to_the_folder_or_the_vault() {
    let mut g = global();
    assert_eq!(drop_target(&g, 103, "V".to_string(), false), Some("BOX".to_string()));
    g.fences[0].cfg.folder = None;
    assert_eq!(drop_target(&g, 103, "V".to_string(), true), Some("V".to_string()));
    assert_eq!(drop_target(&g, 103, "V".to_string(), false), None);
    assert_eq!(drop_target(&g, 104, "V".to_string(), true), None);
    let d = |path: &str, exists, in_target| Dropped { path: path.to_string(), exists, in_target };
    let files = vec![d("a", true, false), d("b", false, false), d("c", true, true), d("e", true, false)];
    assert_eq!(handle_drop(&files), ["a", "e"]);
    let mut fx = Vec::new();
    drop_done(103, 0, &mut fx);
    assert!(fx.is_empty());
    drop_done(103, 2, &mut fx);
    assert_eq!(fx, vec![Effect::PostDrop(103)]);
}

#[test]
fn sets_of_paths_hold_nothing_twice() {
    let mut v = collect(&strings(&["a", "b", "a"]));
    assert_eq!(v, ["a", "b"]);
    assert!(!insert(&mut v, "b".to_string()));
    assert!(insert(&mut v, "c".to_string()));
    assert!(contains(&v, &"c".to_string()) && !contains(&v, &"d".to_string()));
    remove(&mut v, &"a".to_string());
    assert_eq!(v, ["b", "c"]);
    retain(&mut v, &strings(&["c", "z"]));
    assert_eq!(v, ["c"]);
}
