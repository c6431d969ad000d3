use nix_output_monitor::activities::{logs_plain_line, logs_start_text, ActivityMap, EvalState};
use nix_output_monitor::build_state::{
    has_transfers, output_transfers, progress_totals, transfer_hosts, BuildInfo, BuildStatus,
    DependencySummary, TransferInfo,
};
use nix_output_monitor::parser::json::{Activity, ActivityProgress};
use nix_output_monitor::parser::old_style::strip_ansi_codes;
use nix_output_monitor::render::order::{stable_order, SortKey, SortOrder};
use nix_output_monitor::render::table::display_width;
use nix_output_monitor::tracking::{BuildEvent, BuildState};
use nix_output_monitor::state::{sorted_derivations, sorted_store_paths};
use nix_output_monitor::types::{Derivation, Host, StorePath};

fn key(o: SortOrder) -> SortKey {
    SortKey { order_this: o, order_summary: SortOrder::Unknown, running_builds: 0, running_downloads: 0, waiting_count: 0 }
}

#[test]
fn width_ignores_escape_sequences_and_ascii_is_as_wide_as_long() {
    let styled = "\x1b[1m\x1b[31mfailed\x1b[0m build";
    assert_eq!(display_width(styled), display_width(&strip_ansi_codes(styled)));
    assert_eq!(display_width(styled), 12);
    let plain = "hello, world ~!";
    assert_eq!(display_width(plain), plain.len());
}

#[test]
fn stable_order_keeps_equal_keys_in_place() {
    let keys = vec![key(SortOrder::Waiting), key(SortOrder::Failed(3)), key(SortOrder::Waiting), key(SortOrder::Building(1))];
    assert_eq!(stable_order(&keys), vec![1, 3, 0, 2]);
    assert_eq!(stable_order(&Vec::new()), Vec::<usize>::new());
}

#[test]
fn roots_are_sorted_by_their_keys() {
    let mut st = BuildState::new();
    for i in 0..3 {
        st.add_derivation();
        st.record(i, &vec![], &vec![], &vec![]);
    }
    assert_eq!(st.graph.roots, vec![0, 1, 2]);
    let order = st.sort_roots(&vec![key(SortOrder::Unknown), key(SortOrder::Waiting), key(SortOrder::Unknown)]);
    assert_eq!(order, vec![1, 0, 2]);
    assert_eq!(st.graph.roots, vec![1, 0, 2]);
}

#[test]
fn the_transfers_of_outputs_are_found_in_the_summary() {
    let mut st = BuildState::new();
    st.add_derivation();
    st.add_store_path();
    st.add_store_path();
    st.record(0, &vec![0, 1], &vec![], &vec![]);
    let cache = Host::parse("https://cache.nixos.org");
    st.apply_event(&BuildEvent::TransferStarted { path: 1, download: true, host: cache.clone(), activity_id: Some(5) }, 10);
    st.apply_event(&BuildEvent::PlanDownload(0), 20);
    let s = &st.summaries[0];
    assert!(has_transfers(s, &vec![0]));
    assert!(has_transfers(s, &vec![7, 1]));
    assert!(!has_transfers(s, &vec![7]));
    let t = output_transfers(s, &vec![1, 0]);
    assert_eq!(t.running_downloads.len(), 1);
    assert_eq!(t.running_downloads[0].start, 10);
    assert!(t.planned_download);
    assert!(t.completed_downloads.is_empty());
    assert_eq!(transfer_hosts(&t.running_downloads), vec![cache]);
    assert_eq!(progress_totals(&vec![(1, 10), (2, 20)]), (3, 30));
    assert_eq!(progress_totals(&vec![(usize::MAX, 1), (1, 1)]), (usize::MAX, 2));
    let empty = DependencySummary::new();
    assert!(!has_transfers(&empty, &vec![0]));
    let _ = BuildStatus::Built(BuildInfo { start: 0, host: Host::Localhost, estimate: None, activity_id: None, end: 1 });
    let _: Vec<TransferInfo<()>> = Vec::new();
}

#[test]
fn activities_keep_phase_and_progress_of_started_ones() {
    let mut m = ActivityMap::new();
    assert!(!m.set_phase(1, "build".to_string()));
    m.start(1, Activity::Builds);
    m.start(2, Activity::Realise);
    assert!(m.set_phase(1, "configure".to_string()));
    let p = ActivityProgress { done: 1, expected: 4, running: 0, failed: 0 };
    assert!(m.set_progress(2, p.clone()));
    assert_eq!(m.get(1).unwrap().phase, Some("configure".to_string()));
    assert_eq!(m.get(2).unwrap().progress, Some(p));
    m.start(1, Activity::Builds);
    assert_eq!(m.get(1).unwrap().phase, None);
    assert!(m.get(3).is_none());
}

#[test]
fn progress_reports_come_from_the_activities_that_have_one() {
    let mut m = ActivityMap::new();
    m.start(1, Activity::CopyPaths);
    m.start(2, Activity::CopyPaths);
    m.start(3, Activity::CopyPaths);
    m.set_progress(1, ActivityProgress { done: 5, expected: 10, running: 0, failed: 0 });
    m.set_progress(3, ActivityProgress { done: 7, expected: 7, running: 0, failed: 0 });
    let ids = vec![Some(3), None, Some(2), Some(9), Some(1)];
    assert_eq!(m.progress_reports(&ids), vec![(7, 7), (5, 10)]);
    assert!(m.progress_reports(&vec![]).is_empty());
}

#[test]
fn only_some_lines_are_shown() {
    assert!(logs_start_text("building", 3));
    assert!(!logs_start_text("building", 4));
    assert!(!logs_start_text("", 0));
    assert!(!logs_plain_line("debug: nixos_rebuild.x"));
    assert!(logs_plain_line("some output"));
}

#[test]
fn the_last_evaluated_file_is_forgotten_once_building() {
    let mut e = EvalState::default();
    e.reached_file("a.nix".to_string(), 1000);
    assert_eq!(e.count, 1);
    e.expire(5999, true);
    assert_eq!(e.last_file_name, Some("a.nix".to_string()));
    e.expire(9000, false);
    assert_eq!(e.last_file_name, Some("a.nix".to_string()));
    e.expire(6000, true);
    assert_eq!(e.last_file_name, None);
}

#[test]
fn plans_are_walked_in_the_order_of_their_store_paths() {
    let h1 = "0000000000000000000000000000000a";
    let h2 = "0000000000000000000000000000000b";
    let p = |h: &str, n: &str| StorePath::new(h, n);
    let paths = vec![p(h2, "a"), p(h1, "z"), p(h1, "b"), p(h2, "a")];
    assert_eq!(sorted_store_paths(&paths), vec![p(h1, "b"), p(h1, "z"), p(h2, "a")]);
    let mut expected = paths.clone();
    expected.sort();
    expected.dedup();
    assert_eq!(sorted_store_paths(&paths), expected);
    let drvs: Vec<Derivation> = paths.iter().map(|sp| Derivation { store_path: sp.clone() }).collect();
    let sorted = sorted_derivations(&drvs);
    let mut expected = drvs.clone();
    expected.sort();
    expected.dedup();
    assert_eq!(sorted, expected);
}
