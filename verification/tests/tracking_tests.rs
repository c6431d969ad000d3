use nix_output_monitor::build_state::{
    build_seconds, summary_after_status, BuildInfo, BuildStatus, DependencySummary,
    StorePathState,
};
use nix_output_monitor::graph::{record_derivation, DrvGraph};
use nix_output_monitor::idmap::IdMap;
use nix_output_monitor::render::order::{
    calculate_sort_key, key_precedes, key_ranks, order_precedes, SortKey, SortOrder,
};
use nix_output_monitor::state::{input_derivations, output_precedes, sorted_outputs};
use nix_output_monitor::tracking::{copy_direction, BuildEvent, BuildState};
use nix_output_monitor::types::{Derivation, DerivationId, FailType, Host, OutputName};

fn two_level_state() -> BuildState {
    // Derivation 1 takes derivation 0 as input; store path 0 is the output
    // of derivation 0.
    let mut st = BuildState::new();
    assert_eq!(st.add_derivation(), 0);
    assert_eq!(st.add_derivation(), 1);
    assert_eq!(st.add_store_path(), 0);
    st.record(0, &vec![0], &vec![], &vec![]);
    st.set_out_path(0, 0);
    st.record(1, &vec![], &vec![], &vec![0]);
    // The top derivation is planned, so the summaries above a change
    // include it.
    st.apply_event(&BuildEvent::PlanBuild(1), 0);
    st.take_touched();
    st
}

#[test]
fn an_unknown_derivation_without_transfers_is_not_summarised_into() {
    let mut st = BuildState::new();
    st.add_derivation();
    st.add_derivation();
    st.record(0, &vec![], &vec![], &vec![]);
    st.record(1, &vec![], &vec![], &vec![0]);
    st.apply_event(&BuildEvent::PlanBuild(0), 0);
    assert!(st.full_summary.planned_builds.contains(0));
    assert!(st.summaries[1].planned_builds.is_empty());
    assert_eq!(st.take_touched(), vec![0, 1]);
}

#[test]
fn recording_links_outputs_sources_and_parents() {
    let mut g = DrvGraph::new();
    for _ in 0..3 {
        g.add_derivation();
    }
    for _ in 0..2 {
        g.add_store_path();
    }
    record_derivation(&mut g, 2, &vec![], &vec![], &vec![]);
    assert_eq!(g.roots, vec![2]);
    record_derivation(&mut g, 0, &vec![0], &vec![], &vec![]);
    assert_eq!(g.roots, vec![2, 0]);
    // Derivation 1 produces path 1, uses path 0 and takes 0 and 2 as inputs.
    record_derivation(&mut g, 1, &vec![1], &vec![0], &vec![0, 2]);
    assert_eq!(g.producer, vec![Some(0), Some(1)]);
    assert_eq!(g.input_for[0], vec![1]);
    assert_eq!(g.parents[0], vec![1]);
    assert_eq!(g.parents[2], vec![1]);
    assert_eq!(g.roots, vec![1]);
    // A second record adds no parent twice.
    record_derivation(&mut g, 1, &vec![1], &vec![0], &vec![0]);
    assert_eq!(g.parents[0], vec![1]);
    assert_eq!(g.input_for[0], vec![1]);
}

#[test]
fn a_dependency_with_a_parent_stays_out_of_the_roots() {
    let mut g = DrvGraph::new();
    for _ in 0..3 {
        g.add_derivation();
    }
    record_derivation(&mut g, 0, &vec![], &vec![], &vec![]);
    record_derivation(&mut g, 1, &vec![], &vec![], &vec![0]);
    assert_eq!(g.roots, vec![1]);
    record_derivation(&mut g, 2, &vec![], &vec![], &vec![0]);
    assert_eq!(g.roots, vec![1, 2]);
    assert_eq!(g.parents[0], vec![1, 2]);
}

#[test]
fn planning_and_building_move_through_the_summaries() {
    let mut st = two_level_state();
    assert!(st.take_touched().is_empty());
    assert!(st.full_summary.planned_builds.contains(1));

    st.apply_event(&BuildEvent::PlanBuild(0), 0);
    assert!(matches!(st.statuses[0], BuildStatus::Planned));
    assert!(st.full_summary.planned_builds.contains(0));
    assert!(st.summaries[1].planned_builds.contains(0));
    let touched = st.take_touched();
    assert_eq!(touched, vec![0, 1]);
    assert!(st.touched.is_empty());

    let host = Host::parse("ssh://builder");
    st.apply_event(
        &BuildEvent::BuildStarted { drv: 0, host: host.clone(), estimate: Some(7), activity_id: Some(3) },
        1000,
    );
    assert!(!st.full_summary.planned_builds.contains(0));
    assert!(!st.summaries[1].planned_builds.contains(0));
    let running = st.summaries[1].running_builds.get(0).unwrap();
    assert_eq!(running.start, 1000);
    assert_eq!(running.estimate, Some(7));
    assert_eq!(running.host, host);

    // A second start (a remote build is reported twice) keeps the start.
    st.apply_event(
        &BuildEvent::BuildStarted { drv: 0, host: Host::Localhost, estimate: None, activity_id: Some(4) },
        2000,
    );
    let running = st.full_summary.running_builds.get(0).unwrap();
    assert_eq!(running.start, 1000);
    assert_eq!(running.activity_id, Some(4));
    assert_eq!(running.host, host);

    let secs = st.apply_event(&BuildEvent::BuildFinished(0), 3600);
    assert_eq!(secs, Some(3));
    assert!(st.full_summary.running_builds.is_empty());
    assert_eq!(st.full_summary.completed_builds.get(0).unwrap().end, 3600);
    assert_eq!(st.full_summary.latest_completed_build_end, Some(3600));
    assert_eq!(st.summaries[1].latest_completed_build_end, Some(3600));

    // Finishing again changes nothing and reports no duration.
    assert_eq!(st.apply_event(&BuildEvent::BuildFinished(0), 9000), None);
    assert_eq!(st.full_summary.completed_builds.get(0).unwrap().end, 3600);
}

#[test]
fn failures_of_running_or_built_builds_are_recorded() {
    let mut st = two_level_state();
    // A planned build that fails is left planned.
    st.apply_event(&BuildEvent::PlanBuild(0), 0);
    st.apply_event(&BuildEvent::BuildFailed { drv: 0, fail_type: FailType::ExitCode(2) }, 10);
    assert!(matches!(st.statuses[0], BuildStatus::Planned));
    assert!(st.full_summary.failed_builds.is_empty());

    st.apply_event(
        &BuildEvent::BuildStarted { drv: 0, host: Host::Localhost, estimate: None, activity_id: None },
        20,
    );
    st.apply_event(&BuildEvent::BuildFailed { drv: 0, fail_type: FailType::ExitCode(2) }, 50);
    let failed = st.full_summary.failed_builds.get(0).unwrap();
    assert_eq!(failed.start, 20);
    assert_eq!(failed.end.at, 50);
    assert_eq!(failed.end.fail_type, FailType::ExitCode(2));
    assert!(st.full_summary.running_builds.is_empty());
    assert!(st.summaries[1].failed_builds.contains_key(0));
}

#[test]
fn downloads_move_from_planned_to_running_to_done() {
    let mut st = two_level_state();
    st.apply_event(&BuildEvent::PlanDownload(0), 0);
    assert!(st.full_summary.planned_downloads.contains(0));
    // The producer's own summary takes the path; above it, the producer
    // (unknown, with no transfer running) passes nothing on.
    assert!(st.summaries[0].planned_downloads.contains(0));
    assert!(!st.summaries[1].planned_downloads.contains(0));
    assert_eq!(st.path_states[0], vec![StorePathState::DownloadPlanned]);

    let cache = Host::parse("https://cache.nixos.org");
    st.apply_event(
        &BuildEvent::TransferStarted { path: 0, download: true, host: cache.clone(), activity_id: Some(9) },
        400,
    );
    assert!(!st.full_summary.planned_downloads.contains(0));
    assert_eq!(st.full_summary.running_downloads.get(0).unwrap().start, 400);
    assert!(st.summaries[1].running_downloads.contains_key(0));
    assert_eq!(st.path_states[0].len(), 1);

    st.apply_event(&BuildEvent::TransferFinished { path: 0, download: true, host: cache.clone() }, 900);
    assert!(st.full_summary.running_downloads.is_empty());
    let done = st.full_summary.completed_downloads.get(0).unwrap();
    assert_eq!(done.start, 400);
    assert_eq!(done.end, Some(900));
    assert_eq!(done.activity_id, Some(9));
    assert_eq!(st.full_summary.latest_completed_download_start, Some(400));
    assert!(st.summaries[1].completed_downloads.contains_key(0));
}

#[test]
fn an_upload_that_was_never_seen_starting_ends_when_it_is_reported() {
    let mut st = two_level_state();
    let host = Host::parse("ssh://remote");
    st.apply_event(&BuildEvent::TransferFinished { path: 0, download: false, host }, 700);
    let up = st.full_summary.completed_uploads.get(0).unwrap();
    assert_eq!(up.start, 700);
    assert_eq!(up.end, Some(700));
    assert_eq!(up.activity_id, None);
}

#[test]
fn seconds_are_rounded_half_up_and_never_negative() {
    assert_eq!(build_seconds(0, 1499), 1);
    assert_eq!(build_seconds(0, 1500), 2);
    assert_eq!(build_seconds(1000, 1000), 0);
    assert_eq!(build_seconds(5000, 3000), 0);
    assert_eq!(build_seconds(0, 499), 0);
}

#[test]
fn the_latest_completed_build_end_is_the_largest() {
    let mut s = DependencySummary::new();
    let built = |end: u64| {
        BuildStatus::Built(BuildInfo { start: 0, host: Host::Localhost, estimate: None, activity_id: None, end })
    };
    summary_after_status(&mut s, &BuildStatus::Unknown, &built(50), 1);
    summary_after_status(&mut s, &BuildStatus::Unknown, &built(20), 2);
    assert_eq!(s.latest_completed_build_end, Some(50));
    summary_after_status(&mut s, &built(50), &BuildStatus::Planned, 1);
    assert_eq!(s.latest_completed_build_end, Some(50));
    summary_after_status(&mut s, &built(20), &BuildStatus::Unknown, 2);
    assert_eq!(s.latest_completed_build_end, None);
    assert!(s.completed_builds.is_empty());
    assert!(s.planned_builds.contains(1));
    assert_eq!(s.counts().planned_builds, 1);
}

#[test]
fn id_maps_keep_their_keys_in_order() {
    let mut m: IdMap<BuildStatus> = IdMap::new();
    m.insert(5, BuildStatus::Planned);
    m.insert(1, BuildStatus::Unknown);
    m.insert(3, BuildStatus::Planned);
    m.insert(1, BuildStatus::Planned);
    let keys: Vec<usize> = m.entries.iter().map(|(k, _)| *k).collect();
    assert_eq!(keys, vec![1, 3, 5]);
    assert!(matches!(m.get(1), Some(BuildStatus::Planned)));
    m.remove(3);
    m.remove(4);
    assert_eq!(m.len(), 2);
    assert!(!m.contains_key(3));
}

#[test]
fn output_names_are_sorted_each_once() {
    let names = vec![
        OutputName::Other("zz".to_string()),
        OutputName::Dev,
        OutputName::Out,
        OutputName::Dev,
        OutputName::Other("a".to_string()),
    ];
    let sorted = sorted_outputs(&names);
    assert_eq!(
        sorted,
        vec![
            OutputName::Out,
            OutputName::Dev,
            OutputName::Other("a".to_string()),
            OutputName::Other("zz".to_string()),
        ]
    );
    assert!(output_precedes(&OutputName::Doc, &OutputName::Bin));
    assert!(!output_precedes(&OutputName::Other("b".to_string()), &OutputName::Other("ab".to_string())));
    assert!(output_precedes(&OutputName::Other("a".to_string()), &OutputName::Other("ab".to_string())));

    let drv = Derivation::parse(
        "/nix/store/7n05q79qhrgvnfmvv2v3cnj3yqf4d1hf-hello-1.0.drv",
    )
    .unwrap();
    let inputs = input_derivations(&vec![(drv, vec![OutputName::Lib, OutputName::Out, OutputName::Lib])], &vec![4]);
    assert_eq!(inputs.len(), 1);
    assert_eq!(inputs[0].derivation, DerivationId(4));
    assert_eq!(inputs[0].outputs, vec![OutputName::Out, OutputName::Lib]);
}

#[test]
fn failed_and_running_come_first_and_finished_latest_first() {
    use_order();
}

fn use_order() {
    let a = SortOrder::Failed(10);
    let b = SortOrder::Failed(20);
    assert!(order_precedes(a, b));
    assert!(order_precedes(b, SortOrder::Building(1)));
    assert!(order_precedes(SortOrder::Done(30), SortOrder::Done(20)));
    assert!(!order_precedes(SortOrder::Done(20), SortOrder::Done(30)));
    assert!(order_precedes(SortOrder::Waiting, SortOrder::DownloadWaiting));
    assert!(!order_precedes(SortOrder::Unknown, SortOrder::Unknown));
}

#[test]
fn sort_keys_follow_the_state() {
    let mut st = two_level_state();
    st.apply_event(
        &BuildEvent::BuildStarted { drv: 0, host: Host::Localhost, estimate: None, activity_id: None },
        500,
    );
    let k0 = calculate_sort_key(&st.statuses[0], &st.summaries[0], &st.path_states[0]);
    assert_eq!(k0.order_this, SortOrder::Building(500));
    assert_eq!(k0.order_summary, SortOrder::Building(500));
    assert_eq!(k0.running_builds, 1);
    let k1 = calculate_sort_key(&st.statuses[1], &st.summaries[1], &Vec::new());
    assert_eq!(k1.order_this, SortOrder::Waiting);
    assert_eq!(k1.order_summary, SortOrder::Building(500));
    assert_eq!(k1.waiting_count, 1);
    assert!(key_precedes(&k0, &k1));
    assert!(!key_precedes(&k1, &k0));

    st.apply_event(&BuildEvent::PlanDownload(0), 600);
    let k0 = calculate_sort_key(&st.statuses[0], &st.summaries[0], &st.path_states[0]);
    assert_eq!(k0.order_this, SortOrder::Building(500));
    let unknown = BuildStatus::Unknown;
    let k = calculate_sort_key(&unknown, &DependencySummary::new(), &st.path_states[0]);
    assert_eq!(k.order_this, SortOrder::DownloadWaiting);
    assert_eq!(k.order_summary, SortOrder::Unknown);
}

#[test]
fn copies_to_this_machine_are_downloads() {
    let remote = Host::parse("ssh://builder");
    let cache = Host::parse("https://cache.nixos.org");
    assert_eq!(copy_direction(&cache, &Host::Localhost), Some((true, cache.clone())));
    assert_eq!(copy_direction(&Host::Localhost, &remote), Some((false, remote.clone())));
    assert_eq!(copy_direction(&cache, &remote), None);
    assert_eq!(copy_direction(&Host::Localhost, &Host::Localhost), Some((true, Host::Localhost)));
}

#[test]
fn equal_keys_share_a_rank() {
    let key = |o: SortOrder, waiting: usize| SortKey {
        order_this: o,
        order_summary: SortOrder::Unknown,
        running_builds: 0,
        running_downloads: 0,
        waiting_count: waiting,
    };
    let keys = vec![
        key(SortOrder::Waiting, 2),
        key(SortOrder::Failed(5), 0),
        key(SortOrder::Waiting, 1),
        key(SortOrder::Waiting, 2),
        key(SortOrder::Done(9), 0),
    ];
    let (distinct, ranks) = key_ranks(&keys);
    assert_eq!(distinct.len(), 4);
    assert_eq!(ranks, vec![2, 0, 1, 2, 3]);
}
