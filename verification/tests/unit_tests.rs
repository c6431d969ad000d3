use nix_output_monitor::parser::old_style::{parse_old_style_chunk, NixOldStyleMessage, SizeText};
use nix_output_monitor::render::hosts::{tally_hosts, TallyItem, TallyKind};
use nix_output_monitor::render::{non_zero_entry, render_summary_table, status_line, DependencyCounts, DOWN};
use nix_output_monitor::render::progress::{lookup_progress_char, print_bytes, word5_to_word8};
use nix_output_monitor::render::selection::{select_derivations_to_show, SelectNode};
use nix_output_monitor::render::table::{truncate_display, GREEN, RESET, YELLOW};
use nix_output_monitor::types::{Derivation, FailType, Host, StorePath};

fn size_in_bytes(s: &Option<SizeText>) -> f64 {
    match s {
        Some(t) => t.number.parse::<f64>().unwrap() * (t.multiplier as f64),
        None => 0.0,
    }
}

#[test]
fn test_parse_plan() {
    let input = "these derivations will be built:\n  /nix/store/7n05q79qhrgvnfmvv2v3cnj3yqf4d1hf-haskell-language-server-0.4.0.0.drv\nthese paths will be fetched (134.19 MiB download, 1863.82 MiB unpacked):\n  /nix/store/60zb5dndaw1fzir3s69sy3xhy19gll1p-ghc-8.8.2\ngarbage";

    let (msg1, consumed1) = parse_old_style_chunk(input).expect("parsing plan builds succeeds");
    let drv = Derivation::parse(
        "/nix/store/7n05q79qhrgvnfmvv2v3cnj3yqf4d1hf-haskell-language-server-0.4.0.0.drv",
    )
    .unwrap();
    let expected_drvs = vec![drv.clone()];

    assert_eq!(msg1, NixOldStyleMessage::PlanBuilds(expected_drvs, drv));

    let rest = &input[consumed1..];
    let (msg2, consumed2) = parse_old_style_chunk(rest).expect("parsing plan downloads succeeds");

    let sp = StorePath::parse("/nix/store/60zb5dndaw1fzir3s69sy3xhy19gll1p-ghc-8.8.2").unwrap();
    let expected_paths = vec![sp];

    match msg2 {
        NixOldStyleMessage::PlanDownloads(download, unpacked, paths) => {
            assert_eq!(size_in_bytes(&download), 134.19 * 1024.0 * 1024.0);
            assert_eq!(size_in_bytes(&unpacked), 1863.82 * 1024.0 * 1024.0);
            assert_eq!(paths, expected_paths);
        }
        other => panic!("expected a download plan, got {:?}", other),
    }

    let rest2 = &rest[consumed2..];
    assert_eq!(rest2.trim(), "garbage");
}

#[test]
fn test_parse_downloading() {
    let input = "copying path '/nix/store/yk1164s4bkj6p3s4mzxm5fc4qn38cnmf-ghc-8.8.2-doc' from 'https://cache.nixos.org'...\n";
    let (msg, _) = parse_old_style_chunk(input).expect("parsing downloading succeeds");

    let sp = StorePath::parse("/nix/store/yk1164s4bkj6p3s4mzxm5fc4qn38cnmf-ghc-8.8.2-doc").unwrap();
    let host = Host::parse("https://cache.nixos.org");

    assert_eq!(msg, NixOldStyleMessage::Downloading(sp, host));
}

#[test]
fn test_parse_local_building() {
    let input = "building '/nix/store/dpqlnrbvzhjxp06d1mc3ksf2w8m2ldms-aeson-1.5.2.0.drv'...\n";
    let (msg, _) = parse_old_style_chunk(input).expect("parsing local building succeeds");

    let drv =
        Derivation::parse("/nix/store/dpqlnrbvzhjxp06d1mc3ksf2w8m2ldms-aeson-1.5.2.0.drv").unwrap();
    assert_eq!(msg, NixOldStyleMessage::Build(drv, Host::Localhost));
}

#[test]
fn test_parse_remote_building() {
    let input = "building '/nix/store/63jjdifv1x1nymjxdwla603xy1sggakk-hoogle-local-0.1.drv' on 'ssh://maralorn@example.com'...\n";
    let (msg, _) = parse_old_style_chunk(input).expect("parsing remote building succeeds");

    let drv = Derivation::parse("/nix/store/63jjdifv1x1nymjxdwla603xy1sggakk-hoogle-local-0.1.drv")
        .unwrap();
    let host = Host::parse("ssh://maralorn@example.com");
    assert_eq!(msg, NixOldStyleMessage::Build(drv, host));
}

#[test]
fn test_parse_failed_build() {
    let input = "builder for '/nix/store/fbpdwqrfwr18nn504kb5jqx7s06l1mar-regex-base-0.94.0.1.drv' failed with exit code 1\n";
    let (msg, _) = parse_old_style_chunk(input).expect("parsing failed build succeeds");

    let drv =
        Derivation::parse("/nix/store/fbpdwqrfwr18nn504kb5jqx7s06l1mar-regex-base-0.94.0.1.drv")
            .unwrap();
    assert_eq!(msg, NixOldStyleMessage::Failed(drv, FailType::ExitCode(1)));
}

#[test]
fn test_parse_failed_build_nix24() {
    let input = "error: builder for '/nix/store/dylih0mw8yisn6nrjc3qlf51knmdkrq1-local-build-3.drv' failed with exit code 1;\n";
    let (msg, _) = parse_old_style_chunk(input).expect("parsing failed build nix 2.4 succeeds");

    let drv =
        Derivation::parse("/nix/store/dylih0mw8yisn6nrjc3qlf51knmdkrq1-local-build-3.drv").unwrap();
    assert_eq!(msg, NixOldStyleMessage::Failed(drv, FailType::ExitCode(1)));
}

#[test]
fn test_parse_failed_build_nix229() {
    let input = "error: Cannot build '/nix/store/d055cqki6z1vll144kvj496cknwvwi44-build-fail.drv'.\n       Reason: builder failed with exit code 1.\n       Output paths:\n          /nix/store/pvf324ikpfb9nhyszmc4zz5g9y8by0f6-build-fail\n";
    let (msg, _) = parse_old_style_chunk(input).expect("parsing failed build nix 2.29 succeeds");

    let drv =
        Derivation::parse("/nix/store/d055cqki6z1vll144kvj496cknwvwi44-build-fail.drv").unwrap();
    assert_eq!(msg, NixOldStyleMessage::Failed(drv, FailType::ExitCode(1)));
}

#[test]
fn test_braille_progress_bar() {
    assert_eq!(word5_to_word8(31), 255);

    assert_eq!(lookup_progress_char(31), '\u{28FF}');
    assert_eq!(lookup_progress_char(0), '\u{2800}');
}

#[test]
fn test_store_path_and_host_parsing() {
    let sp = StorePath::parse("/nix/store/7n05q79qhrgvnfmvv2v3cnj3yqf4d1hf-test-name").unwrap();
    assert_eq!(sp.hash, "7n05q79qhrgvnfmvv2v3cnj3yqf4d1hf");
    assert_eq!(sp.name, "test-name");

    let drv =
        Derivation::parse("/nix/store/7n05q79qhrgvnfmvv2v3cnj3yqf4d1hf-test-name.drv").unwrap();
    assert_eq!(drv.store_path.name, "test-name");

    let host1 = Host::parse("local");
    assert_eq!(host1, Host::Localhost);

    let host2 = Host::parse("ssh://user@builder.example.com");
    match host2 {
        Host::Remote { proto, user, host } => {
            assert_eq!(proto, Some("ssh".to_string()));
            assert_eq!(user, Some("user".to_string()));
            assert_eq!(host, "builder.example.com");
        }
        _ => panic!("Expected remote host"),
    }
}

#[test]
fn test_truncate_display_ansi_safety() {
    let input = format!(
        "{}This is a very long string that will be truncated",
        YELLOW
    );
    let truncated = truncate_display(&input, 15);
    assert!(
        truncated.ends_with(RESET),
        "Truncated string must end with RESET"
    );
}

#[test]
fn test_non_zero_entry_colors() {
    let entry_zero = non_zero_entry("⏵", 0, |e| e.yellow());
    assert!(
        entry_zero.codes.contains(&YELLOW),
        "Symbol must retain color even with 0 count"
    );

    let entry_nonzero = non_zero_entry("⏵", 5, |e| e.yellow());
    assert!(
        entry_nonzero.codes.contains(&YELLOW),
        "Symbol must retain color with non-zero count"
    );
}

#[test]
fn test_print_bytes_spacing() {
    assert_eq!(print_bytes(500), "500 B");
    assert_eq!(print_bytes(1024), "1.0 KiB");
    assert_eq!(print_bytes(21 * 1024 * 1024 + 1024 * 100), "21.1 MiB");
    assert_eq!(print_bytes(3 * 1024 * 1024 * 1024), "3.0 GiB");
}

fn select_node(parents: Vec<usize>, inputs: Vec<usize>, active_build: bool, summary_empty: bool, rank: usize) -> SelectNode {
    SelectNode { parents, inputs, active_build, summary_empty, rank }
}

#[test]
fn test_tree_selection_with_many_dependencies() {
    // Derivation 0 is the root; 1 to 30 are its inputs, and the last of them
    // is building, which the root's summary records.
    let root_id = 0usize;
    let mut nodes = vec![select_node(vec![], (1..=30).collect(), false, false, 2)];
    for i in 1..=30usize {
        let building = i == 30;
        nodes.push(select_node(vec![root_id], vec![], building, !building, if building { 0 } else { 1 }));
    }
    let active_dep = 30usize;

    let selected = select_derivations_to_show(&nodes, &vec![root_id], &vec![], 5);
    assert!(selected[root_id], "Root must be retained in the tree");
    assert!(selected[active_dep], "Active building dependency must be retained");
}

#[test]
fn test_tree_selection_preserves_ancestor_chain() {
    // root-app, layer-1 to layer-4 and deep-leaf, each the input of the one
    // before; deep-leaf is building and every summary above it records it.
    let names = ["root-app", "layer-1", "layer-2", "layer-3", "layer-4", "deep-leaf"];
    let n = names.len();
    let mut nodes = Vec::new();
    for i in 0..n {
        let parents = if i == 0 { vec![] } else { vec![i - 1] };
        let inputs = if i + 1 < n { vec![i + 1] } else { vec![] };
        nodes.push(select_node(parents, inputs, i == n - 1, false, n - 1 - i));
    }

    let selected = select_derivations_to_show(&nodes, &vec![0], &vec![], 2);
    for (id, name) in names.iter().enumerate() {
        assert!(
            selected[id],
            "Derivation {:?} in chain must be preserved so tree remains connected",
            name
        );
    }
}

#[test]
fn test_inactive_deep_subtrees_pruning() {
    // 0 system-root, 1 active-parent, 2 active-leaf (building), 3 to 7 the
    // planned inactive-depth-1 to inactive-depth-5, each an input of the one
    // before and the first an input of the root.
    let root_id = 0usize;
    let active_parent_id = 1usize;
    let active_leaf_id = 2usize;
    let deep_inactive_ids = vec![3usize, 4, 5, 6, 7];
    let nodes = vec![
        select_node(vec![], vec![1, 3], false, false, 3),
        select_node(vec![0], vec![2], false, false, 2),
        select_node(vec![1], vec![], true, false, 0),
        select_node(vec![0], vec![4], false, false, 1),
        select_node(vec![3], vec![5], false, false, 1),
        select_node(vec![4], vec![6], false, false, 1),
        select_node(vec![5], vec![7], false, false, 1),
        select_node(vec![6], vec![], false, false, 1),
    ];

    let selected = select_derivations_to_show(&nodes, &vec![root_id], &vec![], 20);

    assert!(selected[root_id], "Must contain root");
    assert!(selected[active_parent_id], "Must contain active_parent");
    assert!(selected[active_leaf_id], "Must contain active_leaf");
    assert!(!selected[deep_inactive_ids[2]], "Must NOT contain deep inactive node at depth 3");
    assert!(!selected[deep_inactive_ids[3]], "Must NOT contain deep inactive node at depth 4");
    assert!(!selected[deep_inactive_ids[4]], "Must NOT contain deep inactive node at depth 5");
}

#[test]
fn test_inert_unknown_derivations_pruned() {
    // 0 nixos-system (built), 1 etc (built), 2 activate (built), and the
    // inert 3 stage-2-init.sh, 4 pre-switch-checks, 5 system-path and
    // 6 gnused-4.10; the root's inputs come in the order of their sort keys.
    let (root_id, etc_id, act_id) = (0usize, 1usize, 2usize);
    let (stage2_id, preswitch_id, syspath_id, gnused_id) = (3usize, 4usize, 5usize, 6usize);
    let nodes = vec![
        select_node(vec![], vec![1, 2, 3, 4], false, false, 1),
        select_node(vec![0], vec![5], false, false, 0),
        select_node(vec![0], vec![], false, false, 0),
        select_node(vec![0], vec![], false, true, 2),
        select_node(vec![0], vec![], false, true, 2),
        select_node(vec![1], vec![6], false, true, 2),
        select_node(vec![5], vec![], false, true, 2),
    ];

    let selected = select_derivations_to_show(&nodes, &vec![root_id], &vec![], 20);
    assert!(selected[root_id], "Must contain root");
    assert!(selected[etc_id], "Must contain built etc");
    assert!(selected[act_id], "Must contain built activate");
    assert!(!selected[stage2_id], "Must NOT contain inert stage-2-init.sh");
    assert!(!selected[preswitch_id], "Must NOT contain inert pre-switch-checks");
    assert!(!selected[syspath_id], "Must NOT contain inert system-path");
    assert!(!selected[gnused_id], "Must NOT contain inert gnused-4.10");
}

fn no_counts() -> DependencyCounts {
    DependencyCounts {
        planned_builds: 0,
        running_builds: 0,
        completed_builds: 0,
        failed_builds: 0,
        planned_downloads: 0,
        running_downloads: 0,
        completed_downloads: 0,
        running_uploads: 0,
        completed_uploads: 0,
    }
}

#[test]
fn test_summary_table_colors_always_present_when_zero() {
    // One build of test-drv, completed on the local machine, two seconds in.
    let counts = DependencyCounts { completed_builds: 1, ..no_counts() };
    let items = vec![TallyItem {
        host_key: "localhost".to_string(),
        host_label: "localhost".to_string(),
        kind: TallyKind::CompletedBuild,
        progress: None,
    }];
    let (hosts, done, expected) = tally_hosts(&items);
    let time = status_line(false, 0, 0, "", 2);
    let rendered = render_summary_table(&counts, &hosts, done, expected, &time);

    assert!(rendered.contains(YELLOW), "Running icon must be colored YELLOW even when count is 0");
    assert!(rendered.contains(GREEN), "Completed icon must be colored GREEN");
    assert!(rendered.contains(RESET), "Must contain RESET to prevent color leakage");
}

#[test]
fn test_downloads_table_four_columns_and_arrow_symbols() {
    // A download of pkg1 from cache.nixos.org over https at 74868326 of
    // 3221225472 bytes, a completed download of pkg-done from there, and
    // a build running on the local machine.
    let counts = DependencyCounts {
        running_builds: 1,
        running_downloads: 1,
        completed_downloads: 1,
        ..no_counts()
    };
    let cache = |kind: TallyKind, progress: Option<(usize, usize)>| TallyItem {
        host_key: "cache.nixos.org".to_string(),
        host_label: "cache.nixos.org (https)".to_string(),
        kind,
        progress,
    };
    let items = vec![
        TallyItem {
            host_key: "localhost".to_string(),
            host_label: "localhost".to_string(),
            kind: TallyKind::RunningBuild,
            progress: None,
        },
        cache(TallyKind::RunningDownload, Some((74868326, 3221225472))),
        cache(TallyKind::CompletedDownload, None),
    ];
    let (hosts, done, expected) = tally_hosts(&items);
    let time = status_line(false, 0, 0, "", 2);
    let rendered = render_summary_table(&counts, &hosts, done, expected, &time);

    assert!(rendered.contains("Downloads"), "Must contain Downloads section");
    assert!(
        rendered.contains("71.4 MiB/3.0 GiB"),
        "Must render 4th column with transferred size progress: {}",
        rendered
    );
    assert!(
        rendered.contains(&format!("{}{}", YELLOW, DOWN)),
        "Running downloads must use DOWN arrow symbol with YELLOW"
    );
    assert!(
        rendered.contains(&format!("{}{}", GREEN, DOWN)),
        "Completed downloads must use DOWN arrow symbol with GREEN (not checkmark ✔)"
    );
    assert!(
        rendered.contains("cache.nixos.org (https)"),
        "Host must include protocol context (https)"
    );
}
