use nix_output_monitor::render::hosts::{tally_hosts, TallyItem, TallyKind};
use nix_output_monitor::render::{row_kind, shows_waiting, OutputTransfers, RowKind, StatusKind};
use nix_output_monitor::cli::{replace_command_with_exit, with_json};
use nix_output_monitor::events::{
    already_reported, get_report_name, log_prefix, message_effect, MessageEffect,
};
use nix_output_monitor::state::ProgressState;
use nix_output_monitor::terminal::{
    TerminalRenderer, CLEAR_LINE, CURSOR_NEXT_LINE_1, CURSOR_PREV_LINE_1, CURSOR_TO_COL_0,
    END_ATOMIC_UPDATE, START_ATOMIC_UPDATE,
};
use nix_output_monitor::parser::derivation::{parse_derivation_content, DerivationParseError};
use nix_output_monitor::parser::json::{
    json_payload, message_from_raw, Activity, ActivityResult, JsonField, MessageAction,
    NixJsonMessage, RawJsonMessage, Verbosity,
};
use nix_output_monitor::parser::old_style::{
    extract_tick_content, is_malformed_old_style_chunk, parse_old_style_chunk, strip_ansi_codes,
    NixOldStyleMessage,
};
use nix_output_monitor::render::table::{
    display_width, truncate_display, BLUE, BOLD, GREEN, GREY, MAGENTA, RED, RESET, YELLOW,
};
use nix_output_monitor::render::{
    assemble_sections, idle_line, status_line, waiting_line, CLOCK, DONE, LEFT_T, UPPERLEFT,
    WARNING, format_differing_platform, render_builds, compute_host_abbrevs, derivation_row_text, format_dependency_summary, format_duration_secs,
    format_hosts, format_single_host, host_abbrev, render_errors, render_summary_table,
    render_traces, truncate_output_to_window, DependencyCounts, RowState,
};
use nix_output_monitor::types::{Derivation, FailType, Host, OutputName, StorePath};

const HASH: &str = "7n05q79qhrgvnfmvv2v3cnj3yqf4d1hf";

fn drv(name: &str) -> Derivation {
    Derivation::parse(&format!("/nix/store/{}-{}.drv", HASH, name)).unwrap()
}

fn raw(action: &str) -> RawJsonMessage {
    RawJsonMessage {
        action: action.to_string(),
        id: None,
        level: None,
        text: None,
        msg: None,
        msg_type: None,
        fields: None,
    }
}

#[test]
fn json_line_is_split_at_its_prefix() {
    let (t, p) = json_payload("@nix {\"action\":\"stop\",\"id\":5}  \n");
    assert_eq!(t, "@nix {\"action\":\"stop\",\"id\":5}");
    assert_eq!(p, Some("{\"action\":\"stop\",\"id\":5}".to_string()));
    let (t2, p2) = json_payload("plain output \r\n");
    assert_eq!(t2, "plain output");
    assert_eq!(p2, None);
}

#[test]
fn start_of_a_remote_build() {
    let mut r = raw("start");
    r.id = Some(7);
    r.text = Some("building".to_string());
    r.msg_type = Some(105);
    r.fields = Some(vec![
        JsonField::Str(format!("/nix/store/{}-hello.drv", HASH)),
        JsonField::Str("ssh://builder".to_string()),
    ]);
    match message_from_raw(&r, "line") {
        NixJsonMessage::Start(s) => {
            assert_eq!(s.id, 7);
            assert_eq!(s.level, Verbosity::Info);
            assert_eq!(s.text, "building");
            assert_eq!(
                s.activity,
                Activity::Build { drv: drv("hello"), host: Host::parse("ssh://builder") }
            );
        }
        other => panic!("expected a start, got {:?}", other),
    }
}

#[test]
fn start_with_missing_fields_is_unknown() {
    let mut r = raw("start");
    r.msg_type = Some(100);
    r.fields = Some(vec![JsonField::Str("x".to_string())]);
    match message_from_raw(&r, "line") {
        NixJsonMessage::Start(s) => {
            assert_eq!(s.id, 0);
            assert_eq!(s.text, "");
            assert_eq!(s.activity, Activity::Unknown);
        }
        other => panic!("expected a start, got {:?}", other),
    }
}

#[test]
fn progress_result_and_bad_paths() {
    let mut r = raw("result");
    r.id = Some(3);
    r.msg_type = Some(105);
    r.fields = Some(vec![
        JsonField::Uint(10),
        JsonField::Uint(20),
        JsonField::Uint(1),
        JsonField::Other,
    ]);
    match message_from_raw(&r, "line") {
        NixJsonMessage::Result(a) => {
            assert_eq!(a.id, 3);
            match a.result {
                ActivityResult::Progress(p) => {
                    assert_eq!((p.done, p.expected, p.running, p.failed), (10, 20, 1, 0));
                }
                other => panic!("expected progress, got {:?}", other),
            }
        }
        other => panic!("expected a result, got {:?}", other),
    }
    let mut bad = raw("result");
    bad.msg_type = Some(102);
    bad.fields = Some(vec![JsonField::Str("not a path".to_string())]);
    match message_from_raw(&bad, "line") {
        NixJsonMessage::Result(a) => assert_eq!(a.result, ActivityResult::Other),
        other => panic!("expected a result, got {:?}", other),
    }
}

#[test]
fn messages_stops_and_unknown_actions() {
    let mut m = raw("msg");
    m.level = Some(0);
    m.msg = Some("error: boom".to_string());
    assert_eq!(
        message_from_raw(&m, "line"),
        NixJsonMessage::Message(MessageAction {
            level: Verbosity::Error,
            message: "error: boom".to_string()
        })
    );
    let mut s = raw("stop");
    s.id = Some(9);
    match message_from_raw(&s, "line") {
        NixJsonMessage::Stop(a) => assert_eq!(a.id, 9),
        other => panic!("expected a stop, got {:?}", other),
    }
    assert_eq!(
        message_from_raw(&raw("setPhase"), "the line"),
        NixJsonMessage::Plain("the line".to_string())
    );
}

#[test]
fn verbosity_levels() {
    assert_eq!(Verbosity::from_u64(0), Verbosity::Error);
    assert_eq!(Verbosity::from_u64(3), Verbosity::Info);
    assert_eq!(Verbosity::from_u64(42), Verbosity::Vomit);
    assert_eq!(Verbosity::from_u64(5).level(), 5);
    assert_eq!(Verbosity::from_u64(42).level(), 7);
}

#[test]
fn escape_sequences_are_stripped() {
    assert_eq!(strip_ansi_codes("\x1b[31;1mred\x1b[0m text"), "red text");
    assert_eq!(strip_ansi_codes("plain"), "plain");
    assert_eq!(strip_ansi_codes("\x1b[unterminated"), "nterminated");
    let once = strip_ansi_codes("a\x1b[1mb\x1b[0mc");
    assert_eq!(strip_ansi_codes(&once), once);
}

#[test]
fn tick_content() {
    assert_eq!(
        extract_tick_content("building 'abc' on 'x'"),
        Some("abc".to_string())
    );
    assert_eq!(extract_tick_content("no ticks"), None);
    assert_eq!(extract_tick_content("one ' tick"), None);
}

#[test]
fn malformed_plan_header() {
    let bad = "these paths will be fetched ) ( download, 1 MiB unpacked\n";
    assert!(is_malformed_old_style_chunk(bad));
    assert!(!is_malformed_old_style_chunk("building nothing\n"));
}

#[test]
fn copies_checks_and_failures() {
    let (m, n) = parse_old_style_chunk("copying 3 paths...\nrest").unwrap();
    assert_eq!(m, NixOldStyleMessage::PlanCopies(3));
    assert_eq!(n, 19);
    assert!(parse_old_style_chunk("copying paths...\n").is_none());
    assert!(parse_old_style_chunk("nothing to see\n").is_none());

    let check = format!("checking outputs of '/nix/store/{}-x.drv'...\n", HASH);
    let (m, _) = parse_old_style_chunk(&check).unwrap();
    assert_eq!(m, NixOldStyleMessage::Checking(drv("x")));

    let mismatch = format!(
        "error: hash mismatch in fixed-output derivation '/nix/store/{}-src.drv':\n",
        HASH
    );
    let (m, _) = parse_old_style_chunk(&mismatch).unwrap();
    assert_eq!(m, NixOldStyleMessage::Failed(drv("src"), FailType::HashMismatch));

    let overflow = format!(
        "builder for '/nix/store/{}-x.drv' failed with exit code 99999999999\n",
        HASH
    );
    let (m, _) = parse_old_style_chunk(&overflow).unwrap();
    assert_eq!(m, NixOldStyleMessage::Failed(drv("x"), FailType::ExitCode(1)));

    let code = format!("builder for '/nix/store/{}-x.drv' failed with exit code 42;\n", HASH);
    let (m, _) = parse_old_style_chunk(&code).unwrap();
    assert_eq!(m, NixOldStyleMessage::Failed(drv("x"), FailType::ExitCode(42)));
}

#[test]
fn uploads_and_byte_counts() {
    let up = format!("copying path '/nix/store/{}-x' to 'ssh://host'...\n", HASH);
    let (m, n) = parse_old_style_chunk(&up).unwrap();
    let sp = StorePath::parse(&format!("/nix/store/{}-x", HASH)).unwrap();
    assert_eq!(m, NixOldStyleMessage::Uploading(sp, Host::parse("ssh://host")));
    assert_eq!(n, up.len());

    let wide = format!("building '/nix/store/{}-gr\u{fc}n.drv'...\n", HASH);
    let (_, n) = parse_old_style_chunk(&wide).unwrap();
    assert_eq!(n, wide.len());
}

#[test]
fn a_last_line_without_newline_is_taken_whole() {
    let cut = format!("building '/nix/store/{}-a.drv'...", HASH);
    let (m, n) = parse_old_style_chunk(&cut).unwrap();
    assert_eq!(m, NixOldStyleMessage::Build(drv("a"), Host::Localhost));
    assert_eq!(n, cut.len());
    assert_eq!(&cut[n..], "");

    let plan = format!("these 1 derivations will be built:\n  /nix/store/{}-a.drv", HASH);
    let (_, n) = parse_old_style_chunk(&plan).unwrap();
    assert_eq!(n, plan.len());

    let two = format!("Cannot build '/nix/store/{}-a.drv'.\nReason: builder failed with exit code 3.", HASH);
    let (m, n) = parse_old_style_chunk(&two).unwrap();
    assert_eq!(m, NixOldStyleMessage::Failed(drv("a"), FailType::ExitCode(3)));
    assert_eq!(n, two.len());
}

#[test]
fn plans_name_each_derivation_once() {
    let plan = format!(
        "these 2 derivations will be built:\n  /nix/store/{h}-a.drv\n  /nix/store/{h}-a.drv\nnext\n",
        h = HASH
    );
    let (m, n) = parse_old_style_chunk(&plan).unwrap();
    assert_eq!(m, NixOldStyleMessage::PlanBuilds(vec![drv("a")], drv("a")));
    assert_eq!(&plan[n..], "next\n");
}

#[test]
fn derivation_files_are_read() {
    let content = format!(
        "Derive([(\"out\",\"/nix/store/{h}-foo\",\"\",\"\")],[(\"/nix/store/{h}-bar.drv\",[\"out\",\"dev\"])],[\"/nix/store/{h}-src\"],\"x86_64-linux\",\"/bin/sh\",[\"-c\",\"x\"],[(\"pname\",\"foo\"),(\"version\",\"1\")])",
        h = HASH
    );
    let d = parse_derivation_content(&content).unwrap();
    assert_eq!(d.outputs.len(), 1);
    assert_eq!(d.outputs[0].0, OutputName::Out);
    assert_eq!(d.outputs[0].1.name, "foo");
    assert_eq!(d.input_drvs.len(), 1);
    assert_eq!(d.input_drvs[0].0, drv("bar"));
    assert_eq!(d.input_drvs[0].1, vec![OutputName::Out, OutputName::Dev]);
    assert_eq!(d.input_srcs.len(), 1);
    assert_eq!(d.platform, "x86_64-linux");
    assert_eq!(d.pname, Some("foo".to_string()));
}

#[test]
fn derivation_errors() {
    match parse_derivation_content("Foo(") {
        Err(DerivationParseError::UnexpectedToken(m)) => assert_eq!(m, "expected Derive, got Foo"),
        other => panic!("unexpected {:?}", other.is_ok()),
    }
    match parse_derivation_content("Derive") {
        Err(DerivationParseError::UnexpectedEof) => {}
        other => panic!("unexpected {:?}", other.is_ok()),
    }
    match parse_derivation_content("Derive[") {
        Err(DerivationParseError::UnexpectedToken(m)) => assert_eq!(m, "expected '(', got '['"),
        other => panic!("unexpected {:?}", other.is_ok()),
    }
}

#[test]
fn durations() {
    assert_eq!(format_duration_secs(5), "05s");
    assert_eq!(format_duration_secs(65), "01m05s");
    assert_eq!(format_duration_secs(3725), "01h02m05s");
    assert_eq!(format_duration_secs(90061), "1d01h01m01s");
}

#[test]
fn host_abbreviations() {
    assert_eq!(host_abbrev("cache.nixos.org"), "cn");
    assert_eq!(host_abbrev("builder"), "bu");
    assert_eq!(host_abbrev("a"), "a");
    assert_eq!(host_abbrev(".x"), "?x");
    let hosts = vec!["a.b".to_string(), "c.d".to_string(), "a.b".to_string()];
    assert_eq!(
        compute_host_abbrevs(&hosts),
        vec![
            ("a.b".to_string(), "ab".to_string()),
            ("c.d".to_string(), "cd".to_string())
        ]
    );
    assert!(compute_host_abbrevs(&vec!["a.b".to_string(), "a.b".to_string()]).is_empty());
}

#[test]
fn hosts_after_names() {
    let abbrevs = vec![
        ("builder".to_string(), "bu".to_string()),
        ("cache".to_string(), "ca".to_string()),
    ];
    assert_eq!(format_single_host(&Host::Localhost, &abbrevs, true), "");
    let remote = Host::parse("ssh://builder");
    assert_eq!(
        format_single_host(&remote, &abbrevs, true),
        format!(" on {}bu{}", MAGENTA, RESET)
    );
    assert_eq!(format_single_host(&Host::parse("other"), &abbrevs, false), " on other");
    let hs = vec![remote.clone(), Host::parse("https://cache"), remote];
    assert_eq!(format_hosts(&hs, &abbrevs, "from"), " from bu, ca");
    assert_eq!(format_hosts(&hs, &abbrevs[..1].to_vec(), "from"), "");
}

#[test]
fn dependency_summary_text() {
    let c = DependencyCounts {
        failed_builds: 1,
        planned_builds: 2,
        planned_downloads: 3,
        ..DependencyCounts::default()
    };
    assert_eq!(
        format_dependency_summary(&c),
        format!(
            "{}1 ⚠{} {}2 ⏸{} {}3 ↓ ⏸{}",
            RED, RESET, BLUE, RESET, BLUE, RESET
        )
    );
    assert_eq!(format_dependency_summary(&DependencyCounts::default()), "");
}

#[test]
fn error_and_trace_sections() {
    let errors = vec!["error: a\n       last 10 log lines:\nx".to_string()];
    assert_eq!(
        render_errors(&errors, 1),
        format!("━{}{}1 Errors: {}\n┃ error: a", BOLD, RED, RESET)
    );
    assert_eq!(
        render_errors(&errors, 10),
        format!(
            "━{}{}1 Errors: {}\n┃ error: a\n┃        last 10 log lines:\n┃ x",
            BOLD, RED, RESET
        )
    );
    let two = vec!["first".to_string(), "second".to_string()];
    assert_eq!(
        render_errors(&two, 10),
        format!("━{}{}2 Errors: {}\n┃ second\n┃ first", BOLD, RED, RESET)
    );
    let traces = vec!["trace: t".to_string()];
    assert_eq!(
        render_traces(&traces, 10),
        format!("━{}{}1  Trace: {}\n┃ trace: t", BOLD, YELLOW, RESET)
    );
}

#[test]
fn window_fitting() {
    assert_eq!(
        truncate_output_to_window("a\nb\nc\nd\ne\nf\ng\nh", 80, 7),
        "a\n ⋮ \nf\ng\nh"
    );
    assert_eq!(truncate_output_to_window("a\nb", 80, 7), "a\nb");
    assert_eq!(
        truncate_output_to_window("abcdefghij", 5, 24),
        format!("abcd…{}", RESET)
    );
    assert_eq!(truncate_output_to_window("ab │ cdefghij", 5, 24), "ab │ cdefghij");
}

#[test]
fn wide_characters_take_two_columns() {
    assert_eq!(display_width("日本"), 4);
    assert_eq!(display_width("\x1b[1mab\x1b[0m"), 2);
}

#[test]
fn summary_table_layout() {
    let c = DependencyCounts {
        completed_builds: 1,
        ..DependencyCounts::default()
    };
    let text = render_summary_table(&c, &Vec::new(), 0, 0, "T");
    let expected = format!(
        "━━━ {b}Builds         {r}\n┗━ ∑ {y}⏵ 0{r} │ {b}{g}✔ 1{r} │ {bl}⏸ 0{r} │ {b}T{r}",
        b = BOLD,
        r = RESET,
        y = YELLOW,
        g = GREEN,
        bl = BLUE
    );
    assert_eq!(text, expected);
}

#[test]
fn log_messages_and_their_effects() {
    let plan = MessageAction {
        level: Verbosity::Info,
        message: format!("  /nix/store/{}-x.drv", HASH),
    };
    match message_effect(&plan) {
        MessageEffect::PlanBuild(d) => assert_eq!(d, drv("x")),
        other => panic!("unexpected {:?}", other),
    }
    let err = MessageAction {
        level: Verbosity::Error,
        message: format!(
            "\x1b[31merror:\x1b[0m builder for '/nix/store/{}-x.drv' failed with exit code 2 ",
            HASH
        ),
    };
    match message_effect(&err) {
        MessageEffect::NixError { core, failure } => {
            assert_eq!(
                core,
                format!("error: builder for '/nix/store/{}-x.drv' failed with exit code 2", HASH)
            );
            assert_eq!(failure, Some((drv("x"), FailType::ExitCode(2))));
        }
        other => panic!("unexpected {:?}", other),
    }
    let eval = MessageAction {
        level: Verbosity::Talkative,
        message: "evaluating file '/a/b.nix''".to_string(),
    };
    match message_effect(&eval) {
        MessageEffect::EvaluatingFile(f) => assert_eq!(f, "/a/b.nix"),
        other => panic!("unexpected {:?}", other),
    }
    let trace = MessageAction {
        level: Verbosity::Error,
        message: "trace: here".to_string(),
    };
    assert!(matches!(message_effect(&trace), MessageEffect::NixTrace { .. }));
    let quiet = MessageAction {
        level: Verbosity::Debug,
        message: "debug stuff".to_string(),
    };
    assert!(matches!(message_effect(&quiet), MessageEffect::Ignore));
    let info = MessageAction {
        level: Verbosity::Warn,
        message: "warning: x".to_string(),
    };
    assert!(matches!(message_effect(&info), MessageEffect::Log));
}

#[test]
fn report_names() {
    assert_eq!(get_report_name(&None, "hello-2.12.1"), "hello");
    assert_eq!(get_report_name(&None, "1.2"), "1.2");
    assert_eq!(get_report_name(&Some("pkg".to_string()), "hello-2"), "pkg");
}

#[test]
fn input_changes_the_state_once() {
    let mut s = ProgressState::JustStarted;
    assert!(s.set_input_received());
    assert_eq!(s, ProgressState::InputReceived);
    assert!(!s.set_input_received());
    assert_eq!(s, ProgressState::InputReceived);
    let mut f = ProgressState::Finished;
    assert!(!f.set_input_received());
    assert_eq!(f, ProgressState::Finished);
}

#[test]
fn earlier_reports() {
    let reports = vec!["error: abc".to_string()];
    assert!(already_reported(&reports, "abc"));
    assert!(!already_reported(&reports, "xyz"));
}

#[test]
fn nix_arguments() {
    let args = vec!["-A".to_string(), "x".to_string()];
    assert_eq!(with_json(&args), vec!["-v", "--log-format", "internal-json", "-A", "x"]);
    let shell = vec!["nixpkgs#hello".to_string(), "-c".to_string(), "hello".to_string()];
    assert_eq!(
        replace_command_with_exit(&shell),
        vec!["nixpkgs#hello", "--command", "sh", "-c", "exit"]
    );
}

#[test]
fn frames_replace_the_previous_one() {
    let mut t = TerminalRenderer::new();
    let first = t.draw(&[], "a\nb", true, 80);
    assert_eq!(
        first,
        format!("{}a\n{}b{}", START_ATOMIC_UPDATE, CURSOR_TO_COL_0, END_ATOMIC_UPDATE)
    );
    assert_eq!(t.last_printed_line_count, 2);
    let second = t.draw(&["log\r".to_string()], "c", true, 80);
    assert_eq!(
        second,
        format!(
            "{}{}{}{}log{}{}c{}",
            START_ATOMIC_UPDATE,
            CLEAR_LINE,
            CURSOR_PREV_LINE_1,
            CLEAR_LINE,
            RESET,
            CURSOR_NEXT_LINE_1,
            END_ATOMIC_UPDATE
        )
    );
    assert_eq!(t.last_printed_line_count, 1);
}

#[test]
fn tree_rows() {
    assert_eq!(derivation_row_text("pkg", &RowState::Unknown, None), "pkg");
    let waiting = DependencyCounts {
        planned_builds: 2,
        ..DependencyCounts::default()
    };
    assert_eq!(
        derivation_row_text("pkg", &RowState::Planned, Some(waiting)),
        format!(
            "{b}⏸ pkg{r} {g} waiting for {b}2 ⏸{r}{r}",
            b = BLUE,
            r = RESET,
            g = GREY
        )
    );
    let building = RowState::Building {
        host: format!(" on {}b{}", MAGENTA, RESET),
        phase: Some("build".to_string()),
        elapsed: Some((65, Some(120))),
    };
    assert_eq!(
        derivation_row_text("pkg", &building, None),
        format!(
            "{bo}{y}⏵ pkg{r} on {m}b{r} {bo}(build){r} ⏱ 01m05s (∅ 02m00s)",
            bo = BOLD,
            y = YELLOW,
            r = RESET,
            m = MAGENTA
        )
    );
    let failed = RowState::Failed {
        host: String::new(),
        fail_type: FailType::ExitCode(2),
        duration: 3,
        phase: None,
    };
    assert_eq!(
        derivation_row_text("pkg", &failed, None),
        format!("{}{}⚠ pkg failed with exit code 2 after ⏱ 03s{}", BOLD, RED, RESET)
    );
    let built = RowState::Built {
        host: " on b".to_string(),
        duration: None,
    };
    assert_eq!(
        derivation_row_text("pkg", &built, None),
        format!("{g}✔ pkg{r} {gr}on b{r}", g = GREEN, r = RESET, gr = GREY)
    );
    let downloaded = RowState::Downloaded {
        bytes: 1024,
        hosts: String::new(),
    };
    assert_eq!(
        derivation_row_text("pkg", &downloaded, None),
        format!("{g}↓ ✔ pkg{r} {gr}1.0 KiB{r}", g = GREEN, r = RESET, gr = GREY)
    );
    let downloading = RowState::Downloading {
        hosts: " from ca".to_string(),
        elapsed: None,
        progress: " 1 B/2 B".to_string(),
    };
    assert_eq!(
        derivation_row_text("pkg", &downloading, None),
        format!("{bo}{y}↓ ⏵ pkg{r} from ca {g}1 B/2 B{r}", bo = BOLD, y = YELLOW, r = RESET, g = GREEN)
    );
}

#[test]
fn truncated_text_fits_its_width() {
    let samples = [
        format!("{}a long yellow line of text{}", YELLOW, RESET),
        "plain text that is longer than the window".to_string(),
        format!("wide 漢字 characters {}bold{} and more", BOLD, RESET),
        format!("{}{}", RED, "x".repeat(40)),
    ];
    for s in samples.iter() {
        for max in [0usize, 1, 5, 10, 17, 100] {
            let t = truncate_display(s, max);
            assert!(display_width(&t) <= max, "{:?} cut to {} is {:?}", s, max, t);
        }
    }
    assert_eq!(truncate_display("abcdef", 3), "abc");
    assert_eq!(truncate_display(&format!("{}abcdef", RED), 2), format!("{}ab{}", RED, RESET));
}

#[test]
fn truncation_keeps_the_beginning_of_the_text() {
    let plain = "wide 漢字 text";
    for max in 0usize..20 {
        let t = truncate_display(plain, max);
        assert!(plain.starts_with(t.as_str()), "{:?} cut to {} is {:?}", plain, max, t);
    }
    assert_eq!(truncate_display(plain, display_width(plain)), plain);
    let styled = format!("{}abc{}def", RED, BOLD);
    for max in 0usize..8 {
        let t = truncate_display(&styled, max);
        let kept = t.strip_suffix(RESET).unwrap_or(&t);
        assert!(styled.starts_with(kept), "{:?} cut to {} is {:?}", styled, max, t);
    }
}

#[test]
fn builds_section_heading_counts_roots() {
    let title = format!("{}{}{}Dependency Graph{}", RESET, BOLD, BLUE, RESET);
    let rows = vec!["a".to_string(), "b".to_string()];
    assert_eq!(
        render_builds(&rows, 1, 1),
        format!("━ {}:\n┃ a\n┃ b", title)
    );
    assert_eq!(render_builds(&vec![], 3, 3), format!("━ {} with 3 roots:", title));
    assert_eq!(render_builds(&vec![], 12, 2), format!("━ {} showing 2 of 12 roots:", title));
}

#[test]
fn platform_is_shown_only_where_it_differs() {
    let x86 = Some("x86_64-linux".to_string());
    let arm = Some("aarch64-linux".to_string());
    assert_eq!(format_differing_platform("hello", &x86, &arm), "hello-aarch64-linux");
    assert_eq!(format_differing_platform("hello", &x86, &x86.clone()), "hello");
    assert_eq!(format_differing_platform("hello", &None, &arm), "hello");
    assert_eq!(format_differing_platform("hello", &x86, &None), "hello");
}

#[test]
fn build_log_lines_are_led_by_the_build_name() {
    assert_eq!(log_prefix("hello-2.12"), format!("{}{}hello-2.12{}> ", RESET, BLUE, RESET));
}

#[test]
fn sections_are_joined_under_one_frame() {
    let sections = vec!["one".to_string(), "two\nmore".to_string()];
    assert_eq!(
        assemble_sections(&sections, 80, 24),
        format!("{}{}one\n{}{}two\nmore", RESET, UPPERLEFT, RESET, LEFT_T)
    );
    let tall: Vec<String> = (0..30).map(|i| format!("line {}", i)).collect();
    let out = assemble_sections(&vec![tall.join("\n")], 80, 10);
    assert!(out.lines().count() <= 10);
}

#[test]
fn waiting_and_idle_lines() {
    assert_eq!(waiting_line(3, false), format!("{}{} 03s{}", BOLD, CLOCK, RESET));
    assert_eq!(
        waiting_line(16, true),
        format!(
            "{}{} 16s{}{} nom hasn‘t detected any input. Have you redirected nix-build stderr into nom? (See -h and the README for details.){}",
            BOLD, CLOCK, RESET, GREY, RESET
        )
    );
    assert_eq!(idle_line(75), format!("{}{} 01m15s{}", BOLD, CLOCK, RESET));
}

#[test]
fn status_line_tells_how_the_build_ended() {
    assert_eq!(status_line(false, 3, 1, "", 5), format!("{} 05s", CLOCK));
    assert_eq!(
        status_line(true, 2, 1, "10:46:49", 61),
        format!("{}{}{} Exited after 2 build failures at 10:46:49 after 01m01s{}", BOLD, RED, WARNING, RESET)
    );
    assert_eq!(
        status_line(true, 0, 4, "10:46:49", 61),
        format!("{}{}{} Exited with 4 errors reported by nix at 10:46:49 after 01m01s{}", BOLD, RED, WARNING, RESET)
    );
    assert_eq!(
        status_line(true, 0, 0, "10:46:49", 61),
        format!("{}{}{} Finished at 10:46:49 after 01m01s{}", BOLD, GREEN, DONE, RESET)
    );
}

#[test]
fn hosts_are_counted_and_ordered_by_name() {
    let item = |key: &str, label: &str, kind: TallyKind, progress: Option<(usize, usize)>| TallyItem {
        host_key: key.to_string(),
        host_label: label.to_string(),
        kind,
        progress,
    };
    let items = vec![
        item("zeta", "zeta (ssh)", TallyKind::RunningBuild, None),
        item("", "localhost", TallyKind::CompletedBuild, None),
        item("cache.nixos.org", "cache.nixos.org (https)", TallyKind::RunningDownload, Some((10, 100))),
        item("cache.nixos.org", "cache.nixos.org (other)", TallyKind::CompletedDownload, Some((150, 100))),
        item("cache.nixos.org", "x", TallyKind::CompletedDownload, Some((5, 50))),
        item("zeta", "zeta (ssh)", TallyKind::RunningUpload, None),
        item("", "localhost", TallyKind::CompletedBuild, Some((7, 7))),
    ];
    let (hosts, done, expected) = tally_hosts(&items);
    let names: Vec<&str> = hosts.iter().map(|h| h.host.as_str()).collect();
    assert_eq!(names, vec!["localhost", "cache.nixos.org (https)", "zeta (ssh)"]);
    assert_eq!(hosts[0].completed_builds, 2);
    assert_eq!(hosts[0].done, 0);
    assert_eq!((hosts[1].running_downloads, hosts[1].completed_downloads), (1, 2));
    assert_eq!((hosts[1].done, hosts[1].expected), (10 + 150 + 50, 250));
    assert_eq!((hosts[2].running_builds, hosts[2].running_uploads), (1, 1));
    assert_eq!((done, expected), (210, 250));
}

#[test]
fn row_kind_puts_running_transfers_first() {
    let none = OutputTransfers {
        running_download: false,
        running_upload: false,
        planned_download: false,
        completed_download: false,
        completed_upload: false,
    };
    assert_eq!(row_kind(StatusKind::Built, OutputTransfers { running_download: true, ..none }), RowKind::Downloading);
    assert_eq!(row_kind(StatusKind::Building, OutputTransfers { running_upload: true, ..none }), RowKind::Uploading);
    assert_eq!(row_kind(StatusKind::Building, none), RowKind::Building);
    assert_eq!(row_kind(StatusKind::Unknown, OutputTransfers { planned_download: true, completed_download: true, ..none }), RowKind::PlannedDownload);
    assert_eq!(row_kind(StatusKind::Unknown, OutputTransfers { completed_upload: true, ..none }), RowKind::Uploaded);
    assert_eq!(row_kind(StatusKind::Planned, OutputTransfers { completed_download: true, ..none }), RowKind::Planned);
    assert_eq!(row_kind(StatusKind::Unknown, none), RowKind::Unknown);
    assert!(shows_waiting(true, StatusKind::Planned, false));
    assert!(shows_waiting(true, StatusKind::Unknown, true));
    assert!(!shows_waiting(false, StatusKind::Planned, true));
    assert!(!shows_waiting(true, StatusKind::Built, true));
}
