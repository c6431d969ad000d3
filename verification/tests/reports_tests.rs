use nix_output_monitor::reports::{
    build_reports_dir,
    calculate_median, parse_i64, parse_report_line, report_line, BuildReport, History,
    ReportBook, HISTORY_LIMIT, REPORTS_HEADER,
};
use nix_output_monitor::types::HostWithoutContext;

#[test]
fn median_of_nothing_is_none() {
    assert_eq!(calculate_median(&vec![]), None);
}

#[test]
fn median_of_odd_count_is_middle_value() {
    assert_eq!(calculate_median(&vec![5, 1, 3]), Some(3));
    assert_eq!(calculate_median(&vec![42]), Some(42));
}

#[test]
fn median_of_even_count_is_mean_of_middle_values() {
    assert_eq!(calculate_median(&vec![10, 1, 20, 4]), Some(7));
    assert_eq!(calculate_median(&vec![1, 2]), Some(1));
}

#[test]
fn median_rounds_toward_zero() {
    assert_eq!(calculate_median(&vec![-3, 0]), Some(-1));
    assert_eq!(calculate_median(&vec![-4, -1, 7, -9]), Some(-2));
}

#[test]
fn median_of_many_values() {
    let values: Vec<i64> = (0..40).rev().collect();
    assert_eq!(calculate_median(&values), Some(19));
    let values: Vec<i64> = (0..41).map(|i| (i * 7) % 41).collect();
    assert_eq!(calculate_median(&values), Some(20));
}

#[test]
fn median_of_extreme_values_does_not_overflow() {
    assert_eq!(calculate_median(&vec![i64::MAX, i64::MAX]), Some(i64::MAX));
    assert_eq!(calculate_median(&vec![i64::MIN, i64::MIN]), Some(i64::MIN));
}

#[test]
fn integers_read_as_rust_reads_them() {
    assert_eq!(parse_i64("42"), Some(42));
    assert_eq!(parse_i64("-17"), Some(-17));
    assert_eq!(parse_i64("+5"), Some(5));
    assert_eq!(parse_i64("007"), Some(7));
    assert_eq!(parse_i64("9223372036854775807"), Some(i64::MAX));
    assert_eq!(parse_i64("-9223372036854775808"), Some(i64::MIN));
    assert_eq!(parse_i64("9223372036854775808"), None);
    assert_eq!(parse_i64("123456789012345678901234567890"), None);
    for bad in ["", "-", "+", " 1", "1 ", "1a", "--1", "1.5"] {
        assert_eq!(parse_i64(bad), None, "{:?}", bad);
        assert_eq!(bad.parse::<i64>().ok(), None);
    }
    for n in [0i64, 1, -1, 1234567, i64::MAX, i64::MIN] {
        assert_eq!(parse_i64(&n.to_string()), Some(n));
    }
}

#[test]
fn report_lines_are_read_field_by_field() {
    let r = parse_report_line("builder.example.com, hello-2.12 ,2024-01-02 03:04:05,42").unwrap();
    assert_eq!(r.host, HostWithoutContext::Hostname("builder.example.com".to_string()));
    assert_eq!(r.drv_name, "hello-2.12");
    assert_eq!(r.end_secs, 1704164645);
    assert_eq!(r.end_nanos, 0);
    assert_eq!(r.build_secs, 42);
    let local = parse_report_line(",hello,2024-01-02 03:04:05,7,extra").unwrap();
    assert_eq!(local.host, HostWithoutContext::Localhost);
    let local = parse_report_line("localhost,hello,2024-01-02 03:04:05,7").unwrap();
    assert_eq!(local.host, HostWithoutContext::Localhost);
}

#[test]
fn malformed_report_lines_hold_nothing() {
    assert_eq!(parse_report_line(""), None);
    assert_eq!(parse_report_line("   "), None);
    assert_eq!(parse_report_line("host,hello,2024-01-02 03:04:05"), None);
    assert_eq!(parse_report_line("host,hello,yesterday,5"), None);
    assert_eq!(parse_report_line("host,hello,2024-01-02 03:04:05,five"), None);
}

#[test]
fn report_lines_are_written_as_they_are_read() {
    let report = BuildReport {
        host: HostWithoutContext::Localhost,
        drv_name: "hello-2.12".to_string(),
        end_secs: 1704164645,
        end_nanos: 0,
        build_secs: 42,
    };
    let line = report_line(&report).unwrap();
    assert_eq!(line, ",hello-2.12,2024-01-02 03:04:05,42");
    assert_eq!(parse_report_line(&line), Some(report));
    assert_eq!(REPORTS_HEADER, "hostname,derivation name,utc time,build seconds");
}

#[test]
fn history_keeps_the_newest_durations_in_order() {
    let mut h = History::new();
    for i in 0..15i64 {
        h.insert_with_limit(1000 - i * 10, 0, i);
    }
    let entries = h.entries();
    assert_eq!(entries.len(), HISTORY_LIMIT);
    assert_eq!(entries[0], (910, 0, 9));
    assert_eq!(entries[HISTORY_LIMIT - 1], (1000, 0, 0));
    assert!(entries.windows(2).all(|w| (w[0].0, w[0].1) < (w[1].0, w[1].1)));
    h.insert_with_limit(1000, 0, 99);
    assert_eq!(h.entries().len(), HISTORY_LIMIT);
    assert_eq!(h.entries()[HISTORY_LIMIT - 1], (1000, 0, 99));
    h.insert_with_limit(500, 0, 1);
    assert_eq!(h.entries()[0], (910, 0, 9));
    assert_eq!(calculate_median(&h.durations()), Some(5));
}

#[test]
fn the_reports_directory_follows_the_environment() {
    let some = |s: &str| Some(s.to_string());
    assert_eq!(build_reports_dir(&some("/state"), &some("/home/u")), "/state/nix-output-monitor");
    assert_eq!(build_reports_dir(&some("/state/"), &None), "/state/nix-output-monitor");
    assert_eq!(build_reports_dir(&some("   "), &some("/home/u")), "/home/u/.local/state/nix-output-monitor");
    assert_eq!(build_reports_dir(&None, &some("/home/u")), "/home/u/.local/state/nix-output-monitor");
    assert_eq!(build_reports_dir(&None, &None), "/tmp/nix-output-monitor");
}

#[test]
fn reports_of_whole_seconds_read_back_at_the_edges_of_four_digit_years() {
    for (secs, host) in [
        (-30610224000i64, HostWithoutContext::Hostname("builder".to_string())),
        (253402300799i64, HostWithoutContext::Localhost),
        (0i64, HostWithoutContext::Hostname("a.b".to_string())),
    ] {
        let report = BuildReport { host, drv_name: "x".to_string(), end_secs: secs, end_nanos: 0, build_secs: -3 };
        let line = report_line(&report).unwrap();
        assert_eq!(parse_report_line(&line), Some(report));
    }
}

fn host(name: &str) -> HostWithoutContext {
    HostWithoutContext::Hostname(name.to_string())
}

#[test]
fn the_reports_file_reads_back_as_it_was_written() {
    let mut book = ReportBook::new();
    book.record(HostWithoutContext::Localhost, "hello-2.12".to_string(), 1704164645, 0, 42);
    book.record(host("builder"), "hello-2.12".to_string(), 1704164700, 0, 40);
    book.record(HostWithoutContext::Localhost, "hello-2.12".to_string(), 1704164600, 0, 44);
    book.record(HostWithoutContext::Localhost, "gcc-13".to_string(), 1704164000, 0, 900);
    let text = book.to_text();
    assert_eq!(
        text,
        "hostname,derivation name,utc time,build seconds\n\
         ,hello-2.12,2024-01-02 03:03:20,44\n\
         ,hello-2.12,2024-01-02 03:04:05,42\n\
         builder,hello-2.12,2024-01-02 03:05:00,40\n\
         ,gcc-13,2024-01-02 02:53:20,900\n"
    );
    let back = ReportBook::from_text(&text);
    assert_eq!(back.to_text(), text);
    let local = back.history(&HostWithoutContext::Localhost, "hello-2.12").unwrap();
    assert_eq!(local.entries(), vec![(1704164600, 0, 44), (1704164645, 0, 42)]);
    let remote = back.history(&host("builder"), "hello-2.12").unwrap();
    assert_eq!(remote.entries(), vec![(1704164700, 0, 40)]);
    assert!(back.history(&host("builder"), "gcc-13").is_none());
}

#[test]
fn reading_the_reports_file_passes_over_what_holds_no_report() {
    let text = "hostname,derivation name,utc time,build seconds\r\n\
                localhost,hello,2024-01-02 03:04:05,7\r\n\
                \n\
                not a report\n\
                ,hello,2024-01-02 03:04:06,9\n\
                builder,hello,2024-01-02 03:04:05,five\n\
                builder , hello ,2024-01-02 03:04:07 , 11";
    let book = ReportBook::from_text(text);
    let local = book.history(&HostWithoutContext::Localhost, "hello").unwrap();
    assert_eq!(local.entries(), vec![(1704164645, 0, 7), (1704164646, 0, 9)]);
    let remote = book.history(&host("builder"), "hello").unwrap();
    assert_eq!(remote.entries(), vec![(1704164647, 0, 11)]);
    // The first line is the header, whatever it holds.
    let book = ReportBook::from_text(",hello,2024-01-02 03:04:05,7\n");
    assert!(book.history(&HostWithoutContext::Localhost, "hello").is_none());
    assert_eq!(ReportBook::from_text("").to_text(), format!("{}\n", REPORTS_HEADER));
}

#[test]
fn the_reports_file_keeps_the_newest_durations_of_each_build() {
    let mut text = String::from("hostname,derivation name,utc time,build seconds\n");
    for i in 0..12i64 {
        text.push_str(&format!(",hello,2024-01-02 03:04:{:02},{}\n", 59 - i, i));
    }
    let book = ReportBook::from_text(&text);
    let h = book.history(&HostWithoutContext::Localhost, "hello").unwrap();
    let entries = h.entries();
    assert_eq!(entries.len(), HISTORY_LIMIT);
    assert_eq!(entries[0], (1704164690, 0, 9));
    assert_eq!(entries[HISTORY_LIMIT - 1], (1704164699, 0, 0));
    assert_eq!(calculate_median(&h.durations()), Some(4));
}
