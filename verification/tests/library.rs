use klog_lsp::calendar::{
    day_of_week, days_in_month, is_weekday, month_in_range, working_days_in_month,
};
use klog_lsp::document::{
    find_date_for_line, find_latest_date_in_content, find_tag_under_cursor, is_date_line,
};
use klog_lsp::duration::{
    convert_duration_string, duration_fits_chars, format_days, format_minutes_to_duration,
    get_day_duration_minutes, magnitude_fits_chars, parse_duration_to_minutes,
};
use klog_lsp::project::{
    get_project_breakdown, get_project_table_report, project_inputs_check, project_tags_args,
};
use klog_lsp::framing::{read_frame_exec, write_message_bytes, Frame};
use klog_lsp::protocol::{is_header_end, read_message, run_klog_command, write_message};
use klog_lsp::report::{
    day_total_args, get_day_summary_inline, run_klog_for_date, run_klog_for_tag, tag_outputs_ok,
    tag_report_args, tag_total_args, total_output_ok,
};
use klog_lsp::completion::completion_clock;
use klog_lsp::server::{
    classify_notification, classify_request, date_hover, dated_lines, hover_target,
    language_server_command, DocumentStore, HoverTarget, NotificationKind, RequestKind,
    METHOD_NOT_FOUND,
};
use klog_lsp::settings::{
    find_day_duration_recursively, flexible_in_range, parse_day_duration_setting,
    parse_duration_to_minutes_flexible, setting_in_range, JsonValue,
};

const TOTAL_OUTPUT: &str = "Total: 6h\nShould: 8h!\nDiff: -2h";

const REPORT_OUTPUT: &str = "                       Total\n2026 May    Tue 19.       3h\n            Wed 20.       5h\n                    ========\n                          8h";

#[test]
fn day_length_defaults_when_not_positive() {
    assert_eq!(get_day_duration_minutes(0), 462);
    assert_eq!(get_day_duration_minutes(-5), 462);
    assert_eq!(get_day_duration_minutes(480), 480);
}

#[test]
fn format_days_drops_trailing_zeros() {
    assert_eq!(format_days(462, 462), "1");
    assert_eq!(format_days(693, 462), "1.5");
    assert_eq!(format_days(480, 462), "1.04");
    assert_eq!(format_days(3881, 462), "8.4");
    assert_eq!(format_days(5821, 462), "12.6");
    // An exact tie in the hundredths goes to the even one.
    assert_eq!(format_days(9, 8), "1.12");
}

#[test]
fn whole_days_have_no_decimals() {
    assert_eq!(format_days(3 * 462, 462), "3");
    assert_eq!(format_days(21 * 480, 480), "21");
}

#[test]
fn convert_duration_string_cases() {
    assert_eq!(convert_duration_string("8h!", 480), "1d!");
    assert_eq!(convert_duration_string("8h!", 462), "1.04d!");
    assert_eq!(convert_duration_string("7h42m", 462), "1d");
    assert_eq!(convert_duration_string("11h33m", 462), "1.5d");
    assert_eq!(convert_duration_string("-16h", 480), "-2d");
    assert_eq!(convert_duration_string("+16h", 480), "+2d");
    assert_eq!(convert_duration_string("6h", 462), "6h");
    assert_eq!(convert_duration_string("-2h", 462), "-2h");
    assert_eq!(convert_duration_string("  abc ", 462), "  abc ");
    assert_eq!(convert_duration_string("", 462), "");
    // A day length that is not positive falls back to 7h42m.
    assert_eq!(convert_duration_string("7h42m", 0), "1d");
}

#[test]
fn duration_round_trip() {
    for m in [0, 1, 45, 59, 60, 61, 90, 462, 9702, -30, -61, 100_000, i32::MAX, i32::MIN + 1] {
        let s = format_minutes_to_duration(m);
        assert_eq!(parse_duration_to_minutes(&s), Some(m), "{}", s);
    }
}

#[test]
fn parse_duration_rejects_other_text() {
    assert_eq!(parse_duration_to_minutes(""), None);
    assert_eq!(parse_duration_to_minutes("abc"), None);
    assert_eq!(parse_duration_to_minutes("1h2h3m"), None);
    assert_eq!(parse_duration_to_minutes("1.5h"), None);
    assert_eq!(parse_duration_to_minutes("  2h  "), Some(120));
}

#[test]
fn format_minutes_to_duration_cases() {
    assert_eq!(format_minutes_to_duration(61), "1h1m");
    assert_eq!(format_minutes_to_duration(-90), "-1h30m");
    assert_eq!(format_minutes_to_duration(-120), "-2h");
    assert_eq!(format_minutes_to_duration(9702), "161h42m");
}

#[test]
fn flexible_parser_edge_cases() {
    assert_eq!(parse_duration_to_minutes_flexible("-1.5h"), Some(-90));
    assert_eq!(parse_duration_to_minutes_flexible("8h!"), Some(480));
    assert_eq!(parse_duration_to_minutes_flexible("0.01h"), Some(1));
    assert_eq!(parse_duration_to_minutes_flexible("0.5m"), Some(1));
    assert_eq!(parse_duration_to_minutes_flexible("23"), Some(1380));
    assert_eq!(parse_duration_to_minutes_flexible("24"), Some(24));
    assert_eq!(parse_duration_to_minutes_flexible("  "), None);
    assert_eq!(parse_duration_to_minutes_flexible("abc"), None);
    assert_eq!(parse_duration_to_minutes_flexible("1h2h3m"), None);
}

#[test]
fn flexible_parser_reads_exponents_and_words() {
    assert_eq!(parse_duration_to_minutes_flexible("1e1h"), Some(600));
    assert_eq!(parse_duration_to_minutes_flexible("4.5E1m"), Some(45));
    assert_eq!(parse_duration_to_minutes_flexible("1e1"), Some(600));
    assert_eq!(parse_duration_to_minutes_flexible("2.4e1"), Some(24));
    assert_eq!(parse_duration_to_minutes_flexible("1e400h"), Some(i32::MAX));
    assert_eq!(parse_duration_to_minutes_flexible("1e-400h"), Some(0));
    assert_eq!(parse_duration_to_minutes_flexible("nan"), Some(0));
    assert_eq!(parse_duration_to_minutes_flexible("inf"), Some(i32::MAX));
    assert_eq!(parse_duration_to_minutes_flexible("Infinity"), Some(i32::MAX));
    assert_eq!(parse_duration_to_minutes_flexible("-inf"), Some(-i32::MAX));
    assert_eq!(parse_duration_to_minutes_flexible("infh"), Some(i32::MAX));
    assert_eq!(parse_duration_to_minutes_flexible("NaNm"), Some(0));
    assert_eq!(parse_duration_to_minutes_flexible("1hinfm"), Some(i32::MAX));
    assert_eq!(parse_duration_to_minutes_flexible("infh-infm"), Some(0));
    assert_eq!(parse_duration_to_minutes_flexible("infh-1m"), Some(i32::MAX));
    assert_eq!(parse_duration_to_minutes_flexible("infx"), None);
    assert!(!flexible_in_range("--inf"));
    assert!(flexible_in_range("-inf"));
    assert_eq!(parse_day_duration_setting(&JsonValue::Number("1.5e-7".to_string())), Some(0));
    assert_eq!(parse_day_duration_setting(&JsonValue::Number("1e21".to_string())), Some(i32::MAX));
    assert_eq!(parse_day_duration_setting(&JsonValue::Number("1e1".to_string())), Some(600));
}

#[test]
fn day_duration_setting_other_values() {
    assert_eq!(parse_day_duration_setting(&JsonValue::Bool(true)), None);
    assert_eq!(parse_day_duration_setting(&JsonValue::Null), None);
    assert_eq!(parse_day_duration_setting(&JsonValue::Number("7.5".to_string())), Some(450));
    assert_eq!(parse_day_duration_setting(&JsonValue::Number("-1".to_string())), Some(-60));
    assert_eq!(parse_day_duration_setting(&JsonValue::Str("nonsense".to_string())), None);
}

#[test]
fn day_duration_found_in_arrays_and_first_key_wins() {
    let value = JsonValue::Array(vec![
        JsonValue::Null,
        JsonValue::Object(vec![(
            "inner".to_string(),
            JsonValue::Object(vec![("day_duration".to_string(), JsonValue::Number("9".to_string()))]),
        )]),
    ]);
    assert_eq!(
        find_day_duration_recursively(&value),
        Some(&JsonValue::Number("9".to_string()))
    );
    let shallow = JsonValue::Object(vec![
        (
            "a".to_string(),
            JsonValue::Object(vec![("day_duration".to_string(), JsonValue::Number("1".to_string()))]),
        ),
        ("day_duration".to_string(), JsonValue::Number("2".to_string())),
    ]);
    assert_eq!(
        find_day_duration_recursively(&shallow),
        Some(&JsonValue::Number("2".to_string()))
    );
    assert_eq!(find_day_duration_recursively(&JsonValue::Str("day_duration".to_string())), None);
}

#[test]
fn weekdays_and_calendar() {
    // 2026-05-01 is a Friday, 2026-05-31 a Sunday.
    assert_eq!(day_of_week(2026, 5, 1), 5);
    assert_eq!(day_of_week(2026, 5, 31), 0);
    assert_eq!(day_of_week(2026, 6, 1), 1);
    assert_eq!(day_of_week(2025, 12, 31), 3);
    assert_eq!(day_of_week(2026, 1, 1), 4);
    assert!(is_weekday(2026, 5, 1));
    assert!(!is_weekday(2026, 5, 2));
    assert!(!is_weekday(2026, 5, 3));
    assert_eq!(days_in_month(2026, 13), 30);
    assert_eq!(working_days_in_month(2024, 2), 21);
}

#[test]
fn date_lines_and_dates() {
    assert!(is_date_line("2026-05-20"));
    assert!(is_date_line("  2026/05/20 (8h!)"));
    assert!(!is_date_line("2026-5-20"));
    assert!(!is_date_line("  1h #project=Alpha"));
    let content = "2026-05-19\n  1h\n\n2026-05-20 (8h!)\n  2h #work";
    assert_eq!(find_date_for_line(content, 1), Some("2026-05-19".to_string()));
    assert_eq!(find_date_for_line(content, 4), Some("2026-05-20".to_string()));
    assert_eq!(find_date_for_line(content, 9), None);
    assert_eq!(find_date_for_line("  1h", 0), None);
}

#[test]
fn latest_date_is_the_greatest() {
    let content = "2026-05-20\n  1h\n2025-12-31\n  1h\n2026-05-03\n";
    assert_eq!(find_latest_date_in_content(content), Some((2026, 5, 20)));
}

#[test]
fn tags_under_cursor() {
    let line = "  9:00 - 11:00 #project=Alpha #work";
    assert_eq!(find_tag_under_cursor(line, 15), Some("project=Alpha".to_string()));
    assert_eq!(find_tag_under_cursor(line, 20), Some("project=Alpha".to_string()));
    assert_eq!(find_tag_under_cursor(line, 31), Some("work".to_string()));
    assert_eq!(find_tag_under_cursor(line, 2), None);
    assert_eq!(find_tag_under_cursor(line, 100), None);
    assert_eq!(find_tag_under_cursor("a # b", 2), None);
    assert_eq!(find_tag_under_cursor("#äbc", 2), Some("äbc".to_string()));
}

#[test]
fn day_report_from_total_output() {
    let report = run_klog_for_date("2026-05-20", TOTAL_OUTPUT, 462).unwrap();
    assert_eq!(
        report,
        "### Day Report: 2026-05-20\n\n| Metric | Value |\n| :--- | :--- |\n| **Total** | **6h** |\n| Should | 1.04d! |\n| Diff | -2h |\n"
    );
    assert_eq!(run_klog_for_date("2026-05-20", "nothing", 462), None);
    let only_total = run_klog_for_date("2026-05-20", "Total: 16h", 480).unwrap();
    assert_eq!(
        only_total,
        "### Day Report: 2026-05-20\n\n| Metric | Value |\n| :--- | :--- |\n| **Total** | **2d** |\n"
    );
}

#[test]
fn day_summary_from_total_output() {
    assert_eq!(
        get_day_summary_inline(TOTAL_OUTPUT, 462),
        Some("Total: 6h  │  Should: 1.04d!  │  Diff: -2h".to_string())
    );
    assert_eq!(get_day_summary_inline("Total: 3h", 462), Some("Total: 3h".to_string()));
    assert_eq!(get_day_summary_inline("Should: 3h", 462), None);
}

#[test]
fn tag_report_from_outputs() {
    let report = run_klog_for_tag(
        "work",
        Some("Total: 8h\n(In 2 of 2 records)"),
        Some(REPORT_OUTPUT),
        462,
    )
    .unwrap();
    assert_eq!(
        report,
        "### Tag Report: #work\n\n| Date | Time |\n| :--- | :--- |\n| 2026 May 19 | 3h |\n| 2026 May 20 | 5h |\n| **Total** | **1.04d** |\n"
    );
    assert_eq!(run_klog_for_tag("work", None, None, 462), None);
    let months = run_klog_for_tag(
        "work",
        None,
        Some("2026 May    Fri 29.    1h\n     Jun    Mon  1.    2h\n            Tue  2.    3h"),
        462,
    )
    .unwrap();
    assert_eq!(
        months,
        "### Tag Report: #work\n\n| Date | Time |\n| :--- | :--- |\n| 2026 May 29 | 1h |\n| 2026 Jun 1 | 2h |\n| 2026 Jun 2 | 3h |\n"
    );
    let only_total = run_klog_for_tag("work", Some("Total: 2h"), None, 462).unwrap();
    assert_eq!(
        only_total,
        "### Tag Report: #work\n\n| Date | Time |\n| :--- | :--- |\n| **Total** | **2h** |\n"
    );
}

#[test]
fn project_report_exempt_values_keep_their_time() {
    let content = "2026-05-20 (8h!)\n  2h #project=Alpha\n  3h #project=ABSCP\n";
    let tags = "#project 5h\n Alpha   2h\n ABSCP   3h";
    let report = get_project_table_report(content, tags, 462).unwrap();
    assert!(report.contains("| `#project=Alpha` | 2h (40.0%) | 8.4d (40.0%) |"), "{}", report);
    assert!(report.contains("| `#project=ABSCP` | 3h (60.0%) | 3h   (1.9%) |"), "{}", report);
    assert!(report.contains("| **Total** | **5h (100.0%)** | **21d  (100.0%)** |"), "{}", report);
}

#[test]
fn project_breakdown_without_dates_or_values() {
    let content = "  2h #project=Alpha\n";
    let tags = "#project 2h\n Alpha   2h";
    let text = get_project_breakdown(content, tags, 462).unwrap();
    assert_eq!(
        text,
        "Project        │ Total       │ Est. End\n───────────────┼─────────────┼─────────\n#project=Alpha │ 2h (100.0%) │ -       \n───────────────┼─────────────┼─────────\nTotal          │ 2h (100.0%) │ -       "
    );
    assert_eq!(get_project_breakdown(content, "#other 2h\n x 2h", 462), None);
    assert_eq!(project_tags_args(content), vec!["tags", "--values", "--no-style"]);
}

#[test]
fn messages_are_framed_and_read_back() {
    assert_eq!(write_message("hello"), "Content-Length: 5\r\n\r\nhello");
    assert_eq!(write_message("ä"), "Content-Length: 2\r\n\r\nä");
    let headers = vec!["Content-Length: 5".to_string()];
    assert_eq!(read_message(&headers), Some(5));
    let mixed = vec![
        "content-length: 12".to_string(),
        "Content-Type: application/vscode-jsonrpc".to_string(),
    ];
    assert_eq!(read_message(&mixed), Some(12));
    assert_eq!(read_message(&vec![]), None);
    assert_eq!(read_message(&vec!["Content-Length: x".to_string()]), None);
    assert!(is_header_end("\r\n"));
    assert!(is_header_end(""));
    assert!(!is_header_end("Content-Length: 5\r\n"));
}

#[test]
fn klog_command_results() {
    assert_eq!(run_klog_command(true, "  Total: 1h \n"), Some("Total: 1h".to_string()));
    assert_eq!(run_klog_command(true, "   \n"), None);
    assert_eq!(run_klog_command(false, "Total: 1h"), None);
}

#[test]
fn document_store_reads_back_writes() {
    let mut store = DocumentStore::new();
    assert_eq!(store.get("file:///a.klg"), None);
    store.open("file:///a.klg", "2026-05-20\n");
    store.open("file:///b.klg", "other");
    assert_eq!(store.get("file:///a.klg").map(|s| s.as_str()), Some("2026-05-20\n"));
    store.change("file:///a.klg", &vec!["new text".to_string(), "ignored".to_string()]);
    assert_eq!(store.get("file:///a.klg").map(|s| s.as_str()), Some("new text"));
    store.change("file:///a.klg", &vec![]);
    assert_eq!(store.get("file:///a.klg").map(|s| s.as_str()), Some("new text"));
    store.close("file:///a.klg");
    assert_eq!(store.get("file:///a.klg"), None);
    assert_eq!(store.get("file:///b.klg").map(|s| s.as_str()), Some("other"));
}

#[test]
fn hover_targets() {
    let content = "2026-05-20 (8h!)\n  2h #project=Alpha\n2026-05-21\n  1h";
    match hover_target(content, 1, 6) {
        HoverTarget::Tag(t) => assert_eq!(t, "project=Alpha"),
        _ => panic!("expected a tag"),
    }
    match hover_target(content, 0, 2) {
        HoverTarget::Date { date, first_line } => {
            assert_eq!(date, "2026-05-20");
            assert!(first_line);
        }
        _ => panic!("expected a date"),
    }
    match hover_target(content, 2, 0) {
        HoverTarget::Date { date, first_line } => {
            assert_eq!(date, "2026-05-21");
            assert!(!first_line);
        }
        _ => panic!("expected a date"),
    }
    assert!(matches!(hover_target(content, 3, 2), HoverTarget::Nothing));
    assert!(matches!(hover_target(content, 10, 0), HoverTarget::Nothing));
}

#[test]
fn date_hover_joins_reports() {
    assert_eq!(date_hover(None, None), None);
    assert_eq!(date_hover(Some("A".to_string()), None), Some("A\n---\n".to_string()));
    assert_eq!(date_hover(None, Some("P".to_string())), Some("P".to_string()));
    assert_eq!(
        date_hover(Some("A".to_string()), Some("P".to_string())),
        Some("A\n---\nP".to_string())
    );
}

#[test]
fn dated_lines_for_lenses() {
    let content = "2026-05-20 (8h!)\n  2h\n2026-05-21";
    let ds = dated_lines(content);
    assert_eq!(ds.len(), 2);
    assert_eq!((ds[0].line, ds[0].date.as_str(), ds[0].lens_line, ds[0].end), (0, "2026-05-20", 1, 16));
    assert_eq!((ds[1].line, ds[1].date.as_str(), ds[1].lens_line, ds[1].end), (2, "2026-05-21", 2, 10));
}

#[test]
fn launch_command() {
    match language_server_command(Some("/usr/bin/klog-lsp".to_string())) {
        Ok(c) => {
            assert_eq!(c.command, "/usr/bin/klog-lsp");
            assert!(c.args.is_empty());
            assert!(c.env.is_empty());
        }
        Err(_) => panic!("expected a command"),
    }
    match language_server_command(None) {
        Ok(_) => panic!("expected an error"),
        Err(e) => assert_eq!(
            e,
            "klog-lsp binary not found. Please run `cargo install --path .` in the extension directory."
        ),
    }
}

fn chars(s: &str) -> Vec<char> {
    s.chars().collect()
}

#[test]
fn duration_range_checks() {
    assert!(magnitude_fits_chars(&chars("35791394h7m")));
    assert!(duration_fits_chars(&chars("-35791394h7m")));
    assert!(!magnitude_fits_chars(&chars("35791394h8m")));
    assert!(!duration_fits_chars(&chars("-35791394h8m")));
    assert!(magnitude_fits_chars(&chars("--35791394h-8m")));
    assert!(!duration_fits_chars(&chars("--35791394h-8m")));
    assert!(duration_fits_chars(&chars("not a duration")));
}

#[test]
fn report_output_checks() {
    assert!(total_output_ok(TOTAL_OUTPUT));
    assert!(!total_output_ok("Total: 99999999h"));
    assert!(!total_output_ok("Total: 1h\nDiff: 99999999h"));
    assert!(tag_outputs_ok(Some("Total: 8h"), Some(REPORT_OUTPUT)));
    assert!(tag_outputs_ok(None, None));
    assert!(!tag_outputs_ok(None, Some("2026 May    Tue 19.   99999999h")));
    assert!(!tag_outputs_ok(Some("Total: 99999999h"), None));
}

#[test]
fn month_range_checks() {
    assert!(month_in_range(2026, 5));
    assert!(month_in_range(1, 1));
    assert!(!month_in_range(2026, 13));
    assert!(!month_in_range(2026, 0));
    assert!(!month_in_range(i32::MAX, 5));
    assert!(!month_in_range(i32::MIN, 1));
}

#[test]
fn project_input_checks() {
    let content = "2026-05-20 (8h!)\n  2h #project=Alpha\n";
    let tags = "#project 2h\n Alpha   2h";
    assert!(project_inputs_check(content, tags, 462, true));
    assert!(!project_inputs_check(content, tags, i32::MAX, true));
    assert!(!project_inputs_check("2026-13-01\n  2h", tags, 462, true));
    assert!(project_inputs_check("2026-13-01\n  2h", "#project\n Alpha 2h", 462, false));
    assert!(!project_inputs_check(content, "#project 2h\n Alpha 99999999h", 462, true));
    assert!(project_inputs_check(content, "#other 2h", i32::MAX, true));
}

#[test]
fn setting_range_checks() {
    assert!(flexible_in_range("7.7h"));
    assert!(flexible_in_range("-99999999999h"));
    assert!(!flexible_in_range("--99999999999h"));
    assert!(setting_in_range(&JsonValue::Number("8".to_string())));
    assert!(!setting_in_range(&JsonValue::Number("-99999999999".to_string())));
    assert!(!setting_in_range(&JsonValue::Str("--99999999999h".to_string())));
    assert!(setting_in_range(&JsonValue::Null));
}

#[test]
fn methods_are_classified() {
    assert_eq!(classify_request("initialize"), RequestKind::Initialize);
    assert_eq!(classify_request("shutdown"), RequestKind::Shutdown);
    assert_eq!(classify_request("textDocument/hover"), RequestKind::Hover);
    assert_eq!(classify_request("textDocument/codeLens"), RequestKind::CodeLens);
    assert_eq!(classify_request("textDocument/inlayHint"), RequestKind::InlayHint);
    assert_eq!(classify_request("textDocument/completion"), RequestKind::Completion);
    assert_eq!(classify_request("textDocument/formatting"), RequestKind::Unknown);
    assert_eq!(classify_notification("exit"), NotificationKind::Exit);
    assert_eq!(
        classify_notification("workspace/didChangeConfiguration"),
        NotificationKind::ChangeConfiguration
    );
    assert_eq!(classify_notification("textDocument/didOpen"), NotificationKind::DidOpen);
    assert_eq!(classify_notification("textDocument/didChange"), NotificationKind::DidChange);
    assert_eq!(classify_notification("textDocument/didClose"), NotificationKind::DidClose);
    assert_eq!(classify_notification("initialized"), NotificationKind::Unknown);
    assert_eq!(METHOD_NOT_FOUND, -32601);
}

#[test]
fn shares_line_up_by_their_parentheses() {
    let content = "2026-05-20 (8h!)\n  9:00 - 11:00 #project=Alpha\n  11:00 - 14:00 #project=Beta\n";
    let tags = "#project 5h\n Alpha   2h\n Beta    3h30m\n Gamma   -30m";
    let text = get_project_breakdown(content, tags, 462).unwrap();
    let lines: Vec<&str> = text.lines().collect();
    assert_eq!(lines[2], "#project=Alpha │ 2h    (40.0%)  │ 8.4d  (40.0%) ");
    assert_eq!(lines[3], "#project=Beta  │ 3h30m (70.0%)  │ 14.7d (70.0%) ");
    assert_eq!(lines[4], "#project=Gamma │ -30m  (-10.0%) │ -2.1d (-10.0%)");
    assert_eq!(lines[6], "Total          │ 5h    (100.0%) │ 21d   (100.0%)");
    // Without a positive total there is no share.
    let no_total = get_project_breakdown(content, "#project\n Alpha 2h", 462).unwrap();
    assert!(no_total.contains("#project=Alpha │ 2h    │ "), "{}", no_total);
}

#[test]
fn klog_argument_lists() {
    assert_eq!(day_total_args("2026-05-20"), vec!["total", "--date", "2026-05-20", "--diff", "--no-style"]);
    assert_eq!(tag_total_args("work"), vec!["total", "--tag", "work", "--no-style"]);
    assert_eq!(tag_report_args("work"), vec!["report", "--tag", "work", "--no-style"]);
    assert_eq!(
        completion_clock(None, None),
        ("2026-05-21".to_string(), "09:00".to_string())
    );
    assert_eq!(
        completion_clock(Some("2027-01-02".to_string()), Some("10:14".to_string())),
        ("2027-01-02".to_string(), "10:14".to_string())
    );
}

#[test]
fn both_project_reports_agree() {
    let content = "2026-05-20 (8h!)\n  2h #project=Alpha\n  3h #project=Beta\n";
    let tags = "#project 5h\n Alpha   2h\n Beta    3h";
    let table = get_project_table_report(content, tags, 462).unwrap();
    let text = get_project_breakdown(content, tags, 462).unwrap();
    for cell in ["2h (40.0%)", "3h (60.0%)", "5h (100.0%)", "8.4d", "12.6d", "21d"] {
        assert!(table.contains(cell), "{}", table);
        assert!(text.contains(cell), "{}", text);
    }
    assert_eq!(get_project_table_report(content, "#other 2h\n x 2h", 462), None);
    assert_eq!(get_project_breakdown(content, "#other 2h\n x 2h", 462), None);
}

#[test]
fn framed_bytes_read_back() {
    let body = "{\"jsonrpc\":\"2.0\",\"method\":\"exit\",\"x\":\"ä\"}";
    let mut stream = write_message_bytes(body);
    assert_eq!(&stream[..20], b"Content-Length: 42\r\n");
    let framed_len = stream.len();
    stream.extend_from_slice(b"Content-Len");
    match read_frame_exec(&stream) {
        Frame::Body { start, len } => {
            assert_eq!(start + len, framed_len);
            assert_eq!(&stream[start..start + len], body.as_bytes());
        }
        _ => panic!("expected a body"),
    }
    assert!(matches!(read_frame_exec(&b"Content-Length: 10\r\n\r\nshort".to_vec()), Frame::Incomplete));
    assert!(matches!(read_frame_exec(&b"Content-Type: x\r\n\r\n".to_vec()), Frame::Stop));
    assert!(matches!(read_frame_exec(&b"content-length: 2\n\nok".to_vec()), Frame::Body { start: 19, len: 2 }));
    assert!(matches!(read_frame_exec(&Vec::new()), Frame::Incomplete));
}

#[test]
fn framed_message_reads_back() {
    let framed = write_message("{\"id\":1}");
    let mut parts = framed.splitn(3, "\r\n");
    let header = parts.next().unwrap();
    assert!(is_header_end(parts.next().unwrap()));
    assert_eq!(read_message(&vec![header.to_string()]), Some("{\"id\":1}".len()));
    assert_eq!(parts.next().unwrap(), "{\"id\":1}");
}
