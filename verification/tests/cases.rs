use klog_lsp::calendar::{days_in_month, working_days_in_month};
use klog_lsp::completion::{get_completions, CompletionItem};
use klog_lsp::document::find_latest_date_in_content;
use klog_lsp::duration::{format_minutes_to_duration, parse_duration_to_minutes};
use klog_lsp::project::{get_project_aligned_text, get_project_table_report, project_tags_args};
use klog_lsp::settings::{
    find_day_duration_recursively, parse_day_duration_setting, parse_duration_to_minutes_flexible,
    JsonValue,
};

fn obj(entries: Vec<(&str, JsonValue)>) -> JsonValue {
    JsonValue::Object(entries.into_iter().map(|(k, v)| (k.to_string(), v)).collect())
}

#[test]
fn test_days_in_month() {
    assert_eq!(days_in_month(2026, 1), 31);
    assert_eq!(days_in_month(2026, 2), 28);
    assert_eq!(days_in_month(2024, 2), 29); // Leap year
    assert_eq!(days_in_month(2000, 2), 29); // Leap year
    assert_eq!(days_in_month(1900, 2), 28); // Not leap year
    assert_eq!(days_in_month(2026, 4), 30);
}

#[test]
fn test_find_latest_date_in_content() {
    let content = "2026-05-10\n  1h #project=Alpha\n\n2026-05-20\n  2h #project=Beta";
    assert_eq!(find_latest_date_in_content(content), Some((2026, 5, 20)));

    let content_slashes = "2026/04/15\n  1h\n2026/04/25\n  2h";
    assert_eq!(find_latest_date_in_content(content_slashes), Some((2026, 4, 25)));

    let content_empty = "no dates here";
    assert_eq!(find_latest_date_in_content(content_empty), None);
}

#[test]
fn test_parse_duration_to_minutes() {
    assert_eq!(parse_duration_to_minutes("1h30m"), Some(90));
    assert_eq!(parse_duration_to_minutes("45m"), Some(45));
    assert_eq!(parse_duration_to_minutes("2h"), Some(120));
    assert_eq!(parse_duration_to_minutes("+1h15m"), Some(75));
    assert_eq!(parse_duration_to_minutes("-30m"), Some(-30));
    assert_eq!(parse_duration_to_minutes("8h!"), Some(480));
}

#[test]
fn test_format_minutes_to_duration() {
    assert_eq!(format_minutes_to_duration(90), "1h30m");
    assert_eq!(format_minutes_to_duration(45), "45m");
    assert_eq!(format_minutes_to_duration(120), "2h");
    assert_eq!(format_minutes_to_duration(-30), "-30m");
    assert_eq!(format_minutes_to_duration(0), "0m");
}

#[test]
fn test_parse_duration_to_minutes_flexible() {
    assert_eq!(parse_duration_to_minutes_flexible("7.7h"), Some(462));
    assert_eq!(parse_duration_to_minutes_flexible("8h"), Some(480));
    assert_eq!(parse_duration_to_minutes_flexible("7h30m"), Some(450));
    assert_eq!(parse_duration_to_minutes_flexible("450m"), Some(450));
    assert_eq!(parse_duration_to_minutes_flexible("7.5"), Some(450));
    assert_eq!(parse_duration_to_minutes_flexible("8"), Some(480));
    assert_eq!(parse_duration_to_minutes_flexible("450"), Some(450));
    assert_eq!(parse_duration_to_minutes_flexible(""), None);
}

#[test]
fn test_parse_day_duration_setting() {
    assert_eq!(parse_day_duration_setting(&JsonValue::Number("7.7".to_string())), Some(462));
    assert_eq!(parse_day_duration_setting(&JsonValue::Number("8".to_string())), Some(480));
    assert_eq!(parse_day_duration_setting(&JsonValue::Number("450".to_string())), Some(450));
    assert_eq!(parse_day_duration_setting(&JsonValue::Str("7.7h".to_string())), Some(462));
    assert_eq!(parse_day_duration_setting(&JsonValue::Str("8h".to_string())), Some(480));
    assert_eq!(parse_day_duration_setting(&JsonValue::Str("7h30m".to_string())), Some(450));
}

#[test]
fn test_find_day_duration_recursively() {
    let value = obj(vec![(
        "settings",
        obj(vec![("klog-lsp", obj(vec![("day_duration", JsonValue::Str("7.7h".to_string()))]))]),
    )]);
    assert_eq!(
        find_day_duration_recursively(&value),
        Some(&JsonValue::Str("7.7h".to_string()))
    );

    let val_direct = obj(vec![("day_duration", JsonValue::Number("8".to_string()))]);
    assert_eq!(
        find_day_duration_recursively(&val_direct),
        Some(&JsonValue::Number("8".to_string()))
    );
}

#[test]
fn test_working_days_in_month() {
    // May 2026 has 31 days, starts on Friday, ends on Sunday. 10 weekend days. 21 working days.
    assert_eq!(working_days_in_month(2026, 5), 21);
    // Feb 2026 has 28 days, starts on Sunday. 8 weekend days. 20 working days.
    assert_eq!(working_days_in_month(2026, 2), 20);
    // Jan 2026 has 31 days, starts on Thursday. 9 weekend days. 22 working days.
    assert_eq!(working_days_in_month(2026, 1), 22);
}

/// What `klog tags --values --period 2026-05 --no-style` prints for the
/// document of `test_proportional_project_estimations`.
const TAGS_OUTPUT: &str = "#project 5h\n Alpha   2h\n Beta    3h";

#[test]
fn test_proportional_project_estimations() {
    // May 2026 has 21 working days.
    // If we set day_duration to 7h42m (462 minutes), the total end-of-month target is 21 * 462 = 9702 minutes (21d).
    // If total tracked is 5h (300 mins), Project Alpha has 2h (120 mins) and Project Beta has 3h (180 mins).
    // Ratio = 9702 / 300 = 32.34.
    // Project Alpha est: 120 * 32.34 = 3880.8 => 3881 mins => 8.4d.
    // Project Beta est: 180 * 32.34 = 5821.2 => 5821 mins => 12.6d.
    // Total est: 21d.
    let content = "2026-05-20 (8h!)\n  9:00 - 11:00 #project=Alpha\n  11:00 - 14:00 #project=Beta\n";
    let args = project_tags_args(content);
    assert_eq!(args, vec!["tags", "--values", "--period", "2026-05", "--no-style"]);

    // Day duration at its default (7h42m = 462 mins)
    let breakdown = get_project_aligned_text(content, TAGS_OUTPUT, 462).unwrap();
    println!("Aligned project breakdown:\n{}", breakdown);

    assert!(breakdown.contains("#project=Alpha"));
    assert!(breakdown.contains("#project=Beta"));
    assert!(breakdown.contains("8.4d"));
    assert!(breakdown.contains("12.6d"));
    assert!(breakdown.contains("21d"));

    let report = get_project_table_report(content, TAGS_OUTPUT, 462).unwrap();
    println!("Project table report:\n{}", report);
    assert!(report.contains("`#project=Alpha`"));
    assert!(report.contains("`#project=Beta`"));
    assert!(report.contains("8.4d"));
    assert!(report.contains("12.6d"));
    assert!(report.contains("21d"));
}

fn find_insert_text(list: &[CompletionItem], lbl: &str) -> String {
    list.iter().find(|item| item.label == lbl).map(|item| item.insert_text.clone()).unwrap()
}

#[test]
fn test_get_completions() {
    // Default day duration (7h42m = 462 mins)
    let list_default = get_completions("2026-05-21", "10:14", 462);
    assert_eq!(find_insert_text(&list_default, "today"), "${1:2026-05-21} (${2:7h42m!})");
    assert_eq!(find_insert_text(&list_default, "date"), "${1:YYYY-MM-DD} (${2:7h42m!})");
    assert_eq!(find_insert_text(&list_default, "20"), "${1:2026-05-21} (${2:7h42m!})");
    assert_eq!(find_insert_text(&list_default, "2026-05-21"), "${1:2026-05-21} (${2:7h42m!})");
    assert_eq!(
        find_insert_text(&list_default, "record"),
        "${1:2026-05-21} (${2:7h42m!})\n${3:Summary}\n    $0"
    );

    // Custom day duration (8h = 480 mins)
    let list_8h = get_completions("2026-05-21", "10:14", 480);
    assert_eq!(find_insert_text(&list_8h, "today"), "${1:2026-05-21} (${2:8h!})");
    assert_eq!(find_insert_text(&list_8h, "date"), "${1:YYYY-MM-DD} (${2:8h!})");
    assert_eq!(find_insert_text(&list_8h, "20"), "${1:2026-05-21} (${2:8h!})");
    assert_eq!(find_insert_text(&list_8h, "2026-05-21"), "${1:2026-05-21} (${2:8h!})");
    assert_eq!(
        find_insert_text(&list_8h, "record"),
        "${1:2026-05-21} (${2:8h!})\n${3:Summary}\n    $0"
    );
}
