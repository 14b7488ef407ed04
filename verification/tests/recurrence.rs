use task_tracker::recurrence::{generate_recurring_dates, try_generate_recurring_dates};

fn dates(start: &str, rule: &str) -> Vec<String> {
    generate_recurring_dates(start, rule)
}

#[test]
fn once_rule_keeps_start_text() {
    assert_eq!(dates("2024-05-01", "none"), vec!["2024-05-01".to_string()]);
    assert_eq!(dates("2024-05-01", ""), vec!["2024-05-01".to_string()]);
    assert_eq!(dates("not a date", "none"), vec!["not a date".to_string()]);
}

#[test]
fn unknown_rule_keeps_start_text() {
    assert_eq!(dates("2024-05-01", "weekly:3"), vec!["2024-05-01".to_string()]);
    assert_eq!(dates("2024-05-01", "Days:3"), vec!["2024-05-01".to_string()]);
}

#[test]
fn day_rule_covers_one_year() {
    let d = dates("2024-01-01", "days:7");
    assert_eq!(d.len(), 365 / 7 + 1);
    assert_eq!(d[0], "2024-01-01");
    assert_eq!(d[1], "2024-01-08");
    assert_eq!(d[52], "2024-12-30");
}

#[test]
fn day_rule_includes_the_limit() {
    assert_eq!(dates("2024-01-01", "days:365"), vec!["2024-01-01".to_string(), "2024-12-31".to_string()]);
    assert_eq!(dates("2024-01-01", "days:+365"), vec!["2024-01-01".to_string(), "2024-12-31".to_string()]);
}

#[test]
fn unreadable_start_counts_from_epoch() {
    assert_eq!(
        dates("someday", "days:100"),
        vec!["1970-01-01", "1970-04-11", "1970-07-20", "1970-10-28"]
    );
}

#[test]
fn unreadable_interval_gives_no_dates() {
    assert!(dates("2024-01-01", "days:abc").is_empty());
    assert!(dates("2024-01-01", "days:").is_empty());
    assert!(dates("2024-01-01", "months:-1").is_empty());
    assert!(dates("2024-01-01", "months:x").is_empty());
}

#[test]
fn month_rule_clamps_to_month_end() {
    let d = dates("2024-01-31", "months:1");
    let expected = vec![
        "2024-01-31", "2024-02-29", "2024-03-29", "2024-04-29", "2024-05-29", "2024-06-29",
        "2024-07-29", "2024-08-29", "2024-09-29", "2024-10-29", "2024-11-29", "2024-12-29",
        "2025-01-29",
    ];
    assert_eq!(d, expected);
}

#[test]
fn month_rule_with_longer_interval() {
    assert_eq!(dates("2024-03-15", "months:5"), vec!["2024-03-15", "2024-08-15", "2025-01-15"]);
}

#[test]
fn weekday_rule_second_tuesday() {
    let d = dates("2024-05-15", "nth:2:Tue");
    let expected = vec![
        "2024-06-11", "2024-07-09", "2024-08-13", "2024-09-10", "2024-10-08", "2024-11-12",
        "2024-12-10", "2025-01-14", "2025-02-11", "2025-03-11", "2025-04-08",
    ];
    assert_eq!(d, expected);
}

#[test]
fn weekday_rule_fifth_monday_only_where_it_exists() {
    assert_eq!(
        dates("2024-01-01", "nth:5:Mon"),
        vec!["2024-01-29", "2024-04-29", "2024-07-29", "2024-09-30", "2024-12-30"]
    );
}

#[test]
fn weekday_rule_sunday_counts_as_monday() {
    let expected = vec![
        "2024-02-05", "2024-03-04", "2024-04-01", "2024-05-06", "2024-06-03", "2024-07-01",
        "2024-08-05", "2024-09-02", "2024-10-07", "2024-11-04", "2024-12-02",
    ];
    assert_eq!(dates("2024-01-10", "nth:1:Sun"), expected);
    assert_eq!(dates("2024-01-10", "nth:1:Mon"), expected);
    assert_eq!(dates("2024-01-10", "nth:x:Mon"), expected);
}

#[test]
fn weekday_rule_needs_three_parts() {
    assert!(dates("2024-01-10", "nth:1").is_empty());
    assert!(dates("2024-01-10", "nth:1:Mon:extra").is_empty());
}

#[test]
fn rules_that_never_finish_are_refused() {
    assert_eq!(try_generate_recurring_dates("2024-01-01", "days:0"), None);
    assert_eq!(try_generate_recurring_dates("2024-01-01", "days:-3"), None);
    assert_eq!(try_generate_recurring_dates("2024-01-01", "months:0"), None);
    assert_eq!(try_generate_recurring_dates("2024-01-01", "days"), None);
    assert_eq!(try_generate_recurring_dates("2024-01-01", "months"), None);
    assert_eq!(try_generate_recurring_dates("2024-01-01", "nth:0:Mon"), None);
    assert_eq!(try_generate_recurring_dates("2024-01-01", "nth:4294967295:Mon"), None);
}

#[test]
fn checked_generation_agrees() {
    assert_eq!(
        try_generate_recurring_dates("2024-03-15", "months:5"),
        Some(vec!["2024-03-15".to_string(), "2024-08-15".to_string(), "2025-01-15".to_string()])
    );
    assert_eq!(try_generate_recurring_dates("x", "none"), Some(vec!["x".to_string()]));
}

#[test]
fn end_of_calendar() {
    assert_eq!(
        try_generate_recurring_dates("+262141-12-31", "months:12"),
        Some(vec!["+262141-12-31".to_string(), "+262142-12-31".to_string()])
    );
    assert_eq!(try_generate_recurring_dates("+262141-12-31", "days:365"), None);
    assert_eq!(try_generate_recurring_dates("+262141-12-31", "days:364"), None);
    assert_eq!(try_generate_recurring_dates("+262141-12-31", "days:400"), None);
    assert_eq!(try_generate_recurring_dates("+262142-01-01", "days:1"), None);
    assert_eq!(try_generate_recurring_dates("+262142-01-01", "weekly"), None);
    assert_eq!(
        try_generate_recurring_dates("+262142-01-01", "none"),
        Some(vec!["+262142-01-01".to_string()])
    );
}

#[test]
fn start_of_calendar() {
    let d = try_generate_recurring_dates("-262143-01-01", "days:200").unwrap();
    assert_eq!(d.len(), 2);
    assert_eq!(d[0], "-262143-01-01");
}

#[test]
fn weekday_rule_far_weeks_still_rise() {
    let d = dates("2024-01-01", "nth:53:Mon");
    let mut sorted = d.clone();
    sorted.sort();
    assert_eq!(d, sorted);
    let months: Vec<&str> = d.iter().map(|s| &s[5..7]).collect();
    let mut distinct = months.clone();
    distinct.dedup();
    assert_eq!(months.len(), distinct.len());
}
