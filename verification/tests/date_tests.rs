use week_parity::date::{
    days_between, get_week_status, initial_base_date, latest_old_date, try_week_status,
    week_status_from_days, DateError,
};

#[test]
fn test_same_day_is_week_one_odd() {
    assert_eq!(get_week_status("2026-06-01", "2026-06-01"), "Week 1: odd");
}

#[test]
fn test_seven_days_diff_is_week_two_even() {
    assert_eq!(get_week_status("2026-06-01", "2026-06-08"), "Week 2: even");
}

#[test]
fn test_thirteen_days_diff_is_week_two_even() {
    assert_eq!(get_week_status("2026-06-01", "2026-06-14"), "Week 2: even");
}

#[test]
fn test_fourteen_days_diff_is_week_three_odd() {
    assert_eq!(get_week_status("2026-06-01", "2026-06-15"), "Week 3: odd");
}

#[test]
fn test_before_start_date() {
    assert_eq!(
        get_week_status("2026-07-06", "2026-06-19"),
        "Before start date"
    );
}

#[test]
fn test_latest_old_date() {
    let dates = vec![
        "2026-03-02".to_string(),
        "2026-07-06".to_string(),
        "2026-09-07".to_string(),
    ];
    assert_eq!(
        latest_old_date(&dates, "2026-08-01"),
        Some("2026-07-06".to_string())
    );
}

#[test]
fn week_status_counts_across_a_leap_day() {
    // 2024-02-01 to 2024-03-01 is 29 days: week 5.
    assert_eq!(get_week_status("2024-02-01", "2024-03-01"), "Week 5: odd");
    // 2023-02-01 to 2023-03-01 is 28 days: week 5 as well, its first day.
    assert_eq!(get_week_status("2023-02-01", "2023-03-01"), "Week 5: odd");
    assert_eq!(get_week_status("2023-02-01", "2023-02-28"), "Week 4: even");
}

#[test]
fn week_status_across_years() {
    // 2025-09-01 to 2026-01-05 is 126 days: week 19.
    assert_eq!(get_week_status("2025-09-01", "2026-01-05"), "Week 19: odd");
    assert_eq!(get_week_status("2026-06-02", "2026-06-01"), "Before start date");
}

#[test]
fn week_status_from_days_values() {
    assert_eq!(week_status_from_days(-1), "Before start date");
    assert_eq!(week_status_from_days(0), "Week 1: odd");
    assert_eq!(week_status_from_days(6), "Week 1: odd");
    assert_eq!(week_status_from_days(7), "Week 2: even");
    assert_eq!(week_status_from_days(63), "Week 10: even");
    assert_eq!(week_status_from_days(700), "Week 101: odd");
    assert_eq!(week_status_from_days(i64::MAX), "Week 1317624576693539402: even");
}

#[test]
fn days_between_counts_signed_days() {
    assert_eq!(days_between(10, 3), 7);
    assert_eq!(days_between(3, 10), -7);
    assert_eq!(days_between(i32::MIN, i32::MAX), i32::MIN as i64 - i32::MAX as i64);
}

#[test]
fn try_week_status_reports_the_bad_date() {
    assert_eq!(
        try_week_status("2026-06-01", "2026-06-15"),
        Ok("Week 3: odd".to_string())
    );
    assert_eq!(
        try_week_status("not a date", "2026-06-15"),
        Err(DateError::InvalidStartDate)
    );
    assert_eq!(
        try_week_status("2026-02-30", "also bad"),
        Err(DateError::InvalidStartDate)
    );
    assert_eq!(
        try_week_status("2026-06-01", ""),
        Err(DateError::InvalidCurrentDate)
    );
    assert_eq!(DateError::InvalidStartDate.message(), "Invalid start date");
    assert_eq!(DateError::InvalidCurrentDate.message(), "Invalid current date");
}

#[test]
fn latest_old_date_takes_earliest_when_all_are_later() {
    let dates = vec![
        "2026-09-07".to_string(),
        "2026-03-02".to_string(),
        "2026-07-06".to_string(),
    ];
    assert_eq!(
        latest_old_date(&dates, "2025-01-01"),
        Some("2026-03-02".to_string())
    );
}

#[test]
fn latest_old_date_edge_cases() {
    let empty: Vec<String> = Vec::new();
    assert_eq!(latest_old_date(&empty, "2026-08-01"), None);
    let dates = vec![
        "2026-07-06".to_string(),
        "2026-03-02".to_string(),
        "2026-07-06".to_string(),
    ];
    // A date equal to today counts as not after it.
    assert_eq!(
        latest_old_date(&dates, "2026-07-06"),
        Some("2026-07-06".to_string())
    );
    assert_eq!(
        latest_old_date(&dates, "2026-07-05"),
        Some("2026-03-02".to_string())
    );
}

#[test]
fn initial_base_date_falls_back_to_today() {
    let empty: Vec<String> = Vec::new();
    assert_eq!(initial_base_date(&empty, "2026-08-01"), "2026-08-01");
    let dates = vec!["2026-03-02".to_string(), "2026-09-07".to_string()];
    assert_eq!(initial_base_date(&dates, "2026-08-01"), "2026-03-02");
}
