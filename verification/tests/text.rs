use wk::calendar::InfoPeriod;
use wk::duration::{format_duration, format_percent};
use wk::lines::{report_heading, report_line, task_line, task_not_found_line};
use wk::report::ReportEntry;

#[test]
fn duration_of_an_hour_two_minutes_and_five_seconds() {
    assert_eq!(format_duration(3725), "0d 1h 2m 5s");
}

#[test]
fn duration_of_nothing() {
    assert_eq!(format_duration(0), "0d 0h 0m 0s");
}

#[test]
fn duration_just_below_and_at_each_unit() {
    assert_eq!(format_duration(59), "0d 0h 0m 59s");
    assert_eq!(format_duration(60), "0d 0h 1m 0s");
    assert_eq!(format_duration(3599), "0d 0h 59m 59s");
    assert_eq!(format_duration(3600), "0d 1h 0m 0s");
    assert_eq!(format_duration(86399), "0d 23h 59m 59s");
    assert_eq!(format_duration(86400), "1d 0h 0m 0s");
}

#[test]
fn duration_of_many_days() {
    assert_eq!(format_duration(100 * 86400 + 12 * 3600 + 34 * 60 + 56), "100d 12h 34m 56s");
    assert_eq!(format_duration(u64::MAX), "213503982334601d 7h 0m 15s");
}

#[test]
fn percent_has_its_sign_behind_it() {
    assert_eq!(format_percent(0), "0%");
    assert_eq!(format_percent(7), "7%");
    assert_eq!(format_percent(100), "100%");
}

#[test]
fn task_line_is_id_colon_name() {
    assert_eq!(task_line(3, "writing"), "3: writing");
    assert_eq!(task_line(0, ""), "0: ");
    assert_eq!(task_line(-12, "x y"), "-12: x y");
    assert_eq!(task_line(i64::MAX, "z"), "9223372036854775807: z");
    assert_eq!(task_line(i64::MIN, "z"), "-9223372036854775808: z");
}

#[test]
fn heading_names_the_period() {
    assert_eq!(report_heading(InfoPeriod::Day), "Current day:");
    assert_eq!(report_heading(InfoPeriod::Week), "Current week:");
    assert_eq!(report_heading(InfoPeriod::Month), "Current month:");
    assert_eq!(report_heading(InfoPeriod::Year), "Current year:");
}

#[test]
fn report_line_shows_rank_name_duration_and_share() {
    let entry = ReportEntry {
        task_id: 4,
        name: "writing".to_string(),
        duration: 90,
        rank: 1,
        percent: 100,
    };
    assert_eq!(report_line(&entry), "\t1. writing: 0d 0h 1m 30s (100%)");
    let entry = ReportEntry {
        task_id: 9,
        name: "deep work".to_string(),
        duration: 3725,
        rank: 12,
        percent: 7,
    };
    assert_eq!(report_line(&entry), "\t12. deep work: 0d 1h 2m 5s (7%)");
}

#[test]
fn not_found_line_names_the_task() {
    assert_eq!(task_not_found_line("ghost"), "Task not found: ghost");
}
