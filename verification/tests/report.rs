use wk::calendar::InfoPeriod;
use wk::lines::report_line;
use wk::model::Run;
use wk::report::{percent_of, ReportEntry};
use wk::store::{Store, StoreError, Task};

const NOON: i64 = 1_700_000_000; // 2023-11-14 22:13:20
const DAY: i64 = 86_400;

fn task(id: i64, name: &str) -> Task {
    Task { id, name: name.to_string() }
}

fn closed(id: i64, task_id: i64, start_time: i64, end_time: i64) -> Run {
    Run { id, task_id, start_time, end_time: Some(end_time) }
}

fn open(id: i64, task_id: i64, start_time: i64) -> Run {
    Run { id, task_id, start_time, end_time: None }
}

fn entry(task_id: i64, name: &str, duration: u64, rank: u64, percent: u64) -> ReportEntry {
    ReportEntry { task_id, name: name.to_string(), duration, rank, percent }
}

#[test]
fn a_day_of_writing_from_add_to_report() {
    let mut store = Store::new();
    store.add("writing").unwrap();
    store.start("writing", NOON).unwrap();
    store.stop(NOON + 90).unwrap();
    let report = store.report(InfoPeriod::Day, NOON + 90).unwrap();
    assert_eq!(report, vec![entry(1, "writing", 90, 1, 100)]);
    assert_eq!(report_line(&report[0]), "\t1. writing: 0d 0h 1m 30s (100%)");
}

#[test]
fn report_of_an_empty_store_is_empty() {
    let store = Store::new();
    assert_eq!(store.report(InfoPeriod::Year, NOON), Ok(vec![]));
    assert_eq!(store.report_since(i64::MIN, i64::MAX), Ok(vec![]));
}

#[test]
fn a_closed_run_counts_from_start_to_end() {
    let store = Store::from_rows(vec![task(1, "a")], vec![closed(1, 1, 1000, 4725)]).unwrap();
    assert_eq!(store.report_since(0, 10_000), Ok(vec![entry(1, "a", 3725, 1, 100)]));
}

#[test]
fn an_open_run_counts_up_to_now() {
    let store = Store::from_rows(vec![task(1, "a")], vec![open(1, 1, 1000)]).unwrap();
    assert_eq!(store.report_since(0, 1030), Ok(vec![entry(1, "a", 30, 1, 100)]));
    assert_eq!(store.report_since(0, 1001), Ok(vec![entry(1, "a", 1, 1, 100)]));
}

#[test]
fn a_run_that_ends_after_now_counts_to_its_end() {
    let store = Store::from_rows(vec![task(1, "a")], vec![closed(1, 1, 1000, 2000)]).unwrap();
    assert_eq!(store.report_since(0, 1500), Ok(vec![entry(1, "a", 1000, 1, 100)]));
}

#[test]
fn the_window_takes_its_first_second_and_not_its_last() {
    let runs = vec![closed(1, 1, 99, 110), closed(2, 2, 100, 103), closed(3, 3, 199, 204), closed(4, 4, 200, 207)];
    let tasks = vec![task(1, "before"), task(2, "first"), task(3, "last"), task(4, "at now")];
    let store = Store::from_rows(tasks, runs).unwrap();
    assert_eq!(
        store.report_since(100, 200),
        Ok(vec![entry(3, "last", 5, 1, 63), entry(2, "first", 3, 2, 38)])
    );
}

#[test]
fn a_run_started_at_now_is_not_in_the_window() {
    let mut store = Store::new();
    store.add("a").unwrap();
    store.start("a", NOON).unwrap();
    assert_eq!(store.report(InfoPeriod::Day, NOON), Ok(vec![]));
    assert_eq!(store.report(InfoPeriod::Day, NOON + 1), Ok(vec![entry(1, "a", 1, 1, 100)]));
}

#[test]
fn the_runs_of_a_task_add_up() {
    let runs = vec![closed(1, 1, 10, 20), closed(2, 2, 20, 25), closed(3, 1, 30, 60), open(4, 1, 70)];
    let store = Store::from_rows(vec![task(1, "a"), task(2, "b")], runs).unwrap();
    assert_eq!(
        store.report_since(0, 100),
        Ok(vec![entry(1, "a", 70, 1, 93), entry(2, "b", 5, 2, 7)])
    );
}

#[test]
fn tasks_stand_by_falling_duration() {
    let runs = vec![closed(1, 1, 0, 10), closed(2, 2, 0, 30), closed(3, 3, 0, 20)];
    let store =
        Store::from_rows(vec![task(1, "a"), task(2, "b"), task(3, "c")], runs).unwrap();
    assert_eq!(
        store.report_since(0, 100),
        Ok(vec![entry(2, "b", 30, 1, 50), entry(3, "c", 20, 2, 33), entry(1, "a", 10, 3, 17)])
    );
}

#[test]
fn tied_tasks_share_a_rank_and_the_next_rank_is_left_out() {
    let runs = vec![closed(1, 1, 0, 50), closed(2, 2, 0, 20), closed(3, 3, 0, 50)];
    let store =
        Store::from_rows(vec![task(1, "a"), task(2, "b"), task(3, "c")], runs).unwrap();
    assert_eq!(
        store.report_since(0, 100),
        Ok(vec![entry(1, "a", 50, 1, 42), entry(3, "c", 50, 1, 42), entry(2, "b", 20, 3, 17)])
    );
}

#[test]
fn ranks_after_two_groups_of_ties() {
    let runs = vec![
        closed(1, 1, 0, 5),
        closed(2, 2, 0, 9),
        closed(3, 3, 0, 5),
        closed(4, 4, 0, 9),
        closed(5, 5, 0, 9),
        closed(6, 6, 0, 1),
    ];
    let tasks =
        vec![task(1, "a"), task(2, "b"), task(3, "c"), task(4, "d"), task(5, "e"), task(6, "f")];
    let store = Store::from_rows(tasks, runs).unwrap();
    let report = store.report_since(0, 100).unwrap();
    let ranks: Vec<(i64, u64)> = report.iter().map(|e| (e.task_id, e.rank)).collect();
    assert_eq!(ranks, vec![(2, 1), (4, 1), (5, 1), (1, 4), (3, 4), (6, 6)]);
}

#[test]
fn a_task_without_a_run_in_the_window_has_no_line() {
    let runs = vec![closed(1, 1, 10, 20), closed(2, 2, 500, 520)];
    let store =
        Store::from_rows(vec![task(1, "old"), task(2, "new"), task(3, "never")], runs).unwrap();
    assert_eq!(store.report_since(100, 1000), Ok(vec![entry(2, "new", 20, 1, 100)]));
}

#[test]
fn runs_of_no_task_are_not_reported() {
    let mut store = Store::new();
    store.add("a").unwrap();
    store.add("b").unwrap();
    store.start("a", 10).unwrap();
    store.start("b", 30).unwrap();
    store.stop(40).unwrap();
    assert_eq!(store.remove("a"), Some(1));
    assert_eq!(store.report_since(0, 100), Ok(vec![entry(2, "b", 10, 1, 100)]));
}

#[test]
fn nothing_tracked_gives_zero_percent() {
    let runs = vec![closed(1, 1, 10, 10), closed(2, 2, 20, 20)];
    let store = Store::from_rows(vec![task(1, "a"), task(2, "b")], runs).unwrap();
    assert_eq!(
        store.report_since(0, 100),
        Ok(vec![entry(1, "a", 0, 1, 0), entry(2, "b", 0, 1, 0)])
    );
}

#[test]
fn percentages_of_three_equal_shares_add_up_to_99() {
    let runs = vec![closed(1, 1, 0, 7), closed(2, 2, 0, 7), closed(3, 3, 0, 7)];
    let store =
        Store::from_rows(vec![task(1, "a"), task(2, "b"), task(3, "c")], runs).unwrap();
    let report = store.report_since(0, 100).unwrap();
    let shares: Vec<u64> = report.iter().map(|e| e.percent).collect();
    assert_eq!(shares, vec![33, 33, 33]);
}

#[test]
fn percentages_with_halves_add_up_to_101() {
    let runs = vec![closed(1, 1, 0, 1), closed(2, 2, 0, 199)];
    let store = Store::from_rows(vec![task(1, "a"), task(2, "b")], runs).unwrap();
    assert_eq!(
        store.report_since(0, 1000),
        Ok(vec![entry(2, "b", 199, 1, 100), entry(1, "a", 1, 2, 1)])
    );
}

#[test]
fn percent_rounds_to_the_nearest_whole_number() {
    assert_eq!(percent_of(1, 3), 33);
    assert_eq!(percent_of(2, 3), 67);
    assert_eq!(percent_of(1, 8), 13);
    assert_eq!(percent_of(3, 8), 38);
    assert_eq!(percent_of(1, 200), 1);
    assert_eq!(percent_of(1, 201), 0);
    assert_eq!(percent_of(0, 5), 0);
    assert_eq!(percent_of(5, 5), 100);
    assert_eq!(percent_of(0, 0), 0);
    assert_eq!(percent_of(u64::MAX, u64::MAX), 100);
    assert_eq!(percent_of(u64::MAX / 2, u64::MAX), 50);
}

#[test]
fn the_periods_look_back_over_different_windows() {
    let runs = vec![
        closed(1, 1, NOON - 400 * DAY, NOON - 400 * DAY + 10),
        closed(2, 2, NOON - 100 * DAY, NOON - 100 * DAY + 20),
        closed(3, 3, NOON - 10 * DAY, NOON - 10 * DAY + 30),
        closed(4, 4, NOON - 3 * DAY, NOON - 3 * DAY + 40),
        closed(5, 5, NOON - 60, NOON - 10),
    ];
    let tasks = vec![
        task(1, "last year"),
        task(2, "this year"),
        task(3, "this month"),
        task(4, "this week"),
        task(5, "today"),
    ];
    let store = Store::from_rows(tasks, runs).unwrap();
    let ids = |period: InfoPeriod| -> Vec<i64> {
        store.report(period, NOON).unwrap().iter().map(|e| e.task_id).collect()
    };
    assert_eq!(ids(InfoPeriod::Day), vec![5]);
    assert_eq!(ids(InfoPeriod::Week), vec![5, 4]);
    assert_eq!(ids(InfoPeriod::Month), vec![5, 4, 3]);
    assert_eq!(ids(InfoPeriod::Year), vec![5, 4, 3, 2]);
}

#[test]
fn the_week_begins_six_days_before_today() {
    let day_start = 1_699_920_000;
    let runs = vec![
        closed(1, 1, day_start - 6 * DAY - 1, day_start - 6 * DAY + 5),
        closed(2, 2, day_start - 6 * DAY, day_start - 6 * DAY + 5),
    ];
    let store = Store::from_rows(vec![task(1, "out"), task(2, "in")], runs).unwrap();
    assert_eq!(store.report(InfoPeriod::Week, NOON), Ok(vec![entry(2, "in", 5, 1, 100)]));
}

#[test]
fn report_is_refused_when_the_total_is_too_long() {
    let runs = vec![closed(1, 1, i64::MIN, i64::MAX), closed(2, 1, i64::MIN, i64::MAX)];
    let store = Store::from_rows(vec![task(1, "a")], runs).unwrap();
    assert_eq!(store.report_since(i64::MIN, 0), Err(StoreError::DurationOverflow));
}

#[test]
fn report_is_refused_when_the_tasks_together_are_too_long() {
    let runs = vec![closed(1, 1, i64::MIN, i64::MAX), closed(2, 2, -1, 0)];
    let store = Store::from_rows(vec![task(1, "a"), task(2, "b")], runs).unwrap();
    assert_eq!(store.report_since(i64::MIN, 0), Err(StoreError::DurationOverflow));
}

#[test]
fn the_longest_total_that_fits_is_reported() {
    let runs = vec![closed(1, 1, i64::MIN, i64::MAX)];
    let store = Store::from_rows(vec![task(1, "a")], runs).unwrap();
    assert_eq!(store.report_since(i64::MIN, 0), Ok(vec![entry(1, "a", u64::MAX, 1, 100)]));
}
