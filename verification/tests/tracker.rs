use wk::model::Run;
use wk::store::{StartOutcome, Store, StoreError, Task};

fn task(id: i64, name: &str) -> Task {
    Task { id, name: name.to_string() }
}

fn closed(id: i64, task_id: i64, start_time: i64, end_time: i64) -> Run {
    Run { id, task_id, start_time, end_time: Some(end_time) }
}

fn open(id: i64, task_id: i64, start_time: i64) -> Run {
    Run { id, task_id, start_time, end_time: None }
}

fn open_runs(store: &Store) -> usize {
    store.runs().iter().filter(|run| run.end_time.is_none()).count()
}

#[test]
fn new_store_is_empty() {
    let store = Store::new();
    assert!(store.tasks().is_empty());
    assert!(store.runs().is_empty());
    assert!(store.list().is_empty());
    assert_eq!(store.open_run(), None);
}

#[test]
fn add_gives_ids_from_one_upwards() {
    let mut store = Store::new();
    assert_eq!(store.add("writing"), Ok(1));
    assert_eq!(store.add("reading"), Ok(2));
    assert_eq!(store.add("cooking"), Ok(3));
    assert_eq!(
        store.list(),
        vec![
            (1, "writing".to_string()),
            (2, "reading".to_string()),
            (3, "cooking".to_string())
        ]
    );
}

#[test]
fn add_refuses_a_name_that_exists() {
    let mut store = Store::new();
    assert_eq!(store.add("writing"), Ok(1));
    assert_eq!(store.add("writing"), Err(StoreError::DuplicateName));
    assert_eq!(store.list(), vec![(1, "writing".to_string())]);
}

#[test]
fn add_refuses_when_no_id_is_left() {
    let mut store = Store::from_rows(vec![task(i64::MAX, "last")], vec![]).unwrap();
    assert_eq!(store.add("more"), Err(StoreError::IdSpaceExhausted));
    assert_eq!(store.add("last"), Err(StoreError::DuplicateName));
    assert_eq!(store.list(), vec![(i64::MAX, "last".to_string())]);
}

#[test]
fn add_follows_the_last_id() {
    let mut store = Store::from_rows(vec![task(-7, "a"), task(40, "b")], vec![]).unwrap();
    assert_eq!(store.add("c"), Ok(41));
}

#[test]
fn remove_deletes_the_task_and_keeps_the_rest_in_order() {
    let mut store = Store::new();
    store.add("a").unwrap();
    store.add("b").unwrap();
    store.add("c").unwrap();
    assert_eq!(store.remove("b"), Some(2));
    assert_eq!(store.list(), vec![(1, "a".to_string()), (3, "c".to_string())]);
}

#[test]
fn remove_of_an_unknown_task_changes_nothing() {
    let mut store = Store::new();
    store.add("a").unwrap();
    assert_eq!(store.remove("ghost"), None);
    assert_eq!(store.list(), vec![(1, "a".to_string())]);
}

#[test]
fn remove_leaves_the_runs_alone() {
    let mut store = Store::new();
    store.add("a").unwrap();
    store.start("a", 10).unwrap();
    assert_eq!(store.remove("a"), Some(1));
    assert_eq!(store.runs(), &vec![open(1, 1, 10)]);
    assert_eq!(store.stop(25), Ok(Some(1)));
    assert_eq!(store.runs(), &vec![closed(1, 1, 10, 25)]);
}

#[test]
fn an_id_freed_at_the_end_is_given_again() {
    let mut store = Store::new();
    store.add("a").unwrap();
    store.add("b").unwrap();
    assert_eq!(store.remove("b"), Some(2));
    assert_eq!(store.add("c"), Ok(2));
}

#[test]
fn start_opens_a_run_for_the_task() {
    let mut store = Store::new();
    store.add("writing").unwrap();
    let outcome = store.start("writing", 1000).unwrap();
    assert_eq!(outcome, StartOutcome::Started { closed: None, run: open(1, 1, 1000) });
    assert_eq!(store.runs(), &vec![open(1, 1, 1000)]);
    assert_eq!(store.open_run(), Some(open(1, 1, 1000)));
}

#[test]
fn start_stops_the_run_that_was_open() {
    let mut store = Store::new();
    store.add("a").unwrap();
    store.add("b").unwrap();
    store.start("a", 100).unwrap();
    let outcome = store.start("b", 160).unwrap();
    assert_eq!(outcome, StartOutcome::Started { closed: Some(1), run: open(2, 2, 160) });
    assert_eq!(store.runs(), &vec![closed(1, 1, 100, 160), open(2, 2, 160)]);
    let first = store.runs()[0];
    let second = store.runs()[1];
    assert_eq!(first.end_time, Some(second.start_time));
}

#[test]
fn start_of_the_running_task_begins_a_new_run() {
    let mut store = Store::new();
    store.add("a").unwrap();
    store.start("a", 100).unwrap();
    store.start("a", 130).unwrap();
    assert_eq!(store.runs(), &vec![closed(1, 1, 100, 130), open(2, 1, 130)]);
}

#[test]
fn start_of_an_unknown_task_on_an_empty_registry() {
    let mut store = Store::new();
    assert_eq!(store.start("ghost", 50), Ok(StartOutcome::TaskNotFound { closed: None }));
    assert!(store.runs().is_empty());
    assert!(store.tasks().is_empty());
}

#[test]
fn start_of_an_unknown_task_still_stops_the_open_run() {
    let mut store = Store::new();
    store.add("a").unwrap();
    store.start("a", 100).unwrap();
    assert_eq!(store.start("ghost", 150), Ok(StartOutcome::TaskNotFound { closed: Some(1) }));
    assert_eq!(store.runs(), &vec![closed(1, 1, 100, 150)]);
}

#[test]
fn start_is_refused_when_the_clock_is_behind() {
    let mut store = Store::new();
    store.add("a").unwrap();
    store.start("a", 100).unwrap();
    assert_eq!(store.start("a", 99), Err(StoreError::ClockBehind));
    assert_eq!(store.start("ghost", 99), Err(StoreError::ClockBehind));
    assert_eq!(store.runs(), &vec![open(1, 1, 100)]);
}

#[test]
fn start_is_refused_when_no_run_id_is_left() {
    let mut store =
        Store::from_rows(vec![task(1, "a")], vec![open(i64::MAX, 1, 10)]).unwrap();
    assert_eq!(store.start("a", 20), Err(StoreError::IdSpaceExhausted));
    assert_eq!(store.runs(), &vec![open(i64::MAX, 1, 10)]);
    assert_eq!(store.start("a", 5), Err(StoreError::ClockBehind));
    assert_eq!(store.start("ghost", 20), Ok(StartOutcome::TaskNotFound { closed: Some(i64::MAX) }));
    assert_eq!(store.runs(), &vec![closed(i64::MAX, 1, 10, 20)]);
}

#[test]
fn stop_ends_the_open_run() {
    let mut store = Store::new();
    store.add("a").unwrap();
    store.start("a", 100).unwrap();
    assert_eq!(store.stop(190), Ok(Some(1)));
    assert_eq!(store.runs(), &vec![closed(1, 1, 100, 190)]);
    assert_eq!(store.open_run(), None);
}

#[test]
fn stop_at_the_second_of_the_start_gives_a_run_of_no_length() {
    let mut store = Store::new();
    store.add("a").unwrap();
    store.start("a", 100).unwrap();
    assert_eq!(store.stop(100), Ok(Some(1)));
    assert_eq!(store.runs(), &vec![closed(1, 1, 100, 100)]);
}

#[test]
fn stop_with_nothing_open_changes_nothing() {
    let mut store = Store::new();
    assert_eq!(store.stop(5), Ok(None));
    assert!(store.runs().is_empty());
}

#[test]
fn stop_twice_is_stop_once() {
    let mut store = Store::new();
    store.add("a").unwrap();
    store.start("a", 100).unwrap();
    assert_eq!(store.stop(150), Ok(Some(1)));
    let after_first = store.runs().clone();
    assert_eq!(store.stop(175), Ok(None));
    assert_eq!(store.runs(), &after_first);
    assert_eq!(store.stop(3), Ok(None));
    assert_eq!(store.runs(), &after_first);
}

#[test]
fn stop_is_refused_when_the_clock_is_behind() {
    let mut store = Store::new();
    store.add("a").unwrap();
    store.start("a", 100).unwrap();
    assert_eq!(store.stop(99), Err(StoreError::ClockBehind));
    assert_eq!(store.runs(), &vec![open(1, 1, 100)]);
    assert_eq!(store.stop(100), Ok(Some(1)));
}

#[test]
fn at_most_one_run_is_open_after_any_calls() {
    let mut store = Store::new();
    store.add("a").unwrap();
    store.add("b").unwrap();
    let mut now = 1000;
    for step in 0..40 {
        now += 7;
        match step % 5 {
            0 => {
                assert!(store.start("a", now).is_ok());
            }
            1 => {
                assert_eq!(store.stop(now - 50), Err(StoreError::ClockBehind));
            }
            2 => {
                assert!(store.start("b", now).is_ok());
            }
            3 => {
                assert!(store.start("ghost", now).is_ok());
            }
            _ => {
                assert_eq!(store.stop(now), Ok(None));
            }
        }
        assert!(open_runs(&store) <= 1);
    }
    assert_eq!(store.runs().len(), 16);
    assert_eq!(open_runs(&store), 0);
}

#[test]
fn from_rows_takes_valid_rows() {
    let tasks = vec![task(1, "a"), task(5, "b")];
    let runs = vec![closed(1, 1, 10, 20), closed(2, 9, 20, 20), open(7, 5, 30)];
    let store = Store::from_rows(tasks.clone(), runs.clone()).unwrap();
    assert_eq!(store.tasks(), &tasks);
    assert_eq!(store.runs(), &runs);
    assert_eq!(store.open_run(), Some(open(7, 5, 30)));
}

#[test]
fn from_rows_refuses_task_ids_out_of_order() {
    assert_eq!(
        Store::from_rows(vec![task(2, "a"), task(1, "b")], vec![]).err(),
        Some(StoreError::InvalidRows)
    );
    assert_eq!(
        Store::from_rows(vec![task(1, "a"), task(1, "b")], vec![]).err(),
        Some(StoreError::InvalidRows)
    );
}

#[test]
fn from_rows_refuses_a_name_twice() {
    assert_eq!(
        Store::from_rows(vec![task(1, "a"), task(2, "b"), task(3, "a")], vec![]).err(),
        Some(StoreError::InvalidRows)
    );
}

#[test]
fn from_rows_refuses_run_ids_out_of_order() {
    assert_eq!(
        Store::from_rows(vec![], vec![closed(2, 1, 0, 1), closed(1, 1, 0, 1)]).err(),
        Some(StoreError::InvalidRows)
    );
}

#[test]
fn from_rows_refuses_a_run_that_ends_before_it_starts() {
    assert_eq!(
        Store::from_rows(vec![], vec![closed(1, 1, 10, 9)]).err(),
        Some(StoreError::InvalidRows)
    );
}

#[test]
fn from_rows_refuses_two_open_runs() {
    assert_eq!(
        Store::from_rows(vec![], vec![open(1, 1, 10), closed(2, 1, 10, 11), open(3, 2, 12)]).err(),
        Some(StoreError::InvalidRows)
    );
}
