//! The report: time tracked per task over a window, ranked, with each
//! task's share of the whole.

use crate::calendar::{window_opens, InfoPeriod};
use crate::model::{runs_ordered, task_ids_ascend, Run, StoreModel, TaskView};
use crate::store::{task_views, Store, StoreError, Task};
use vstd::prelude::*;

verus! {

/// One line of a report.
#[derive(Clone, Debug, PartialEq, Eq)]
pub struct ReportEntry {
    pub task_id: i64,
    pub name: String,
    /// Seconds tracked against the task in the window.
    pub duration: u64,
    /// One more than the number of tasks with a longer duration.
    pub rank: u64,
    /// The task's share of all time tracked in the window, in whole percent.
    pub percent: u64,
}

/// What contracts say of a report entry.
pub struct ReportEntryView {
    pub task_id: i64,
    pub name: Seq<char>,
    pub duration: u64,
    pub rank: u64,
    pub percent: u64,
}

impl View for ReportEntry {
    type V = ReportEntryView;

    open spec fn view(&self) -> ReportEntryView {
        ReportEntryView {
            task_id: self.task_id,
            name: self.name@,
            duration: self.duration,
            rank: self.rank,
            percent: self.percent,
        }
    }
}

/// The views of the entries of a report, line by line.
pub open spec fn entry_views(entries: Seq<ReportEntry>) -> Seq<ReportEntryView> {
    entries.map_values(|e: ReportEntry| e@)
}

/// The run started inside the window that opens at `since` and closes
/// just before `now`.
pub open spec fn in_window(run: Run, since: i64, now: i64) -> bool {
    since <= run.start_time < now
}

/// The seconds that a run has lasted: to its end, or to `now` while it is
/// open.
pub open spec fn span(run: Run, now: i64) -> int {
    match run.end_time {
        Some(end) => end - run.start_time,
        None => now - run.start_time,
    }
}

/// The run belongs to the task and started inside the window.
pub open spec fn counts_for(run: Run, task_id: i64, since: i64, now: i64) -> bool {
    run.task_id == task_id && in_window(run, since, now)
}

/// The seconds tracked against a task in the window: the spans of its runs
/// that started inside it, added up.
pub open spec fn task_total(runs: Seq<Run>, task_id: i64, since: i64, now: i64) -> int
    decreases runs.len(),
{
    if runs.len() == 0 {
        0
    } else {
        task_total(runs.drop_last(), task_id, since, now) + if counts_for(
            runs.last(),
            task_id,
            since,
            now,
        ) {
            span(runs.last(), now)
        } else {
            0
        }
    }
}

/// The task has a run that started inside the window.
pub open spec fn task_has_run(runs: Seq<Run>, task_id: i64, since: i64, now: i64) -> bool {
    exists|i: int| 0 <= i < runs.len() && counts_for(#[trigger] runs[i], task_id, since, now)
}

/// The seconds tracked in the window against all the tasks together.
pub open spec fn window_total(tasks: Seq<TaskView>, runs: Seq<Run>, since: i64, now: i64) -> int
    decreases tasks.len(),
{
    if tasks.len() == 0 {
        0
    } else {
        window_total(tasks.drop_last(), runs, since, now) + task_total(
            runs,
            tasks.last().id,
            since,
            now,
        )
    }
}

/// `100 * duration / total` rounded to the nearest whole number, a half
/// rounded up; 0 where nothing was tracked at all.
pub open spec fn percent(duration: int, total: int) -> int {
    if total <= 0 {
        0
    } else {
        (200 * duration + total) / (2 * total)
    }
}

/// How many of the entries have a duration longer than `duration`.
pub open spec fn count_longer(entries: Seq<ReportEntryView>, duration: int) -> int
    decreases entries.len(),
{
    if entries.len() == 0 {
        0
    } else {
        count_longer(entries.drop_last(), duration) + if entries.last().duration > duration {
            1int
        } else {
            0int
        }
    }
}

/// The durations of the entries, added up.
pub open spec fn sum_durations(entries: Seq<ReportEntryView>) -> int
    decreases entries.len(),
{
    if entries.len() == 0 {
        0
    } else {
        sum_durations(entries.drop_last()) + entries.last().duration
    }
}

/// The percentages of the entries, added up.
pub open spec fn sum_percents(entries: Seq<ReportEntryView>) -> int
    decreases entries.len(),
{
    if entries.len() == 0 {
        0
    } else {
        sum_percents(entries.drop_last()) + entries.last().percent
    }
}

/// Entry `k` is the line of task `i`: the task has a run in the window, and
/// the entry carries its id, its name and the seconds tracked against it.
pub open spec fn entry_is_for(
    entries: Seq<ReportEntryView>,
    k: int,
    store: StoreModel,
    i: int,
    since: i64,
    now: i64,
) -> bool {
    &&& 0 <= k < entries.len()
    &&& 0 <= i < store.tasks.len()
    &&& task_has_run(store.runs, store.tasks[i].id, since, now)
    &&& entries[k].task_id == store.tasks[i].id
    &&& entries[k].name == store.tasks[i].name
    &&& entries[k].duration == task_total(store.runs, store.tasks[i].id, since, now)
}

/// Entry `k` is the line of some task of the store.
pub open spec fn entry_has_task(
    entries: Seq<ReportEntryView>,
    k: int,
    store: StoreModel,
    since: i64,
    now: i64,
) -> bool {
    exists|i: int| #[trigger] entry_is_for(entries, k, store, i, since, now)
}

/// Task `i` of the store has a line among the entries.
pub open spec fn task_has_entry(
    entries: Seq<ReportEntryView>,
    store: StoreModel,
    i: int,
    since: i64,
    now: i64,
) -> bool {
    exists|k: int| #[trigger] entry_is_for(entries, k, store, i, since, now)
}

/// The first entry stands before the second: it has the longer duration, or
/// the same duration and the smaller task id.
pub open spec fn stands_before(a: ReportEntryView, b: ReportEntryView) -> bool {
    a.duration > b.duration || (a.duration == b.duration && a.task_id < b.task_id)
}

/// `entries` is the report of `store` over the window from `since` to just
/// before `now`:
/// - every entry is the line of a task with a run in the window;
/// - every task with a run in the window has a line;
/// - the lines stand by falling duration, equal durations by rising task id;
/// - an entry's rank is one more than the number of entries with a longer
///   duration;
/// - an entry's percentage is its share of the window's total, rounded;
/// - the durations of the entries add up to the window's total.
pub open spec fn is_report(
    entries: Seq<ReportEntryView>,
    store: StoreModel,
    since: i64,
    now: i64,
) -> bool {
    &&& forall|k: int|
        0 <= k < entries.len() ==> #[trigger] entry_has_task(entries, k, store, since, now)
    &&& forall|i: int|
        0 <= i < store.tasks.len() && task_has_run(
            store.runs,
            (#[trigger] store.tasks[i]).id,
            since,
            now,
        ) ==> task_has_entry(entries, store, i, since, now)
    &&& forall|a: int, b: int|
        0 <= a < b < entries.len() ==> stands_before(#[trigger] entries[a], #[trigger] entries[b])
    &&& forall|k: int|
        0 <= k < entries.len() ==> (#[trigger] entries[k]).rank == 1 + count_longer(
            entries,
            entries[k].duration as int,
        )
    &&& forall|k: int|
        0 <= k < entries.len() ==> (#[trigger] entries[k]).percent == percent(
            entries[k].duration as int,
            window_total(store.tasks, store.runs, since, now),
        )
    &&& sum_durations(entries) == window_total(store.tasks, store.runs, since, now)
}

/// What a report call owes: the report, where the window's total fits in a
/// duration, and `DurationOverflow` where it does not.
pub open spec fn is_report_outcome(
    result: Result<Vec<ReportEntry>, StoreError>,
    store: StoreModel,
    since: i64,
    now: i64,
) -> bool {
    match result {
        Ok(entries) => {
            &&& window_total(store.tasks, store.runs, since, now) <= u64::MAX
            &&& is_report(entry_views(entries@), store, since, now)
        },
        Err(e) => {
            &&& window_total(store.tasks, store.runs, since, now) > u64::MAX
            &&& e == StoreError::DurationOverflow
        },
    }
}

/// Over runs that are ordered, the total of a task is not negative and does
/// not fall when runs are appended.
pub proof fn lemma_task_total_grows(runs: Seq<Run>, n: int, task_id: i64, since: i64, now: i64)
    requires
        0 <= n <= runs.len(),
        forall|i: int| 0 <= i < runs.len() ==> (#[trigger] runs[i]).is_ordered(),
    ensures
        0 <= task_total(runs.take(n), task_id, since, now) <= task_total(runs, task_id, since, now),
    decreases runs.len(),
{
    if runs.len() == 0 {
        assert(runs.take(n) =~= runs);
    } else if n == runs.len() {
        assert(runs.take(n) =~= runs);
        lemma_task_total_grows(runs.drop_last(), n - 1, task_id, since, now);
        assert(runs.last().is_ordered());
    } else {
        assert(runs.drop_last().take(n) =~= runs.take(n));
        lemma_task_total_grows(runs.drop_last(), n, task_id, since, now);
        assert(runs.last().is_ordered());
    }
}

/// A task without a run in the window has a total of 0.
pub proof fn lemma_no_run_no_total(runs: Seq<Run>, task_id: i64, since: i64, now: i64)
    requires
        !task_has_run(runs, task_id, since, now),
    ensures
        task_total(runs, task_id, since, now) == 0,
    decreases runs.len(),
{
    if runs.len() > 0 {
        assert(!counts_for(runs[runs.len() - 1], task_id, since, now));
        assert forall|i: int| 0 <= i < runs.drop_last().len() implies !counts_for(
            #[trigger] runs.drop_last()[i],
            task_id,
            since,
            now,
        ) by {
            assert(runs.drop_last()[i] == runs[i]);
        }
        lemma_no_run_no_total(runs.drop_last(), task_id, since, now);
    }
}

/// Over runs that are ordered, the window's total is not negative and does
/// not fall when tasks are appended.
pub proof fn lemma_window_total_grows(
    tasks: Seq<TaskView>,
    n: int,
    runs: Seq<Run>,
    since: i64,
    now: i64,
)
    requires
        0 <= n <= tasks.len(),
        forall|i: int| 0 <= i < runs.len() ==> (#[trigger] runs[i]).is_ordered(),
    ensures
        0 <= window_total(tasks.take(n), runs, since, now) <= window_total(tasks, runs, since, now),
    decreases tasks.len(),
{
    if tasks.len() == 0 {
        assert(tasks.take(n) =~= tasks);
    } else {
        lemma_task_total_grows(runs, runs.len() as int, tasks.last().id, since, now);
        if n == tasks.len() {
            assert(tasks.take(n) =~= tasks);
            lemma_window_total_grows(tasks.drop_last(), n - 1, runs, since, now);
        } else {
            assert(tasks.drop_last().take(n) =~= tasks.take(n));
            lemma_window_total_grows(tasks.drop_last(), n, runs, since, now);
        }
    }
}

/// The seconds that a run has lasted.
fn run_span(run: &Run, since: i64, now: i64) -> (seconds: u64)
    requires
        run.is_ordered(),
        in_window(*run, since, now),
    ensures
        seconds == span(*run, now),
{
    let end: i64 = match run.end_time {
        Some(end) => end,
        None => now,
    };
    (end as i128 - run.start_time as i128) as u64
}

/// Whether the task has a run in the window, and the seconds tracked against
/// it there; `None` for the seconds where they are more than a `u64` holds.
fn total_for(runs: &Vec<Run>, task_id: i64, since: i64, now: i64) -> (found: (bool, Option<u64>))
    requires
        forall|i: int| 0 <= i < runs.len() ==> (#[trigger] runs[i]).is_ordered(),
    ensures
        found.0 == task_has_run(runs@, task_id, since, now),
        match found.1 {
            Some(total) => total == task_total(runs@, task_id, since, now),
            None => task_total(runs@, task_id, since, now) > u64::MAX,
        },
{
    let mut any: bool = false;
    let mut total: u64 = 0;
    let mut i: usize = 0;
    while i < runs.len()
        invariant
            i <= runs.len(),
            forall|j: int| 0 <= j < runs.len() ==> (#[trigger] runs[j]).is_ordered(),
            any == task_has_run(runs@.take(i as int), task_id, since, now),
            total == task_total(runs@.take(i as int), task_id, since, now),
        decreases runs.len() - i,
    {
        let run: Run = runs[i];
        proof {
            let head = runs@.take(i as int);
            let next = runs@.take(i + 1);
            assert(next.drop_last() =~= head);
            assert(next.last() == run);
            if task_has_run(head, task_id, since, now) {
                let j = choose|j: int|
                    0 <= j < head.len() && counts_for(#[trigger] head[j], task_id, since, now);
                assert(counts_for(next[j], task_id, since, now));
            }
            if task_has_run(next, task_id, since, now) && !counts_for(run, task_id, since, now) {
                let j = choose|j: int|
                    0 <= j < next.len() && counts_for(#[trigger] next[j], task_id, since, now);
                assert(counts_for(head[j], task_id, since, now));
            }
            if counts_for(run, task_id, since, now) {
                assert(counts_for(next[i as int], task_id, since, now));
            }
        }
        if run.task_id == task_id && since <= run.start_time && run.start_time < now {
            any = true;
            let seconds: u64 = run_span(&run, since, now);
            match total.checked_add(seconds) {
                Some(sum) => {
                    total = sum;
                },
                None => {
                    proof {
                        lemma_task_total_grows(runs@, i + 1, task_id, since, now);
                    }
                    return (true, None);
                },
            }
        }
        i += 1;
    }
    assert(runs@.take(i as int) =~= runs@);
    (any, Some(total))
}

/// The share of `duration` in `total`, in whole percent.
pub fn percent_of(duration: u64, total: u64) -> (share: u64)
    requires
        duration <= total,
    ensures
        share == percent(duration as int, total as int),
        share <= 100,
{
    if total == 0 {
        0
    } else {
        let twice: u128 = 2 * (total as u128);
        let scaled: u128 = 200 * (duration as u128) + (total as u128);
        assert(scaled / twice <= 100) by (nonlinear_arith)
            requires
                scaled <= 201 * total,
                twice == 2 * total,
                total > 0,
        ;
        (scaled / twice) as u64
    }
}

/// The seconds tracked against one task while a report is put together.
#[derive(Clone, Copy)]
struct Tally {
    /// The task's position in the task table.
    task: usize,
    total: u64,
}

/// The tally is that of a task of the store with a run in the window.
spec fn tally_is_for(tally: Tally, store: StoreModel, since: i64, now: i64) -> bool {
    &&& tally.task < store.tasks.len()
    &&& task_has_run(store.runs, store.tasks[tally.task as int].id, since, now)
    &&& tally.total == task_total(store.runs, store.tasks[tally.task as int].id, since, now)
}

/// The first tally stands before the second in a report.
spec fn tally_before(a: Tally, b: Tally) -> bool {
    a.total > b.total || (a.total == b.total && a.task < b.task)
}

/// Task `i` has a tally.
spec fn task_is_tallied(tallies: Seq<Tally>, i: int) -> bool {
    exists|k: int| 0 <= k < tallies.len() && (#[trigger] tallies[k]).task == i
}

/// The tallies of the first `n` tasks of the store that have a run in the
/// window, in report order.
spec fn tallies_of(tallies: Seq<Tally>, store: StoreModel, n: int, since: i64, now: i64) -> bool {
    &&& forall|k: int|
        0 <= k < tallies.len() ==> tally_is_for(#[trigger] tallies[k], store, since, now)
            && tallies[k].task < n
    &&& forall|i: int|
        0 <= i < n && task_has_run(store.runs, (#[trigger] store.tasks[i]).id, since, now)
            ==> task_is_tallied(tallies, i)
    &&& forall|a: int, b: int|
        0 <= a < b < tallies.len() ==> tally_before(#[trigger] tallies[a], #[trigger] tallies[b])
}

/// The totals of the tallies, added up.
spec fn sum_tallies(tallies: Seq<Tally>) -> int
    decreases tallies.len(),
{
    if tallies.len() == 0 {
        0
    } else {
        sum_tallies(tallies.drop_last()) + tallies.last().total
    }
}

/// Where the run of equal totals that holds position `k` begins.
spec fn tie_start(tallies: Seq<Tally>, k: int) -> int
    decreases k,
{
    if k <= 0 {
        0
    } else if tallies[k - 1].total == tallies[k].total {
        tie_start(tallies, k - 1)
    } else {
        k
    }
}

/// The report line that stands for the tally at position `k`.
spec fn line_of(tallies: Seq<Tally>, k: int, store: StoreModel, grand: u64) -> ReportEntryView {
    ReportEntryView {
        task_id: store.tasks[tallies[k].task as int].id,
        name: store.tasks[tallies[k].task as int].name,
        duration: tallies[k].total,
        rank: (tie_start(tallies, k) + 1) as u64,
        percent: percent(tallies[k].total as int, grand as int) as u64,
    }
}

proof fn lemma_sum_tallies_insert(tallies: Seq<Tally>, p: int, tally: Tally)
    requires
        0 <= p <= tallies.len(),
    ensures
        sum_tallies(tallies.insert(p, tally)) == sum_tallies(tallies) + tally.total,
    decreases tallies.len(),
{
    let grown = tallies.insert(p, tally);
    if p == tallies.len() {
        assert(grown.drop_last() =~= tallies);
    } else {
        assert(grown.drop_last() =~= tallies.drop_last().insert(p, tally));
        assert(grown.last() == tallies.last());
        lemma_sum_tallies_insert(tallies.drop_last(), p, tally);
    }
}

proof fn lemma_sum_tallies_bounds(tallies: Seq<Tally>, k: int)
    requires
        0 <= k < tallies.len(),
    ensures
        tallies[k].total <= sum_tallies(tallies),
        0 <= sum_tallies(tallies.drop_last()),
    decreases tallies.len(),
{
    if tallies.len() > 1 {
        if k < tallies.len() - 1 {
            lemma_sum_tallies_bounds(tallies.drop_last(), k);
        } else {
            lemma_sum_tallies_bounds(tallies.drop_last(), 0);
        }
    } else {
        assert(sum_tallies(tallies.drop_last()) == 0);
    }
}

proof fn lemma_tie_start(tallies: Seq<Tally>, k: int)
    requires
        0 <= k < tallies.len(),
        forall|a: int, b: int|
            0 <= a < b < tallies.len() ==> tally_before(#[trigger] tallies[a], #[trigger] tallies[b]),
    ensures
        0 <= tie_start(tallies, k) <= k,
        tallies[tie_start(tallies, k)].total == tallies[k].total,
        tie_start(tallies, k) > 0 ==> tallies[tie_start(tallies, k) - 1].total > tallies[k].total,
    decreases k,
{
    if k > 0 {
        assert(tally_before(tallies[k - 1], tallies[k]));
        if tallies[k - 1].total == tallies[k].total {
            lemma_tie_start(tallies, k - 1);
        }
    }
}

/// Where the entries fall in duration, the number of entries longer than
/// `duration` is the position of the first that is not.
pub proof fn lemma_count_longer_is_position(entries: Seq<ReportEntryView>, duration: int, j: int)
    requires
        0 <= j <= entries.len(),
        forall|m: int| 0 <= m < j ==> (#[trigger] entries[m]).duration > duration,
        forall|m: int| j <= m < entries.len() ==> (#[trigger] entries[m]).duration <= duration,
    ensures
        count_longer(entries, duration) == j,
    decreases entries.len(),
{
    if entries.len() > 0 {
        let head = entries.drop_last();
        assert forall|m: int| 0 <= m < head.len() implies head[m] == entries[m] by {}
        if j == entries.len() {
            assert(entries[j - 1].duration > duration);
            lemma_count_longer_is_position(head, duration, j - 1);
        } else {
            assert(entries[entries.len() - 1].duration <= duration);
            lemma_count_longer_is_position(head, duration, j);
        }
    }
}

proof fn lemma_sum_durations_of_lines(entries: Seq<ReportEntryView>, tallies: Seq<Tally>)
    requires
        entries.len() == tallies.len(),
        forall|k: int| 0 <= k < entries.len() ==> (#[trigger] entries[k]).duration == tallies[k].total,
    ensures
        sum_durations(entries) == sum_tallies(tallies),
    decreases entries.len(),
{
    if entries.len() > 0 {
        assert forall|k: int| 0 <= k < entries.drop_last().len() implies (
        #[trigger] entries.drop_last()[k]).duration == tallies.drop_last()[k].total by {
            assert(entries.drop_last()[k] == entries[k]);
        }
        lemma_sum_durations_of_lines(entries.drop_last(), tallies.drop_last());
        assert(entries.last() == entries[entries.len() - 1]);
    }
}

/// What `lemma_lines_make_report` and its parts ask of the lines.
spec fn lines_of(
    entries: Seq<ReportEntryView>,
    tallies: Seq<Tally>,
    store: StoreModel,
    grand: u64,
) -> bool {
    &&& entries.len() == tallies.len()
    &&& forall|k: int|
        0 <= k < entries.len() ==> #[trigger] entries[k] == line_of(tallies, k, store, grand)
}

proof fn lemma_lines_listed(
    entries: Seq<ReportEntryView>,
    tallies: Seq<Tally>,
    store: StoreModel,
    since: i64,
    now: i64,
    grand: u64,
)
    requires
        tallies_of(tallies, store, store.tasks.len() as int, since, now),
        lines_of(entries, tallies, store, grand),
    ensures
        forall|k: int|
            0 <= k < entries.len() ==> #[trigger] entry_has_task(entries, k, store, since, now),
        forall|i: int|
            0 <= i < store.tasks.len() && task_has_run(
                store.runs,
                (#[trigger] store.tasks[i]).id,
                since,
                now,
            ) ==> task_has_entry(entries, store, i, since, now),
{
    assert forall|k: int| 0 <= k < entries.len() implies #[trigger] entry_has_task(
        entries,
        k,
        store,
        since,
        now,
    ) by {
        assert(tally_is_for(tallies[k], store, since, now));
        assert(entries[k] == line_of(tallies, k, store, grand));
        assert(entry_is_for(entries, k, store, tallies[k].task as int, since, now));
    }
    assert forall|i: int|
        0 <= i < store.tasks.len() && task_has_run(
            store.runs,
            (#[trigger] store.tasks[i]).id,
            since,
            now,
        ) implies task_has_entry(entries, store, i, since, now) by {
        assert(task_is_tallied(tallies, i));
        let k = choose|k: int| 0 <= k < tallies.len() && (#[trigger] tallies[k]).task == i;
        assert(tally_is_for(tallies[k], store, since, now));
        assert(entries[k] == line_of(tallies, k, store, grand));
        assert(entry_is_for(entries, k, store, i, since, now));
    }
}

proof fn lemma_lines_ordered(
    entries: Seq<ReportEntryView>,
    tallies: Seq<Tally>,
    store: StoreModel,
    since: i64,
    now: i64,
    grand: u64,
)
    requires
        task_ids_ascend(store.tasks),
        tallies_of(tallies, store, store.tasks.len() as int, since, now),
        lines_of(entries, tallies, store, grand),
    ensures
        forall|a: int, b: int|
            0 <= a < b < entries.len() ==> stands_before(#[trigger] entries[a], #[trigger] entries[b]),
{
    assert forall|a: int, b: int| 0 <= a < b < entries.len() implies stands_before(
        #[trigger] entries[a],
        #[trigger] entries[b],
    ) by {
        assert(tally_before(tallies[a], tallies[b]));
        assert(tally_is_for(tallies[a], store, since, now));
        assert(tally_is_for(tallies[b], store, since, now));
        assert(entries[a] == line_of(tallies, a, store, grand));
        assert(entries[b] == line_of(tallies, b, store, grand));
    }
}

proof fn lemma_lines_ranked(
    entries: Seq<ReportEntryView>,
    tallies: Seq<Tally>,
    store: StoreModel,
    grand: u64,
    k: int,
)
    requires
        forall|a: int, b: int|
            0 <= a < b < tallies.len() ==> tally_before(#[trigger] tallies[a], #[trigger] tallies[b]),
        lines_of(entries, tallies, store, grand),
        0 <= k < entries.len(),
        tallies.len() <= u64::MAX,
    ensures
        entries[k].rank == 1 + count_longer(entries, entries[k].duration as int),
{
    lemma_tie_start(tallies, k);
    let j = tie_start(tallies, k);
    let d = entries[k].duration as int;
    assert(entries[k] == line_of(tallies, k, store, grand));
    assert forall|m: int| 0 <= m < j implies (#[trigger] entries[m]).duration > d by {
        assert(entries[m] == line_of(tallies, m, store, grand));
        if m < j - 1 {
            assert(tally_before(tallies[m], tallies[j - 1]));
        }
    }
    assert forall|m: int| j <= m < entries.len() implies (#[trigger] entries[m]).duration <= d by {
        assert(entries[m] == line_of(tallies, m, store, grand));
        if j < m {
            assert(tally_before(tallies[j], tallies[m]));
        }
    }
    lemma_count_longer_is_position(entries, d, j);
}

/// The lines that stand for the tallies of a store make its report.
proof fn lemma_lines_make_report(
    entries: Seq<ReportEntryView>,
    tallies: Seq<Tally>,
    store: StoreModel,
    since: i64,
    now: i64,
    grand: u64,
)
    requires
        store.valid(),
        tallies_of(tallies, store, store.tasks.len() as int, since, now),
        sum_tallies(tallies) == grand,
        grand == window_total(store.tasks, store.runs, since, now),
        lines_of(entries, tallies, store, grand),
        tallies.len() <= u64::MAX,
    ensures
        is_report(entries, store, since, now),
{
    lemma_lines_listed(entries, tallies, store, since, now, grand);
    lemma_lines_ordered(entries, tallies, store, since, now, grand);
    assert forall|k: int| 0 <= k < entries.len() implies (#[trigger] entries[k]).rank == 1
        + count_longer(entries, entries[k].duration as int) by {
        lemma_lines_ranked(entries, tallies, store, grand, k);
    }
    assert forall|k: int| 0 <= k < entries.len() implies (#[trigger] entries[k]).percent
        == percent(
        entries[k].duration as int,
        window_total(store.tasks, store.runs, since, now),
    ) by {
        assert(entries[k] == line_of(tallies, k, store, grand));
        lemma_sum_tallies_bounds(tallies, k);
        lemma_percent_bounds(tallies[k].total as int, grand as int);
    }
    assert forall|k: int| 0 <= k < entries.len() implies (#[trigger] entries[k]).duration
        == tallies[k].total by {
        assert(entries[k] == line_of(tallies, k, store, grand));
    }
    lemma_sum_durations_of_lines(entries, tallies);
}

/// A share of a total lies between 0 and 100 percent.
pub proof fn lemma_percent_bounds(duration: int, total: int)
    requires
        0 <= duration <= total,
    ensures
        0 <= percent(duration, total) <= 100,
{
    if total > 0 {
        assert(0 <= (200 * duration + total) / (2 * total) <= 100) by (nonlinear_arith)
            requires
                0 <= duration <= total,
                total > 0,
        ;
    }
}

/// A tally put in its place among tallies in report order keeps them so.
proof fn lemma_tallies_insert(
    before: Seq<Tally>,
    p: int,
    tally: Tally,
    store: StoreModel,
    since: i64,
    now: i64,
)
    requires
        tallies_of(before, store, tally.task as int, since, now),
        tally_is_for(tally, store, since, now),
        0 <= p <= before.len(),
        forall|j: int| 0 <= j < p ==> (#[trigger] before[j]).total >= tally.total,
        p < before.len() ==> before[p].total < tally.total,
    ensures
        tallies_of(before.insert(p, tally), store, tally.task + 1, since, now),
{
    let after = before.insert(p, tally);
    let t = tally.task as int;
    assert forall|k: int| 0 <= k < after.len() implies tally_is_for(
        #[trigger] after[k],
        store,
        since,
        now,
    ) && after[k].task < t + 1 by {
        if k < p {
            assert(after[k] == before[k]);
        } else if k > p {
            assert(after[k] == before[k - 1]);
        }
    }
    assert forall|i: int|
        0 <= i < t + 1 && task_has_run(
            store.runs,
            (#[trigger] store.tasks[i]).id,
            since,
            now,
        ) implies task_is_tallied(after, i) by {
        if i == t {
            assert(after[p].task == i);
        } else {
            assert(task_is_tallied(before, i));
            let k = choose|k: int| 0 <= k < before.len() && (#[trigger] before[k]).task == i;
            if k < p {
                assert(after[k].task == i);
            } else {
                assert(after[k + 1] == before[k]);
            }
        }
    }
    assert forall|a: int, b: int| 0 <= a < b < after.len() implies tally_before(
        #[trigger] after[a],
        #[trigger] after[b],
    ) by {
        if b < p {
            assert(after[a] == before[a] && after[b] == before[b]);
        } else if b == p {
            assert(after[a] == before[a]);
            assert(before[a].task < t);
        } else if a < p {
            assert(after[a] == before[a] && after[b] == before[b - 1]);
        } else if a == p {
            assert(after[b] == before[b - 1]);
            if b - 1 > p {
                assert(tally_before(before[p], before[b - 1]));
            }
        } else {
            assert(after[a] == before[a - 1] && after[b] == before[b - 1]);
        }
    }
}

/// Tallies in report order for the first `n` tasks are so for one task more
/// where that task has no run in the window.
proof fn lemma_tallies_skip(tallies: Seq<Tally>, store: StoreModel, n: int, since: i64, now: i64)
    requires
        tallies_of(tallies, store, n, since, now),
        0 <= n < store.tasks.len(),
        !task_has_run(store.runs, store.tasks[n].id, since, now),
    ensures
        tallies_of(tallies, store, n + 1, since, now),
{
}

/// The window's total over one task more.
proof fn lemma_window_total_step(store: StoreModel, n: int, since: i64, now: i64)
    requires
        0 <= n < store.tasks.len(),
        runs_ordered(store.runs),
    ensures
        window_total(store.tasks.take(n + 1), store.runs, since, now) == window_total(
            store.tasks.take(n),
            store.runs,
            since,
            now,
        ) + task_total(store.runs, store.tasks[n].id, since, now),
        window_total(store.tasks.take(n + 1), store.runs, since, now) <= window_total(
            store.tasks,
            store.runs,
            since,
            now,
        ),
        0 <= window_total(store.tasks.take(n), store.runs, since, now),
        0 <= task_total(store.runs, store.tasks[n].id, since, now),
{
    let next = store.tasks.take(n + 1);
    assert(next.drop_last() =~= store.tasks.take(n));
    assert(next.last() == store.tasks[n]);
    lemma_window_total_grows(store.tasks, n + 1, store.runs, since, now);
    lemma_window_total_grows(store.tasks, n, store.runs, since, now);
    lemma_task_total_grows(store.runs, 0, store.tasks[n].id, since, now);
    assert(store.runs.take(0) =~= Seq::<Run>::empty());
}

/// Puts a tally after the tallies that are not smaller and before the first
/// that is, and says where.
fn place(ranked: &mut Vec<Tally>, tally: Tally) -> (p: usize)
    ensures
        p <= old(ranked).len(),
        final(ranked)@ == old(ranked)@.insert(p as int, tally),
        forall|j: int| 0 <= j < p ==> (#[trigger] old(ranked)[j]).total >= tally.total,
        p < old(ranked).len() ==> old(ranked)[p as int].total < tally.total,
{
    let mut p: usize = 0;
    while p < ranked.len() && ranked[p].total >= tally.total
        invariant
            p <= ranked.len(),
            ranked@ == old(ranked)@,
            forall|j: int| 0 <= j < p ==> (#[trigger] ranked[j]).total >= tally.total,
        decreases ranked.len() - p,
    {
        p += 1;
    }
    ranked.insert(p, tally);
    p
}

impl Store {
    /// The tallies of the tasks with a run in the window, in report order,
    /// and the window's total.
    fn tally(&self, since: i64, now: i64) -> (result: Result<(Vec<Tally>, u64), StoreError>)
        requires
            self.wf(),
        ensures
            match result {
                Ok((tallies, grand)) => {
                    &&& tallies_of(tallies@, self@, self@.tasks.len() as int, since, now)
                    &&& sum_tallies(tallies@) == grand
                    &&& grand == window_total(self@.tasks, self@.runs, since, now)
                },
                Err(e) => {
                    &&& e == StoreError::DurationOverflow
                    &&& window_total(self@.tasks, self@.runs, since, now) > u64::MAX
                },
            },
    {
        let tasks = self.tasks();
        let runs = self.runs();
        let ghost store = self@;
        let mut ranked: Vec<Tally> = Vec::new();
        let mut grand: u64 = 0;
        let mut t: usize = 0;
        assert(store.tasks.take(0) =~= Seq::<TaskView>::empty());
        while t < tasks.len()
            invariant
                t <= tasks.len(),
                store == self@,
                tasks@.len() == store.tasks.len(),
                forall|i: int| 0 <= i < tasks.len() ==> (#[trigger] tasks[i]).id == store.tasks[i].id,
                runs@ == store.runs,
                runs_ordered(store.runs),
                grand == window_total(store.tasks.take(t as int), store.runs, since, now),
                tallies_of(ranked@, store, t as int, since, now),
                sum_tallies(ranked@) == grand,
            decreases tasks.len() - t,
        {
            let id: i64 = tasks[t].id;
            let (any, counted) = total_for(runs, id, since, now);
            proof {
                lemma_window_total_step(store, t as int, since, now);
            }
            let total: u64 = match counted {
                Some(total) => total,
                None => {
                    return Err(StoreError::DurationOverflow);
                },
            };
            let sum: u64 = match grand.checked_add(total) {
                Some(sum) => sum,
                None => {
                    return Err(StoreError::DurationOverflow);
                },
            };
            if any {
                let tally = Tally { task: t, total };
                let ghost before = ranked@;
                let p: usize = place(&mut ranked, tally);
                proof {
                    lemma_sum_tallies_insert(before, p as int, tally);
                    lemma_tallies_insert(before, p as int, tally, store, since, now);
                }
            } else {
                proof {
                    lemma_no_run_no_total(store.runs, id, since, now);
                    lemma_tallies_skip(ranked@, store, t as int, since, now);
                }
            }
            grand = sum;
            t += 1;
        }
        assert(store.tasks.take(t as int) =~= store.tasks);
        Ok((ranked, grand))
    }

    /// The report over the window that opens at `since` and closes just
    /// before `now`.
    ///
    /// Each task with a run that started in the window has one line, with the
    /// seconds of those runs added up; a run that is still open counts up to
    /// `now`. The lines stand by falling duration. Tasks without such a run
    /// have no line.
    ///
    /// The call is refused with `DurationOverflow` where the seconds of the
    /// whole window are more than a `u64` holds.
    pub fn report_since(&self, since: i64, now: i64) -> (result: Result<
        Vec<ReportEntry>,
        StoreError,
    >)
        requires
            self.wf(),
        ensures
            is_report_outcome(result, self@, since, now),
    {
        let (ranked, grand) = match self.tally(since, now) {
            Ok(tallied) => tallied,
            Err(e) => {
                return Err(e);
            },
        };
        let tasks = self.tasks();
        let ghost store = self@;
        let mut entries: Vec<ReportEntry> = Vec::new();
        let mut first: usize = 0;
        let mut k: usize = 0;
        while k < ranked.len()
            invariant
                k <= ranked.len(),
                first <= k,
                k > 0 ==> first == tie_start(ranked@, k - 1),
                task_views(tasks@) == store.tasks,
                tallies_of(ranked@, store, store.tasks.len() as int, since, now),
                sum_tallies(ranked@) == grand,
                entries.len() == k,
                forall|m: int|
                    0 <= m < k ==> (#[trigger] entries[m])@ == line_of(ranked@, m, store, grand),
            decreases ranked.len() - k,
        {
            let tally: Tally = ranked[k];
            if k == 0 || ranked[k - 1].total != tally.total {
                first = k;
            }
            assert(first == tie_start(ranked@, k as int));
            proof {
                lemma_sum_tallies_bounds(ranked@, k as int);
                assert(tally_is_for(ranked@[k as int], store, since, now));
            }
            let task: &Task = &tasks[tally.task];
            assert(store.tasks[tally.task as int] == tasks@[tally.task as int]@);
            let entry = ReportEntry {
                task_id: task.id,
                name: task.name.clone(),
                duration: tally.total,
                rank: first as u64 + 1,
                percent: percent_of(tally.total, grand),
            };
            assert(entry@ == line_of(ranked@, k as int, store, grand));
            entries.push(entry);
            k += 1;
        }
        proof {
            let lines = entry_views(entries@);
            assert forall|m: int| 0 <= m < lines.len() implies #[trigger] lines[m] == line_of(
                ranked@,
                m,
                store,
                grand,
            ) by {
                assert(lines[m] == entries[m]@);
            }
            assert(lines_of(lines, ranked@, store, grand));
            lemma_lines_make_report(lines, ranked@, store, since, now, grand);
        }
        Ok(entries)
    }

    /// The report of `period` made at `now`: the report over the window that
    /// opens where the current day, week, month or year began and closes just
    /// before `now`.
    ///
    /// `now` is a time at or after the epoch.
    pub fn report(&self, period: InfoPeriod, now: i64) -> (result: Result<
        Vec<ReportEntry>,
        StoreError,
    >)
        requires
            self.wf(),
            0 <= now,
        ensures
            is_report_outcome(result, self@, window_opens(period, now as int) as i64, now),
    {
        self.report_since(period.window_start(now), now)
    }
}

} // verus!
