//! What holds of the tracker and of its reports, whatever the store and
//! whatever the calls: each law is a proof over the model.

use crate::model::{
    lemma_started_valid, lemma_stopped_valid, single_open_run, Call, Run, StoreModel,
};
use crate::report::{
    count_longer, counts_for, entry_has_task, entry_is_for, is_report,
    lemma_count_longer_is_position, lemma_no_run_no_total, percent, span, stands_before,
    sum_durations, sum_percents, task_has_entry, task_has_run, task_total, window_total,
    ReportEntryView,
};
use vstd::prelude::*;

verus! {

/// A call of the tracker keeps a valid store valid.
pub proof fn lemma_call_keeps_valid(store: StoreModel, call: Call)
    requires
        store.valid(),
    ensures
        store.after(call).valid(),
{
    match call {
        Call::Start { name, now } => {
            if store.can_start(name, now) {
                lemma_started_valid(store, name, now);
            }
        },
        Call::Stop { now } => {
            if store.can_close_at(now) {
                lemma_stopped_valid(store, now);
            }
        },
    }
}

/// After any sequence of starts and stops at most one run is open.
pub proof fn lemma_single_open_run(store: StoreModel, calls: Seq<Call>)
    requires
        store.valid(),
    ensures
        store.after_all(calls).valid(),
        single_open_run(store.after_all(calls).runs),
    decreases calls.len(),
{
    if calls.len() > 0 {
        lemma_single_open_run(store, calls.drop_last());
        lemma_call_keeps_valid(store.after_all(calls.drop_last()), calls.last());
    }
}

/// A start while a run is open ends that run at the very time at which the
/// new run begins.
pub proof fn lemma_start_stops_previous(store: StoreModel, name: Seq<char>, now: i64)
    requires
        store.valid(),
        store.is_running(),
        store.has_task(name),
    ensures
        store.started(name, now).runs.len() == store.runs.len() + 1,
        store.started(name, now).runs[store.open_index()].end_time == Some(now),
        store.started(name, now).runs.last().start_time == now,
        store.started(name, now).runs.last().is_open(),
        store.started(name, now).runs.last().task_id == store.tasks[store.task_index(name)].id,
{
}

/// A start of a task that does not exist appends no run: it does what a stop
/// does.
pub proof fn lemma_start_unknown_task(store: StoreModel, name: Seq<char>, now: i64)
    requires
        !store.has_task(name),
    ensures
        store.after_start(name, now) == store.after_stop(now),
        store.after_start(name, now).runs.len() == store.runs.len(),
{
}

/// A stop after a stop changes nothing: ending the open run twice is ending
/// it once, at the first of the two times.
pub proof fn lemma_stop_twice(store: StoreModel, first: i64, second: i64)
    requires
        store.valid(),
    ensures
        store.stopped(first).stopped(second) == store.stopped(first),
        store.can_close_at(first) ==> store.after_stop(first).after_stop(second)
            == store.after_stop(first),
        store.can_close_at(first) ==> store.after_stop(first).open_run_id() is None,
{
    let once = store.stopped(first);
    assert(once.stopped(second).runs =~= once.runs);
    if store.can_close_at(first) {
        lemma_stopped_valid(store, first);
    }
}

/// A run that counts for a task adds its own seconds to the task's total,
/// no more and no less, wherever it stands in the table: for a run that has
/// ended, the seconds from its start to its end.
pub proof fn lemma_run_adds_its_span(runs: Seq<Run>, at: int, task_id: i64, since: i64, now: i64)
    requires
        0 <= at < runs.len(),
        counts_for(runs[at], task_id, since, now),
    ensures
        task_total(runs, task_id, since, now) == task_total(
            runs.remove(at),
            task_id,
            since,
            now,
        ) + span(runs[at], now),
        runs[at].end_time matches Some(end) ==> span(runs[at], now) == end - runs[at].start_time,
    decreases runs.len(),
{
    if at == runs.len() - 1 {
        assert(runs.remove(at) =~= runs.drop_last());
    } else {
        assert(runs.remove(at).drop_last() =~= runs.drop_last().remove(at));
        assert(runs.remove(at).last() == runs.last());
        lemma_run_adds_its_span(runs.drop_last(), at, task_id, since, now);
    }
}

/// A task whose only run in the window began at `begin` and ended at `end`
/// has a total of `end - begin` seconds.
pub proof fn lemma_single_run_total(
    runs: Seq<Run>,
    at: int,
    task_id: i64,
    since: i64,
    now: i64,
    begin: i64,
    end: i64,
)
    requires
        0 <= at < runs.len(),
        runs[at].start_time == begin,
        runs[at].end_time == Some(end),
        counts_for(runs[at], task_id, since, now),
        forall|j: int|
            0 <= j < runs.len() && j != at ==> !counts_for(#[trigger] runs[j], task_id, since, now),
    ensures
        task_total(runs, task_id, since, now) == end - begin,
    decreases runs.len(),
{
    let head = runs.drop_last();
    if at == runs.len() - 1 {
        assert forall|j: int| 0 <= j < head.len() implies !counts_for(
            #[trigger] head[j],
            task_id,
            since,
            now,
        ) by {
            assert(head[j] == runs[j]);
        }
        lemma_no_run_no_total(head, task_id, since, now);
    } else {
        assert(!counts_for(runs[runs.len() - 1], task_id, since, now));
        assert forall|j: int| 0 <= j < head.len() && j != at implies !counts_for(
            #[trigger] head[j],
            task_id,
            since,
            now,
        ) by {
            assert(head[j] == runs[j]);
        }
        assert(head[at] == runs[at]);
        lemma_single_run_total(head, at, task_id, since, now, begin, end);
    }
}

/// In a report, the line of a task whose only run in the window began at
/// `begin` and ended at `end` shows `end - begin` seconds.
pub proof fn lemma_reported_duration(
    entries: Seq<ReportEntryView>,
    k: int,
    store: StoreModel,
    i: int,
    at: int,
    since: i64,
    now: i64,
)
    requires
        is_report(entries, store, since, now),
        entry_is_for(entries, k, store, i, since, now),
        0 <= at < store.runs.len(),
        store.runs[at].end_time is Some,
        counts_for(store.runs[at], store.tasks[i].id, since, now),
        forall|j: int|
            0 <= j < store.runs.len() && j != at ==> !counts_for(
                #[trigger] store.runs[j],
                store.tasks[i].id,
                since,
                now,
            ),
    ensures
        entries[k].duration == store.runs[at].end_time->0 - store.runs[at].start_time,
{
    lemma_single_run_total(
        store.runs,
        at,
        store.tasks[i].id,
        since,
        now,
        store.runs[at].start_time,
        store.runs[at].end_time->0,
    );
}

/// A percentage is the whole number nearest to the hundredfold share: it is
/// off by half a percent at most.
pub proof fn lemma_percent_is_nearest(duration: int, total: int)
    requires
        0 <= duration,
        0 < total,
    ensures
        -total < 2 * (percent(duration, total) * total - 100 * duration) <= total,
{
    let p = percent(duration, total);
    let x = 200 * duration + total;
    let d = 2 * total;
    assert(x == d * (x / d) + x % d && 0 <= x % d < d) by (nonlinear_arith)
        requires
            d > 0,
    ;
    assert(2 * (p * total) == d * p) by (nonlinear_arith)
        requires
            d == 2 * total,
    ;
}

/// Twice the total times the sum of the percentages stays within the number
/// of entries times the total of two hundred times the sum of the durations.
proof fn lemma_percent_sum_bounds(entries: Seq<ReportEntryView>, total: int)
    requires
        0 < total,
        forall|k: int|
            0 <= k < entries.len() ==> (#[trigger] entries[k]).percent == percent(
                entries[k].duration as int,
                total,
            ),
    ensures
        2 * (sum_percents(entries) * total) <= 200 * sum_durations(entries) + entries.len() * total,
        2 * (sum_percents(entries) * total) >= 200 * sum_durations(entries) - entries.len() * total,
    decreases entries.len(),
{
    if entries.len() > 0 {
        let head = entries.drop_last();
        let last = entries.last();
        assert forall|k: int| 0 <= k < head.len() implies (#[trigger] head[k]).percent == percent(
            head[k].duration as int,
            total,
        ) by {
            assert(head[k] == entries[k]);
        }
        lemma_percent_sum_bounds(head, total);
        assert(last == entries[entries.len() - 1]);
        lemma_percent_is_nearest(last.duration as int, total);
        let sp = sum_percents(head);
        let n = head.len() as int;
        assert((sp + last.percent) * total == sp * total + last.percent * total)
            by (nonlinear_arith);
        assert((n + 1) * total == n * total + total) by (nonlinear_arith);
    }
}

/// Where time was tracked in the window, the percentages of a report add up
/// to 100 within rounding: off by half a percent for each entry at most.
pub proof fn lemma_percents_sum(
    entries: Seq<ReportEntryView>,
    store: StoreModel,
    since: i64,
    now: i64,
)
    requires
        is_report(entries, store, since, now),
        window_total(store.tasks, store.runs, since, now) > 0,
    ensures
        -entries.len() <= 2 * (sum_percents(entries) - 100) <= entries.len(),
{
    let total = window_total(store.tasks, store.runs, since, now);
    lemma_percent_sum_bounds(entries, total);
    let sp = sum_percents(entries);
    let n = entries.len() as int;
    assert(2 * (sp - 100) <= n) by (nonlinear_arith)
        requires
            2 * (sp * total) <= 200 * total + n * total,
            total > 0,
    ;
    assert(-n <= 2 * (sp - 100)) by (nonlinear_arith)
        requires
            2 * (sp * total) >= 200 * total - n * total,
            total > 0,
    ;
}

/// Where no time was tracked in the window, every entry of a report shows
/// 0 percent; and where no task has a run in the window, the report is empty.
pub proof fn lemma_zero_total(entries: Seq<ReportEntryView>, store: StoreModel, since: i64, now: i64)
    requires
        is_report(entries, store, since, now),
    ensures
        window_total(store.tasks, store.runs, since, now) == 0 ==> forall|k: int|
            0 <= k < entries.len() ==> (#[trigger] entries[k]).percent == 0,
        (forall|i: int|
            0 <= i < store.tasks.len() ==> !task_has_run(
                store.runs,
                (#[trigger] store.tasks[i]).id,
                since,
                now,
            )) ==> entries.len() == 0,
{
    if entries.len() > 0 {
        assert(entry_has_task(entries, 0, store, since, now));
        let i = choose|i: int| entry_is_for(entries, 0, store, i, since, now);
        assert(task_has_run(store.runs, store.tasks[i].id, since, now));
    }
}

/// In a report, entries of the same duration have the same rank; the first
/// entry has rank 1; and an entry that is shorter than the one before it has
/// the rank that its place gives it, one more than the number of entries
/// before it, so that a rank is left out for each entry tied above it.
pub proof fn lemma_rank_ties(entries: Seq<ReportEntryView>, store: StoreModel, since: i64, now: i64)
    requires
        is_report(entries, store, since, now),
    ensures
        forall|a: int, b: int|
            0 <= a < entries.len() && 0 <= b < entries.len() && (#[trigger] entries[a]).duration == (
            #[trigger] entries[b]).duration ==> entries[a].rank == entries[b].rank,
        entries.len() > 0 ==> entries[0].rank == 1,
        forall|k: int|
            0 < k < entries.len() && entries[k - 1].duration > (#[trigger] entries[k]).duration
                ==> entries[k].rank == k + 1,
        forall|k: int|
            0 < k < entries.len() && entries[k - 1].duration == (#[trigger] entries[k]).duration
                ==> entries[k].rank == entries[k - 1].rank,
{
    assert forall|k: int|
        0 <= k < entries.len() && (k == 0 || entries[k - 1].duration > (
        #[trigger] entries[k]).duration) implies entries[k].rank == k + 1 by {
        let d = entries[k].duration as int;
        assert forall|m: int| 0 <= m < k implies (#[trigger] entries[m]).duration > d by {
            if m < k - 1 {
                assert(stands_before(entries[m], entries[k - 1]));
            }
        }
        assert forall|m: int| k <= m < entries.len() implies (#[trigger] entries[m]).duration
            <= d by {
            if k < m {
                assert(stands_before(entries[k], entries[m]));
            }
        }
        lemma_count_longer_is_position(entries, d, k);
    }
}

/// Reports of the same store over the same window do not differ in which
/// task stands where, nor in the seconds shown for it.
proof fn lemma_same_lines(
    a: Seq<ReportEntryView>,
    b: Seq<ReportEntryView>,
    store: StoreModel,
    since: i64,
    now: i64,
    k: int,
)
    requires
        is_report(a, store, since, now),
        is_report(b, store, since, now),
        0 <= k < a.len(),
        k < b.len(),
    ensures
        a[k].task_id == b[k].task_id,
        a[k].name == b[k].name,
        a[k].duration == b[k].duration,
    decreases k,
{
    assert(entry_has_task(a, k, store, since, now));
    let i = choose|i: int| entry_is_for(a, k, store, i, since, now);
    assert(task_has_entry(b, store, i, since, now));
    let kb = choose|kb: int| entry_is_for(b, kb, store, i, since, now);
    if kb < k {
        lemma_same_lines(a, b, store, since, now, kb);
        assert(stands_before(a[kb], a[k]));
    } else if kb > k {
        assert(entry_has_task(b, k, store, since, now));
        let j = choose|j: int| entry_is_for(b, k, store, j, since, now);
        assert(task_has_entry(a, store, j, since, now));
        let ka = choose|ka: int| entry_is_for(a, ka, store, j, since, now);
        if ka < k {
            lemma_same_lines(a, b, store, since, now, ka);
            assert(stands_before(b[ka], b[k]));
        } else if ka > k {
            assert(stands_before(a[k], a[ka]));
            assert(stands_before(b[k], b[kb]));
        }
    }
}

/// No report of a store over a window is longer than another.
proof fn lemma_same_length(
    a: Seq<ReportEntryView>,
    b: Seq<ReportEntryView>,
    store: StoreModel,
    since: i64,
    now: i64,
)
    requires
        is_report(a, store, since, now),
        is_report(b, store, since, now),
    ensures
        a.len() <= b.len(),
{
    if a.len() > b.len() {
        let k = b.len() as int;
        assert(entry_has_task(a, k, store, since, now));
        let i = choose|i: int| entry_is_for(a, k, store, i, since, now);
        assert(task_has_entry(b, store, i, since, now));
        let kb = choose|kb: int| entry_is_for(b, kb, store, i, since, now);
        lemma_same_lines(a, b, store, since, now, kb);
        assert(stands_before(a[kb], a[k]));
    }
}

/// Entries that agree in their durations, place by place, agree in how many
/// of them are longer than a given duration.
proof fn lemma_count_longer_same(a: Seq<ReportEntryView>, b: Seq<ReportEntryView>, duration: int)
    requires
        a.len() == b.len(),
        forall|k: int| 0 <= k < a.len() ==> (#[trigger] a[k]).duration == b[k].duration,
    ensures
        count_longer(a, duration) == count_longer(b, duration),
    decreases a.len(),
{
    if a.len() > 0 {
        assert forall|k: int| 0 <= k < a.drop_last().len() implies (
        #[trigger] a.drop_last()[k]).duration == b.drop_last()[k].duration by {
            assert(a.drop_last()[k] == a[k]);
        }
        lemma_count_longer_same(a.drop_last(), b.drop_last(), duration);
        assert(a.last() == a[a.len() - 1]);
    }
}

/// A store has one report over a window and no other.
pub proof fn lemma_report_is_unique(
    a: Seq<ReportEntryView>,
    b: Seq<ReportEntryView>,
    store: StoreModel,
    since: i64,
    now: i64,
)
    requires
        is_report(a, store, since, now),
        is_report(b, store, since, now),
    ensures
        a == b,
{
    lemma_same_length(a, b, store, since, now);
    lemma_same_length(b, a, store, since, now);
    assert forall|k: int| 0 <= k < a.len() implies (#[trigger] a[k]).duration == b[k].duration by {
        lemma_same_lines(a, b, store, since, now, k);
    }
    assert forall|k: int| 0 <= k < a.len() implies a[k] == b[k] by {
        lemma_same_lines(a, b, store, since, now, k);
        lemma_count_longer_same(a, b, a[k].duration as int);
    }
    assert(a =~= b);
}

} // verus!
