//! The mathematical model of the tracker's store.
//!
//! A store is two tables: the tasks that can be tracked and the runs recorded
//! against them. Everything the executable code does is stated over the
//! functions of this module.

use vstd::prelude::*;

verus! {

/// One continuous interval of tracked time against a task.
///
/// Times are whole seconds since the epoch. A run without an end time is
/// open: the work it records is still going on.
#[derive(Clone, Copy, Debug, PartialEq, Eq)]
pub struct Run {
    pub id: i64,
    pub task_id: i64,
    pub start_time: i64,
    pub end_time: Option<i64>,
}

impl Run {
    /// The run has no recorded end.
    pub open spec fn is_open(self) -> bool {
        self.end_time is None
    }

    /// The same run, ended at `now`.
    pub open spec fn closed_at(self, now: i64) -> Run {
        Run { id: self.id, task_id: self.task_id, start_time: self.start_time, end_time: Some(now) }
    }

    /// A closed run does not end before it starts.
    pub open spec fn is_ordered(self) -> bool {
        match self.end_time {
            Some(end) => self.start_time <= end,
            None => true,
        }
    }
}

/// What contracts say of a task: its id and the characters of its name.
pub struct TaskView {
    pub id: i64,
    pub name: Seq<char>,
}

/// What contracts say of a store: its rows, in key order.
pub struct StoreModel {
    pub tasks: Seq<TaskView>,
    pub runs: Seq<Run>,
}

/// The id given to a row appended to a table whose last id is `last`;
/// the first row of an empty table gets 1.
pub open spec fn next_id(last: Option<i64>) -> int {
    match last {
        Some(id) => id + 1,
        None => 1,
    }
}

/// Task ids grow strictly along the table, so no two tasks share an id and
/// table order is key order.
pub open spec fn task_ids_ascend(tasks: Seq<TaskView>) -> bool {
    forall|i: int, j: int| 0 <= i < j < tasks.len() ==> tasks[i].id < tasks[j].id
}

/// No two tasks share a name.
pub open spec fn names_unique(tasks: Seq<TaskView>) -> bool {
    forall|i: int, j: int| 0 <= i < j < tasks.len() ==> tasks[i].name != tasks[j].name
}

/// Run ids grow strictly along the table.
pub open spec fn run_ids_ascend(runs: Seq<Run>) -> bool {
    forall|i: int, j: int| 0 <= i < j < runs.len() ==> runs[i].id < runs[j].id
}

/// Every closed run ends at or after its start.
pub open spec fn runs_ordered(runs: Seq<Run>) -> bool {
    forall|i: int| 0 <= i < runs.len() ==> (#[trigger] runs[i]).is_ordered()
}

/// At most one run is open, over the whole table.
pub open spec fn single_open_run(runs: Seq<Run>) -> bool {
    forall|i: int, j: int|
        0 <= i < runs.len() && 0 <= j < runs.len() && (#[trigger] runs[i]).is_open() && (
        #[trigger] runs[j]).is_open() ==> i == j
}

impl StoreModel {
    /// The store with no rows.
    pub open spec fn empty() -> StoreModel {
        StoreModel { tasks: Seq::empty(), runs: Seq::empty() }
    }

    /// The invariant of a store.
    pub open spec fn valid(self) -> bool {
        &&& task_ids_ascend(self.tasks)
        &&& names_unique(self.tasks)
        &&& run_ids_ascend(self.runs)
        &&& runs_ordered(self.runs)
        &&& single_open_run(self.runs)
    }

    /// Some task is called `name`.
    pub open spec fn has_task(self, name: Seq<char>) -> bool {
        exists|i: int| 0 <= i < self.tasks.len() && (#[trigger] self.tasks[i]).name == name
    }

    /// The position of the task called `name`, where there is one.
    pub open spec fn task_index(self, name: Seq<char>) -> int {
        choose|i: int| 0 <= i < self.tasks.len() && (#[trigger] self.tasks[i]).name == name
    }

    /// Some run is open.
    pub open spec fn is_running(self) -> bool {
        exists|i: int| 0 <= i < self.runs.len() && (#[trigger] self.runs[i]).is_open()
    }

    /// The position of an open run, where there is one.
    pub open spec fn open_index(self) -> int {
        choose|i: int| 0 <= i < self.runs.len() && (#[trigger] self.runs[i]).is_open()
    }

    /// The id of the open run, if a run is open.
    pub open spec fn open_run_id(self) -> Option<i64> {
        if self.is_running() {
            Some(self.runs[self.open_index()].id)
        } else {
            None
        }
    }

    /// The id that the next task will get.
    pub open spec fn next_task_id(self) -> int {
        next_id(
            if self.tasks.len() == 0 {
                None
            } else {
                Some(self.tasks.last().id)
            },
        )
    }

    /// The id that the next run will get.
    pub open spec fn next_run_id(self) -> int {
        next_id(
            if self.runs.len() == 0 {
                None
            } else {
                Some(self.runs.last().id)
            },
        )
    }

    /// No open run started after `now`, so that every open run can be ended
    /// at `now` without ending before it started.
    pub open spec fn can_close_at(self, now: i64) -> bool {
        forall|i: int|
            0 <= i < self.runs.len() && (#[trigger] self.runs[i]).is_open()
                ==> self.runs[i].start_time <= now
    }

    /// The store with a task called `name` appended under the next task id.
    pub open spec fn with_task(self, name: Seq<char>) -> StoreModel {
        StoreModel {
            tasks: self.tasks.push(TaskView { id: self.next_task_id() as i64, name }),
            runs: self.runs,
        }
    }

    /// The store without the task called `name`. Runs are never touched:
    /// those recorded against the task stay in the run table.
    pub open spec fn without_task(self, name: Seq<char>) -> StoreModel {
        if self.has_task(name) {
            StoreModel { tasks: self.tasks.remove(self.task_index(name)), runs: self.runs }
        } else {
            self
        }
    }

    /// The store with every open run ended at `now`.
    pub open spec fn stopped(self, now: i64) -> StoreModel {
        StoreModel {
            tasks: self.tasks,
            runs: self.runs.map_values(
                |r: Run|
                    if r.is_open() {
                        r.closed_at(now)
                    } else {
                        r
                    },
            ),
        }
    }

    /// The run that `started` appends for the task called `name`.
    pub open spec fn new_run(self, name: Seq<char>, now: i64) -> Run {
        Run {
            id: self.next_run_id() as i64,
            task_id: self.tasks[self.task_index(name)].id,
            start_time: now,
            end_time: None,
        }
    }

    /// The store after a start of the task called `name` at `now`: every open
    /// run is ended at `now`, and then, where the task exists, a run for it
    /// that is open from `now` is appended.
    pub open spec fn started(self, name: Seq<char>, now: i64) -> StoreModel {
        if self.has_task(name) {
            StoreModel {
                tasks: self.tasks,
                runs: self.stopped(now).runs.push(self.new_run(name, now)),
            }
        } else {
            self.stopped(now)
        }
    }
    /// A task called `name` can be added: the name is free and an id is left.
    pub open spec fn can_add(self, name: Seq<char>) -> bool {
        !self.has_task(name) && self.next_task_id() <= i64::MAX
    }

    /// What adding a task called `name` leaves behind: the store with the
    /// task, or the store as it was where the task cannot be added.
    pub open spec fn after_add(self, name: Seq<char>) -> StoreModel {
        if self.can_add(name) {
            self.with_task(name)
        } else {
            self
        }
    }

    /// What a stop at `now` leaves behind: the store with its open run ended,
    /// or the store as it was where the open run started after `now`.
    pub open spec fn after_stop(self, now: i64) -> StoreModel {
        if self.can_close_at(now) {
            self.stopped(now)
        } else {
            self
        }
    }

    /// A start of the task called `name` at `now` is accepted: the open run,
    /// if there is one, can end at `now`, and where a run is to be appended
    /// an id is left for it.
    pub open spec fn can_start(self, name: Seq<char>, now: i64) -> bool {
        self.can_close_at(now) && (self.has_task(name) ==> self.next_run_id() <= i64::MAX)
    }

    /// What a start of the task called `name` at `now` leaves behind: the
    /// store after the start, or the store as it was where the start is not
    /// accepted.
    pub open spec fn after_start(self, name: Seq<char>, now: i64) -> StoreModel {
        if self.can_start(name, now) {
            self.started(name, now)
        } else {
            self
        }
    }

    /// What a call of the tracker leaves behind.
    pub open spec fn after(self, call: Call) -> StoreModel {
        match call {
            Call::Start { name, now } => self.after_start(name, now),
            Call::Stop { now } => self.after_stop(now),
        }
    }

    /// What a sequence of calls of the tracker leaves behind.
    pub open spec fn after_all(self, calls: Seq<Call>) -> StoreModel
        decreases calls.len(),
    {
        if calls.len() == 0 {
            self
        } else {
            self.after_all(calls.drop_last()).after(calls.last())
        }
    }
}

/// A call of the run tracker, as contracts speak of it.
pub enum Call {
    Start { name: Seq<char>, now: i64 },
    Stop { now: i64 },
}

/// In a valid store the position of the task called `name` is the only one
/// with that name.
pub proof fn lemma_task_index(store: StoreModel, name: Seq<char>, i: int)
    requires
        names_unique(store.tasks),
        0 <= i < store.tasks.len(),
        store.tasks[i].name == name,
    ensures
        store.has_task(name),
        store.task_index(name) == i,
{
    let j = store.task_index(name);
    if j < i {
        assert(store.tasks[j].name != store.tasks[i].name);
    } else if i < j {
        assert(store.tasks[i].name != store.tasks[j].name);
    }
}

/// In a valid store the position of the open run is the only one that is
/// open.
pub proof fn lemma_open_index(store: StoreModel, i: int)
    requires
        single_open_run(store.runs),
        0 <= i < store.runs.len(),
        store.runs[i].is_open(),
    ensures
        store.is_running(),
        store.open_index() == i,
{
}

/// Ending the open run at a time that is not before its start keeps the
/// store valid and leaves no run open.
pub proof fn lemma_stopped_valid(store: StoreModel, now: i64)
    requires
        store.valid(),
        store.can_close_at(now),
    ensures
        store.stopped(now).valid(),
        !store.stopped(now).is_running(),
        store.stopped(now).runs.len() == store.runs.len(),
        store.stopped(now).next_run_id() == store.next_run_id(),
{
    let after = store.stopped(now);
    assert forall|i: int| 0 <= i < after.runs.len() implies (#[trigger] after.runs[i]).is_ordered()
        && !after.runs[i].is_open() && after.runs[i].id == store.runs[i].id by {
        assert(store.runs[i].is_ordered());
    }
    assert forall|i: int, j: int| 0 <= i < j < after.runs.len() implies after.runs[i].id
        < after.runs[j].id by {
        assert(after.runs[i].id == store.runs[i].id);
        assert(after.runs[j].id == store.runs[j].id);
    }
    if store.runs.len() > 0 {
        assert(after.runs.last().id == store.runs.last().id);
    }
}

/// A start that is accepted keeps the store valid; it leaves the new run
/// open where the task exists, and no run open where it does not.
pub proof fn lemma_started_valid(store: StoreModel, name: Seq<char>, now: i64)
    requires
        store.valid(),
        store.can_start(name, now),
    ensures
        store.started(name, now).valid(),
        store.started(name, now).is_running() == store.has_task(name),
{
    lemma_stopped_valid(store, now);
    let stopped = store.stopped(now);
    let after = store.started(name, now);
    if store.has_task(name) {
        let n = stopped.runs.len() as int;
        assert(after.runs[n].is_open());
        assert forall|i: int| 0 <= i < n implies after.runs[i] == stopped.runs[i] by {}
        assert forall|i: int| 0 <= i < after.runs.len() implies (
        #[trigger] after.runs[i]).is_ordered() by {
            if i < n {
                assert(stopped.runs[i].is_ordered());
            }
        }
        assert forall|i: int, j: int|
            0 <= i < after.runs.len() && 0 <= j < after.runs.len() && (
            #[trigger] after.runs[i]).is_open() && (
            #[trigger] after.runs[j]).is_open() implies i == j by {
            if i < n {
                assert(!stopped.runs[i].is_open());
            }
            if j < n {
                assert(!stopped.runs[j].is_open());
            }
        }
        assert forall|i: int, j: int| 0 <= i < j < after.runs.len() implies after.runs[i].id
            < after.runs[j].id by {
            if j == n {
                assert(stopped.runs[i].id <= stopped.runs.last().id);
            }
        }
    }
}

/// Adding a task whose name is free keeps the store valid.
pub proof fn lemma_with_task_valid(store: StoreModel, name: Seq<char>)
    requires
        store.valid(),
        store.can_add(name),
    ensures
        store.with_task(name).valid(),
{
    let after = store.with_task(name);
    let n = store.tasks.len() as int;
    assert forall|i: int, j: int| 0 <= i < j < after.tasks.len() implies after.tasks[i].id
        < after.tasks[j].id by {
        if j == n {
            assert(store.tasks[i].id <= store.tasks.last().id);
        }
    }
    assert forall|i: int, j: int| 0 <= i < j < after.tasks.len() implies after.tasks[i].name
        != after.tasks[j].name by {
        if j == n {
            assert(store.tasks[i].name != name);
        }
    }
}

/// Removing a task keeps the store valid, and no task has its name
/// afterwards.
pub proof fn lemma_without_task_valid(store: StoreModel, name: Seq<char>)
    requires
        store.valid(),
    ensures
        store.without_task(name).valid(),
        !store.without_task(name).has_task(name),
{
    let after = store.without_task(name);
    if store.has_task(name) {
        let k = store.task_index(name);
        assert forall|a: int| 0 <= a < after.tasks.len() implies #[trigger] after.tasks[a]
            == store.tasks[if a < k {
            a
        } else {
            a + 1
        }] by {}
        assert forall|a: int, b: int| 0 <= a < b < after.tasks.len() implies after.tasks[a].id
            < after.tasks[b].id && after.tasks[a].name != after.tasks[b].name by {
            let a0 = if a < k { a } else { a + 1 };
            let b0 = if b < k { b } else { b + 1 };
            assert(after.tasks[a] == store.tasks[a0]);
            assert(after.tasks[b] == store.tasks[b0]);
        }
        assert forall|a: int| 0 <= a < after.tasks.len() implies (#[trigger] after.tasks[a]).name
            != name by {
            let a0 = if a < k { a } else { a + 1 };
            assert(after.tasks[a] == store.tasks[a0]);
            if a0 < k {
                assert(store.tasks[a0].name != store.tasks[k].name);
            } else {
                assert(store.tasks[k].name != store.tasks[a0].name);
            }
        }
    }
}

} // verus!
