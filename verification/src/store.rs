//! The store: the task registry and the run tracker.
//!
//! A `Store` holds the rows of both tables in memory. Its operations keep the
//! invariant `StoreModel::valid` and say, by the ids they return, which rows
//! they touched, so that a caller can mirror each change in durable storage.

use crate::model::{
    lemma_open_index, lemma_started_valid, lemma_stopped_valid, lemma_task_index,
    lemma_with_task_valid, lemma_without_task_valid, names_unique, run_ids_ascend, runs_ordered,
    single_open_run, task_ids_ascend, Run, StoreModel, TaskView,
};
use vstd::prelude::*;

verus! {

/// A named unit of trackable work.
#[derive(Clone, Debug, PartialEq, Eq)]
pub struct Task {
    pub id: i64,
    pub name: String,
}

impl View for Task {
    type V = TaskView;

    open spec fn view(&self) -> TaskView {
        TaskView { id: self.id, name: self.name@ }
    }
}

/// The views of a table of tasks, row by row.
pub open spec fn task_views(tasks: Seq<Task>) -> Seq<TaskView> {
    tasks.map_values(|t: Task| t@)
}

/// Why a store refused an operation. A refused operation changes nothing.
#[derive(Clone, Copy, Debug, PartialEq, Eq)]
pub enum StoreError {
    /// A task of that name exists already.
    DuplicateName,
    /// The table's last id is the largest there is, so no row can follow it.
    IdSpaceExhausted,
    /// The open run started after the time given, so it cannot end then.
    ClockBehind,
    /// The rows handed over do not make a valid store.
    InvalidRows,
    /// The time tracked in the window is more than a duration can hold.
    DurationOverflow,
}

/// What a start did.
#[derive(Clone, Copy, Debug, PartialEq, Eq)]
pub enum StartOutcome {
    /// The task was found and `run` was appended for it; `closed` is the id
    /// of the run that was open before, if one was.
    Started { closed: Option<i64>, run: Run },
    /// No task has that name. Nothing was appended; `closed` is the id of the
    /// run that was open before, if one was: it has been ended all the same.
    TaskNotFound { closed: Option<i64> },
}

/// The tasks and runs of one tracker.
#[derive(Debug)]
pub struct Store {
    tasks: Vec<Task>,
    runs: Vec<Run>,
}

impl View for Store {
    type V = StoreModel;

    closed spec fn view(&self) -> StoreModel {
        StoreModel { tasks: task_views(self.tasks@), runs: self.runs@ }
    }
}

/// Whether the ids of the tasks ascend and their names differ.
fn tasks_are_valid(tasks: &Vec<Task>) -> (ok: bool)
    ensures
        ok == (task_ids_ascend(task_views(tasks@)) && names_unique(task_views(tasks@))),
{
    let ghost rows = task_views(tasks@);
    let mut i: usize = 0;
    while i < tasks.len()
        invariant
            i <= tasks.len(),
            rows == task_views(tasks@),
            rows.len() == tasks.len(),
            forall|a: int, b: int| 0 <= a < b < i ==> rows[a].id < rows[b].id,
            forall|a: int, b: int| 0 <= a < b < i ==> rows[a].name != rows[b].name,
        decreases tasks.len() - i,
    {
        if i > 0 && tasks[i - 1].id >= tasks[i].id {
            assert(!(rows[i - 1].id < rows[i as int].id));
            return false;
        }
        let mut j: usize = 0;
        while j < i
            invariant
                j <= i < tasks.len(),
                rows == task_views(tasks@),
                forall|a: int| 0 <= a < j ==> rows[a].name != rows[i as int].name,
            decreases i - j,
        {
            if tasks[j].name == tasks[i].name {
                assert(!(rows[j as int].name != rows[i as int].name));
                return false;
            }
            j += 1;
        }
        assert forall|a: int, b: int| 0 <= a < b < i + 1 implies rows[a].id < rows[b].id by {
            if b == i && a < i - 1 {
                assert(rows[a].id < rows[i - 1].id);
            }
        }
        i += 1;
    }
    true
}

/// Whether the ids of the runs ascend, no run ends before it starts, and at
/// most one run is open.
fn runs_are_valid(runs: &Vec<Run>) -> (ok: bool)
    ensures
        ok == (run_ids_ascend(runs@) && runs_ordered(runs@) && single_open_run(runs@)),
{
    let mut open: Option<usize> = None;
    let mut i: usize = 0;
    while i < runs.len()
        invariant
            i <= runs.len(),
            forall|a: int, b: int| 0 <= a < b < i ==> runs[a].id < runs[b].id,
            forall|a: int| 0 <= a < i ==> (#[trigger] runs[a]).is_ordered(),
            match open {
                Some(o) => o < i && runs[o as int].is_open() && forall|a: int|
                    0 <= a < i && (#[trigger] runs[a]).is_open() ==> a == o,
                None => forall|a: int| 0 <= a < i ==> !(#[trigger] runs[a]).is_open(),
            },
        decreases runs.len() - i,
    {
        let run: Run = runs[i];
        if i > 0 && runs[i - 1].id >= run.id {
            assert(!(runs[i - 1].id < runs[i as int].id));
            return false;
        }
        match run.end_time {
            Some(end) => {
                if end < run.start_time {
                    assert(!runs[i as int].is_ordered());
                    return false;
                }
            },
            None => {
                match open {
                    Some(o) => {
                        assert(runs[o as int].is_open() && runs[i as int].is_open());
                        return false;
                    },
                    None => {
                        open = Some(i);
                    },
                }
            },
        }
        assert forall|a: int, b: int| 0 <= a < b < i + 1 implies runs[a].id < runs[b].id by {
            if b == i && a < i - 1 {
                assert(runs[a].id < runs[i - 1].id);
            }
        }
        i += 1;
    }
    true
}

impl Store {
    /// The store's rows satisfy the invariant of the model.
    pub open spec fn wf(&self) -> bool {
        self@.valid()
    }

    /// A store with no tasks and no runs.
    pub fn new() -> (store: Store)
        ensures
            store.wf(),
            store@ == StoreModel::empty(),
    {
        let store = Store { tasks: Vec::new(), runs: Vec::new() };
        assert(store@.tasks =~= Seq::<TaskView>::empty());
        store
    }

    /// The store that holds the rows given, which come in table order:
    /// `Ok` where they make a valid store, and `InvalidRows` where they do
    /// not.
    pub fn from_rows(tasks: Vec<Task>, runs: Vec<Run>) -> (result: Result<Store, StoreError>)
        ensures
            match result {
                Ok(store) => {
                    &&& store.wf()
                    &&& store@ == StoreModel { tasks: task_views(tasks@), runs: runs@ }
                },
                Err(e) => {
                    &&& e == StoreError::InvalidRows
                    &&& !(StoreModel { tasks: task_views(tasks@), runs: runs@ }).valid()
                },
            },
    {
        if tasks_are_valid(&tasks) && runs_are_valid(&runs) {
            Ok(Store { tasks, runs })
        } else {
            Err(StoreError::InvalidRows)
        }
    }

    /// Adds a task called `name` and returns its id: one more than the last
    /// task's, or 1 in an empty table.
    ///
    /// The call is refused, and nothing changes, with `DuplicateName` where a
    /// task of that name exists, and otherwise with `IdSpaceExhausted` where
    /// no task id is left.
    pub fn add(&mut self, name: &str) -> (result: Result<i64, StoreError>)
        requires
            old(self).wf(),
        ensures
            final(self).wf(),
            final(self)@ == old(self)@.after_add(name@),
            match result {
                Ok(id) => old(self)@.can_add(name@) && id == old(self)@.next_task_id(),
                Err(e) => {
                    &&& !old(self)@.can_add(name@)
                    &&& e == if old(self)@.has_task(name@) {
                        StoreError::DuplicateName
                    } else {
                        StoreError::IdSpaceExhausted
                    }
                },
            },
    {
        if self.find_task(name).is_some() {
            return Err(StoreError::DuplicateName);
        }
        let mut id: i64 = 1;
        if self.tasks.len() > 0 {
            let last: i64 = self.tasks[self.tasks.len() - 1].id;
            if last == i64::MAX {
                return Err(StoreError::IdSpaceExhausted);
            }
            id = last + 1;
        }
        let ghost before = self@;
        self.tasks.push(Task { id, name: name.to_owned() });
        proof {
            lemma_with_task_valid(before, name@);
            assert(self@.tasks =~= before.with_task(name@).tasks);
        }
        Ok(id)
    }

    /// Removes the task called `name` and returns its id; with no such task
    /// this changes nothing and returns `None`.
    ///
    /// Runs are left as they are: those recorded against the task stay in
    /// the run table, an open one stays open until the next stop or start,
    /// and none of them is reported while no task has that id.
    pub fn remove(&mut self, name: &str) -> (removed: Option<i64>)
        requires
            old(self).wf(),
        ensures
            final(self).wf(),
            final(self)@ == old(self)@.without_task(name@),
            removed == if old(self)@.has_task(name@) {
                Some(old(self)@.tasks[old(self)@.task_index(name@)].id)
            } else {
                None
            },
    {
        match self.find_task(name) {
            None => None,
            Some(i) => {
                let ghost before = self@;
                let task: Task = self.tasks.remove(i);
                proof {
                    lemma_task_index(before, name@, i as int);
                    lemma_without_task_valid(before, name@);
                    assert(self@.tasks =~= before.tasks.remove(i as int));
                }
                Some(task.id)
            },
        }
    }

    /// The id and name of every task, in key order.
    pub fn list(&self) -> (listed: Vec<(i64, String)>)
        ensures
            listed.len() == self@.tasks.len(),
            forall|i: int|
                0 <= i < listed.len() ==> (#[trigger] listed[i]).0 == self@.tasks[i].id
                    && listed[i].1@ == self@.tasks[i].name,
    {
        let mut listed: Vec<(i64, String)> = Vec::new();
        let mut i: usize = 0;
        while i < self.tasks.len()
            invariant
                i <= self.tasks.len(),
                listed.len() == i,
                forall|j: int|
                    0 <= j < i ==> (#[trigger] listed[j]).0 == self@.tasks[j].id && listed[j].1@
                        == self@.tasks[j].name,
            decreases self.tasks.len() - i,
        {
            listed.push((self.tasks[i].id, self.tasks[i].name.clone()));
            i += 1;
        }
        listed
    }

    /// The open run, if a run is open.
    pub fn open_run(&self) -> (open: Option<Run>)
        requires
            self.wf(),
        ensures
            match open {
                Some(run) => self@.is_running() && run == self@.runs[self@.open_index()],
                None => !self@.is_running(),
            },
    {
        match self.find_open() {
            Some(i) => {
                proof {
                    lemma_open_index(self@, i as int);
                }
                Some(self.runs[i])
            },
            None => None,
        }
    }

    /// The runs, in key order.
    pub fn runs(&self) -> (runs: &Vec<Run>)
        ensures
            runs@ == self@.runs,
    {
        &self.runs
    }

    /// The tasks, in key order.
    pub fn tasks(&self) -> (tasks: &Vec<Task>)
        ensures
            task_views(tasks@) == self@.tasks,
    {
        &self.tasks
    }

    /// The position of the open run, if a run is open.
    fn find_open(&self) -> (found: Option<usize>)
        ensures
            match found {
                Some(i) => i < self@.runs.len() && self@.runs[i as int].is_open(),
                None => !self@.is_running(),
            },
    {
        let mut i: usize = 0;
        while i < self.runs.len()
            invariant
                i <= self.runs.len(),
                forall|j: int| 0 <= j < i ==> !(#[trigger] self.runs@[j]).is_open(),
            decreases self.runs.len() - i,
        {
            if self.runs[i].end_time.is_none() {
                return Some(i);
            }
            i += 1;
        }
        None
    }

    /// The position of the task called `name`, if there is one.
    fn find_task(&self, name: &str) -> (found: Option<usize>)
        ensures
            match found {
                Some(i) => i < self@.tasks.len() && self@.tasks[i as int].name == name@,
                None => !self@.has_task(name@),
            },
    {
        let wanted: String = name.to_owned();
        let mut i: usize = 0;
        while i < self.tasks.len()
            invariant
                i <= self.tasks.len(),
                wanted@ == name@,
                forall|j: int| 0 <= j < i ==> (#[trigger] self@.tasks[j]).name != name@,
            decreases self.tasks.len() - i,
        {
            if self.tasks[i].name == wanted {
                return Some(i);
            }
            i += 1;
        }
        None
    }

    /// Ends the open run, if there is one, at `now`, and returns its id.
    ///
    /// With no run open this changes nothing and returns `None`. A run that
    /// started after `now` cannot end at `now`: the call is then refused
    /// with `ClockBehind`.
    pub fn stop(&mut self, now: i64) -> (result: Result<Option<i64>, StoreError>)
        requires
            old(self).wf(),
        ensures
            final(self).wf(),
            final(self)@ == old(self)@.after_stop(now),
            match result {
                Ok(closed) => old(self)@.can_close_at(now) && closed == old(self)@.open_run_id(),
                Err(e) => !old(self)@.can_close_at(now) && e == StoreError::ClockBehind,
            },
    {
        let ghost before = self@;
        match self.find_open() {
            None => {
                assert(before.runs =~= before.stopped(now).runs);
                Ok(None)
            },
            Some(i) => {
                let run: Run = self.runs[i];
                if run.start_time > now {
                    return Err(StoreError::ClockBehind);
                }
                let ended = Run {
                    id: run.id,
                    task_id: run.task_id,
                    start_time: run.start_time,
                    end_time: Some(now),
                };
                self.runs.set(i, ended);
                proof {
                    lemma_open_index(before, i as int);
                    lemma_stopped_valid(before, now);
                    assert(self@.runs =~= before.stopped(now).runs);
                }
                Ok(Some(run.id))
            },
        }
    }

    /// Starts a run for the task called `name` at `now`.
    ///
    /// The open run, if there is one, is ended at `now` first, whether or not
    /// the task exists. Where it exists, a run for it that is open from `now`
    /// is appended. Where it does not, nothing is appended and the outcome
    /// says so.
    ///
    /// The call is refused, and nothing changes, with `ClockBehind` where the
    /// open run started after `now`, and otherwise with `IdSpaceExhausted`
    /// where the task exists and no run id is left.
    pub fn start(&mut self, name: &str, now: i64) -> (result: Result<StartOutcome, StoreError>)
        requires
            old(self).wf(),
        ensures
            final(self).wf(),
            final(self)@ == old(self)@.after_start(name@, now),
            match result {
                Ok(StartOutcome::Started { closed, run }) => {
                    &&& old(self)@.can_start(name@, now)
                    &&& old(self)@.has_task(name@)
                    &&& closed == old(self)@.open_run_id()
                    &&& run == old(self)@.new_run(name@, now)
                },
                Ok(StartOutcome::TaskNotFound { closed }) => {
                    &&& old(self)@.can_start(name@, now)
                    &&& !old(self)@.has_task(name@)
                    &&& closed == old(self)@.open_run_id()
                },
                Err(e) => {
                    &&& !old(self)@.can_start(name@, now)
                    &&& e == if old(self)@.can_close_at(now) {
                        StoreError::IdSpaceExhausted
                    } else {
                        StoreError::ClockBehind
                    }
                },
            },
    {
        let ghost before = self@;
        let found = self.find_task(name);
        let open = self.find_open();
        if let Some(o) = open {
            if self.runs[o].start_time > now {
                return Err(StoreError::ClockBehind);
            }
            proof {
                lemma_open_index(before, o as int);
            }
        }
        let mut id: i64 = 1;
        if self.runs.len() > 0 {
            let last: i64 = self.runs[self.runs.len() - 1].id;
            if last < i64::MAX {
                id = last + 1;
            } else if found.is_some() {
                return Err(StoreError::IdSpaceExhausted);
            }
        }
        let closed = match self.stop(now) {
            Ok(closed) => closed,
            Err(e) => {
                return Err(e);
            },
        };
        match found {
            None => Ok(StartOutcome::TaskNotFound { closed }),
            Some(t) => {
                let run = Run { id, task_id: self.tasks[t].id, start_time: now, end_time: None };
                self.runs.push(run);
                proof {
                    lemma_task_index(before, name@, t as int);
                    lemma_started_valid(before, name@, now);
                    assert(self@.runs =~= before.started(name@, now).runs);
                }
                Ok(StartOutcome::Started { closed, run })
            },
        }
    }
}

} // verus!
