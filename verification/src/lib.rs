//! A verified core for a personal time tracker: named tasks, timed runs
//! against them, and duration reports over a day, week, month or year.
//!
//! - `model`: the two tables as mathematical sequences, the invariant of a
//!   store and what each operation makes of it.
//! - `store`: the store itself, with the task registry (`add`, `remove`,
//!   `list`) and the run tracker (`start`, `stop`).
//! - `calendar`: where the window of a report opens.
//! - `report`: the report of a store over a window.
//! - `duration`, `lines`: durations and output lines as text.
//! - `laws`: what holds of every store and every report.
//!
//! The library keeps no clock and touches no file: the caller says what time
//! it is, hands over the rows of its tables and writes back what changed.

pub mod calendar;
pub mod duration;
pub mod laws;
pub mod lines;
pub mod model;
pub mod report;
pub mod store;
