//! The lines that a front end prints: one for each task in a listing, one
//! for each entry of a report under a heading, and one for a task that a
//! start did not find.

use crate::calendar::{period_word, InfoPeriod};
use crate::duration::{decimal, duration_text, percent_text, push_decimal};
use crate::report::{ReportEntry, ReportEntryView};
use vstd::prelude::*;

verus! {

/// A whole number in decimal, with a minus sign before it where it is
/// negative.
pub open spec fn signed_decimal(n: int) -> Seq<char> {
    if n < 0 {
        seq!['-'] + decimal((-n) as nat)
    } else {
        decimal(n as nat)
    }
}

/// The line of a task in a listing: its id, a colon and a space, its name.
pub open spec fn task_line_text(id: int, name: Seq<char>) -> Seq<char> {
    signed_decimal(id) + seq![':', ' '] + name
}

/// The heading of a report: `Current `, the word for the period, a colon.
pub open spec fn heading_text(period: InfoPeriod) -> Seq<char> {
    seq!['C', 'u', 'r', 'r', 'e', 'n', 't', ' '] + period_word(period) + seq![':']
}

/// The line of a report entry: a tab, the rank with a full stop behind it,
/// the name with a colon behind it, the duration, and the percentage in
/// brackets.
pub open spec fn report_line_text(entry: ReportEntryView) -> Seq<char> {
    seq!['\t'] + decimal(entry.rank as nat) + seq!['.', ' '] + entry.name + seq![':', ' ']
        + duration_text(entry.duration as nat) + seq![' ', '('] + percent_text(
        entry.percent as nat,
    ) + seq![')']
}

/// The line for a task that a start did not find.
pub open spec fn not_found_text(name: Seq<char>) -> Seq<char> {
    seq!['T', 'a', 's', 'k', ' ', 'n', 'o', 't', ' ', 'f', 'o', 'u', 'n', 'd', ':', ' '] + name
}

/// The line of a task in a listing, such as `3: writing`.
pub fn task_line(id: i64, name: &str) -> (line: String)
    ensures
        line@ == task_line_text(id as int, name@),
{
    proof {
        reveal_strlit("-");
        reveal_strlit(": ");
    }
    let mut line = String::new();
    if id < 0 {
        line.append("-");
        push_decimal(&mut line, (-(id as i128)) as u64);
    } else {
        push_decimal(&mut line, id as u64);
    }
    line.append(": ");
    line.append(name);
    assert("-"@ =~= seq!['-']);
    assert(": "@ =~= seq![':', ' ']);
    assert(line@ =~= task_line_text(id as int, name@));
    line
}

/// The heading of a report, such as `Current week:`.
pub fn report_heading(period: InfoPeriod) -> (line: String)
    ensures
        line@ == heading_text(period),
{
    proof {
        reveal_strlit("Current ");
        reveal_strlit(":");
    }
    let mut line = String::new();
    line.append("Current ");
    line.append(period.label());
    line.append(":");
    assert("Current "@ =~= seq!['C', 'u', 'r', 'r', 'e', 'n', 't', ' ']);
    assert(":"@ =~= seq![':']);
    assert(line@ =~= heading_text(period));
    line
}

/// The line of a report entry, such as `	1. writing: 0d 0h 1m 30s (100%)`.
pub fn report_line(entry: &ReportEntry) -> (line: String)
    ensures
        line@ == report_line_text(entry@),
{
    proof {
        reveal_strlit("\t");
        reveal_strlit(". ");
        reveal_strlit(": ");
        reveal_strlit(" (");
        reveal_strlit(")");
    }
    let mut line = String::new();
    line.append("\t");
    push_decimal(&mut line, entry.rank);
    line.append(". ");
    line.append(entry.name.as_str());
    line.append(": ");
    let duration: String = crate::duration::format_duration(entry.duration);
    line.append(duration.as_str());
    line.append(" (");
    let share: String = crate::duration::format_percent(entry.percent);
    line.append(share.as_str());
    line.append(")");
    assert("\t"@ =~= seq!['\t']);
    assert(". "@ =~= seq!['.', ' ']);
    assert(": "@ =~= seq![':', ' ']);
    assert(" ("@ =~= seq![' ', '(']);
    assert(")"@ =~= seq![')']);
    assert(line@ =~= report_line_text(entry@));
    line
}

/// The line for a task that a start did not find.
pub fn task_not_found_line(name: &str) -> (line: String)
    ensures
        line@ == not_found_text(name@),
{
    proof {
        reveal_strlit("Task not found: ");
    }
    let mut line = String::new();
    line.append("Task not found: ");
    line.append(name);
    assert("Task not found: "@ =~= not_found_text(Seq::empty()));
    assert(line@ =~= not_found_text(name@));
    line
}

} // verus!
