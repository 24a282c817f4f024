//! The present time, taken from the system clock.

use vstd::prelude::*;
use chrono::{Datelike, Timelike};
use crate::date::DueDate;
use crate::task::{Task, views, tasks_wf, spec_max_id};
use crate::handler::{Command, apply, render_list, spec_list_output, spec_apply_tasks, spec_apply_output, spec_apply_changed};

verus! {

/// Relies on chrono's `Utc::now` and its `Datelike` / `Timelike`
/// accessors: whatever instant the clock yields, the month, day, hour
/// and minute fields hold real calendar values, and the year is not
/// before 1970 (chrono's `Utc::now` panics on a system clock set
/// before the Unix epoch, and succeeds for years far beyond four
/// digits). Nothing is promised about which instant it is.
#[verifier::external_body]
fn now_utc() -> (r: DueDate)
    ensures
        1970 <= r.year,
        1 <= r.month <= 12,
        1 <= r.day <= crate::date::spec_days_in_month(r.year, r.month),
        r.hour <= 23,
        r.minute <= 59,
{
    let now = chrono::Utc::now();
    DueDate {
        year: now.year() as u32,
        month: now.month(),
        day: now.day(),
        hour: now.hour(),
        minute: now.minute(),
    }
}

/// Renders the listing against the clock's present time: whatever
/// instant the clock yields, the output is the listing for it.
pub fn render_list_now(tasks: &Vec<Task>) -> (out: String)
    requires
        tasks_wf(views(tasks@)),
    ensures
        exists|now: DueDate| out@ == spec_list_output(views(tasks@), now),
{
    let now = now_utc();
    let out = render_list(tasks, &now);
    proof {
        assert(out@ == spec_list_output(views(tasks@), now));
    }
    out
}

/// Interprets one command against the collection, judging overdue
/// tasks by the clock's present time. The new collection and the
/// saved flag do not depend on the clock; the output is the one the
/// clock's instant calls for.
pub fn apply_now(cmd: Command, tasks: &mut Vec<Task>) -> (r: (String, bool))
    requires
        tasks_wf(views(old(tasks)@)),
        cmd matches Command::Add { .. } ==> spec_max_id(views(old(tasks)@)) < u32::MAX,
    ensures
        views(final(tasks)@) == spec_apply_tasks(cmd, views(old(tasks)@)),
        tasks_wf(views(final(tasks)@)),
        r.1 == spec_apply_changed(cmd, views(old(tasks)@)),
        exists|now: DueDate| r.0@ == spec_apply_output(cmd, views(old(tasks)@), now),
{
    let now = now_utc();
    let r = apply(cmd, tasks, &now);
    proof {
        assert(r.0@ == spec_apply_output(cmd, views(old(tasks)@), now));
    }
    r
}

} // verus!
