//! The task record and the mathematical view of a task collection.

use vstd::prelude::*;
use crate::date::{DueDate, date_lt, date_valid, is_before};

verus! {

/// One task of the tracker.
pub struct Task {
    pub id: u32,
    pub description: String,
    pub completed: bool,
    pub priority: String,
    pub due_date: Option<DueDate>,
}

/// The mathematical value of a task.
pub ghost struct TaskView {
    pub id: u32,
    pub description: Seq<char>,
    pub completed: bool,
    pub priority: Seq<char>,
    pub due_date: Option<DueDate>,
}

impl View for Task {
    type V = TaskView;

    open spec fn view(&self) -> TaskView {
        TaskView {
            id: self.id,
            description: self.description@,
            completed: self.completed,
            priority: self.priority@,
            due_date: self.due_date,
        }
    }
}

/// The values of a whole collection, in its order.
pub open spec fn views(ts: Seq<Task>) -> Seq<TaskView> {
    Seq::new(ts.len(), |i: int| ts[i]@)
}

/// A task's due date, where present, names a real calendar date.
pub open spec fn task_wf(t: TaskView) -> bool {
    match t.due_date {
        Some(d) => date_valid(d),
        None => true,
    }
}

pub open spec fn tasks_wf(ts: Seq<TaskView>) -> bool {
    forall|i: int| 0 <= i < ts.len() ==> task_wf(#[trigger] ts[i])
}

/// The largest id present, or zero for an empty collection.
pub open spec fn spec_max_id(ts: Seq<TaskView>) -> u32
    decreases ts.len(),
{
    if ts.len() == 0 {
        0
    } else {
        let rest: u32 = spec_max_id(ts.drop_last());
        let last: u32 = ts.last().id;
        if last > rest { last } else { rest }
    }
}

/// Every id present is bounded by the collection's maximum id.
pub proof fn lemma_max_id_ge(ts: Seq<TaskView>)
    ensures
        forall|j: int| 0 <= j < ts.len() ==> #[trigger] ts[j].id <= spec_max_id(ts),
    decreases ts.len(),
{
    if ts.len() > 0 {
        lemma_max_id_ge(ts.drop_last());
        assert(forall|j: int| 0 <= j < ts.len() - 1 ==> ts[j] == ts.drop_last()[j]);
    }
}

/// The largest id in the collection, or zero when it is empty.
pub fn max_id(tasks: &Vec<Task>) -> (r: u32)
    ensures
        r == spec_max_id(views(tasks@)),
{
    let ghost all = views(tasks@);
    let mut m: u32 = 0;
    let mut i: usize = 0;
    assert(all.subrange(0, 0) =~= Seq::<TaskView>::empty());
    while i < tasks.len()
        invariant
            i <= tasks.len(),
            all == views(tasks@),
            m == spec_max_id(all.subrange(0, i as int)),
        decreases tasks.len() - i,
    {
        let id = tasks[i].id;
        proof {
            let pre = all.subrange(0, i as int);
            let nxt = all.subrange(0, i + 1);
            assert(nxt.drop_last() =~= pre);
            assert(nxt.last() == all[i as int]);
            assert(all[i as int].id == tasks@[i as int].id);
        }
        if id > m {
            m = id;
        }
        i = i + 1;
    }
    proof {
        assert(all.subrange(0, tasks@.len() as int) =~= all);
    }
    m
}

/// A task is overdue when it is open, has a due date, and that date is
/// strictly before the present time.
pub open spec fn spec_overdue(t: TaskView, now: DueDate) -> bool {
    match t.due_date {
        Some(d) => !t.completed && date_lt(d, now),
        None => false,
    }
}

pub fn is_overdue(t: &Task, now: &DueDate) -> (r: bool)
    ensures
        r == spec_overdue(t@, *now),
{
    match &t.due_date {
        Some(d) => !t.completed && is_before(d, now),
        None => false,
    }
}

/// Whether every task's due date, where present, names a real
/// calendar date.
pub fn check_tasks_wf(tasks: &Vec<Task>) -> (r: bool)
    ensures
        r == tasks_wf(views(tasks@)),
{
    let ghost all = views(tasks@);
    let mut i: usize = 0;
    while i < tasks.len()
        invariant
            all == views(tasks@),
            i <= tasks@.len(),
            forall|j: int| 0 <= j < i ==> task_wf(#[trigger] all[j]),
        decreases tasks@.len() - i,
    {
        let ok = match &tasks[i].due_date {
            Some(d) => crate::date::date_valid_x(d),
            None => true,
        };
        if !ok {
            proof {
                assert(!task_wf(all[i as int]));
            }
            return false;
        }
        proof {
            assert(task_wf(all[i as int]));
        }
        i = i + 1;
    }
    true
}

/// A completed task is never overdue, whatever its due date and
/// whatever the present time.
pub proof fn lemma_completed_never_overdue(t: TaskView, now: DueDate)
    requires
        t.completed,
    ensures
        !spec_overdue(t, now),
{
}

} // verus!
