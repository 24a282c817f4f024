//! The four operations of the tracker — add, list, complete, delete —
//! and the exact output each one produces.

use vstd::prelude::*;
use crate::date::{DueDate, spec_parse_due, parse_due, date_valid, render_due, render_due_short, append_due, append_due_short};
use crate::task::{Task, TaskView, views, tasks_wf, task_wf, spec_max_id, lemma_max_id_ge, max_id, spec_overdue, is_overdue};
use crate::text::{dec_seq, append_u32, push_char};

verus! {

/// One parsed command-line command.
pub enum Command {
    Add { description: String, priority: String, due: Option<String> },
    List,
    Complete { id: u32 },
    Delete { id: u32 },
}

/// Some task in the collection carries this id.
pub open spec fn has_id(ts: Seq<TaskView>, id: u32) -> bool {
    exists|i: int| 0 <= i < ts.len() && #[trigger] ts[i].id == id
}

/// Index of the first task carrying `id`, or `-1` when there is none.
pub open spec fn first_match(ts: Seq<TaskView>, id: u32) -> int
    decreases ts.len(),
{
    if ts.len() == 0 {
        -1
    } else if ts[0].id == id {
        0
    } else {
        let r: int = first_match(ts.drop_first(), id);
        if r < 0 { -1 } else { r + 1 }
    }
}

pub open spec fn mark_completed(t: TaskView) -> TaskView {
    TaskView {
        id: t.id,
        description: t.description,
        completed: true,
        priority: t.priority,
        due_date: t.due_date,
    }
}

/// What completing an id does: the first task carrying the id becomes
/// completed, everything else is untouched; a miss changes nothing.
pub open spec fn spec_complete(ts: Seq<TaskView>, id: u32) -> Seq<TaskView> {
    if has_id(ts, id) {
        ts.update(first_match(ts, id), mark_completed(ts[first_match(ts, id)]))
    } else {
        ts
    }
}

/// What deleting an id does: every task carrying the id disappears,
/// and the rest keep their order.
pub open spec fn spec_delete(ts: Seq<TaskView>, id: u32) -> Seq<TaskView>
    decreases ts.len(),
{
    if ts.len() == 0 {
        Seq::empty()
    } else {
        let rest: Seq<TaskView> = spec_delete(ts.drop_last(), id);
        if ts.last().id == id { rest } else { rest.push(ts.last()) }
    }
}

pub proof fn lemma_first_match(ts: Seq<TaskView>, id: u32)
    ensures
        has_id(ts, id) ==> {
            &&& 0 <= first_match(ts, id) < ts.len()
            &&& ts[first_match(ts, id)].id == id
            &&& forall|j: int| 0 <= j < first_match(ts, id) ==> #[trigger] ts[j].id != id
        },
        !has_id(ts, id) ==> first_match(ts, id) == -1,
    decreases ts.len(),
{
    if ts.len() > 0 && ts[0].id != id {
        let rest = ts.drop_first();
        lemma_first_match(rest, id);
        assert(forall|j: int| 0 <= j < rest.len() ==> rest[j] == ts[j + 1]);
        if has_id(ts, id) {
            let i = choose|i: int| 0 <= i < ts.len() && ts[i].id == id;
            assert(rest[i - 1].id == id);
            assert(has_id(rest, id));
        }
        if has_id(rest, id) {
            let i = choose|i: int| 0 <= i < rest.len() && rest[i].id == id;
            assert(ts[i + 1].id == id);
            assert(has_id(ts, id));
        }
        if has_id(ts, id) {
            let k = first_match(rest, id);
            assert(first_match(ts, id) == k + 1);
            assert(ts[k + 1] == rest[k]);
            assert forall|j: int| 0 <= j < k + 1 implies #[trigger] ts[j].id != id by {
                if j >= 1 {
                    assert(rest[j - 1] == ts[j]);
                    assert(rest[j - 1].id != id);
                }
            }
        }
    }
}

/// The first match is wherever the first matching index is.
pub proof fn lemma_first_match_at(ts: Seq<TaskView>, id: u32, k: int)
    requires
        0 <= k < ts.len(),
        ts[k].id == id,
        forall|j: int| 0 <= j < k ==> #[trigger] ts[j].id != id,
    ensures
        first_match(ts, id) == k,
    decreases k,
{
    if k > 0 {
        let rest = ts.drop_first();
        assert(forall|j: int| 0 <= j < rest.len() ==> rest[j] == ts[j + 1]);
        lemma_first_match_at(rest, id, k - 1);
    }
}

/// Deleting an id nobody carries changes nothing.
pub proof fn lemma_delete_missing(ts: Seq<TaskView>, id: u32)
    requires
        !has_id(ts, id),
    ensures
        spec_delete(ts, id) == ts,
    decreases ts.len(),
{
    if ts.len() > 0 {
        let pre = ts.drop_last();
        assert(forall|j: int| 0 <= j < pre.len() ==> pre[j] == ts[j]);
        assert(!has_id(pre, id)) by {
            if has_id(pre, id) {
                let i = choose|i: int| 0 <= i < pre.len() && pre[i].id == id;
                assert(ts[i].id == id);
            }
        }
        lemma_delete_missing(pre, id);
        assert(ts.last().id != id) by {
            if ts.last().id == id {
                assert(ts[ts.len() - 1].id == id);
            }
        }
        assert(pre.push(ts.last()) =~= ts);
    }
}

/// Deleting shrinks the collection exactly when the id is present.
pub proof fn lemma_delete_len(ts: Seq<TaskView>, id: u32)
    ensures
        spec_delete(ts, id).len() <= ts.len(),
        has_id(ts, id) <==> spec_delete(ts, id).len() < ts.len(),
    decreases ts.len(),
{
    if ts.len() > 0 {
        let pre = ts.drop_last();
        lemma_delete_len(pre, id);
        assert(forall|j: int| 0 <= j < pre.len() ==> pre[j] == ts[j]);
        if has_id(pre, id) {
            let i = choose|i: int| 0 <= i < pre.len() && pre[i].id == id;
            assert(ts[i].id == id);
            assert(has_id(ts, id));
        }
        if ts.last().id == id {
            assert(ts[ts.len() - 1].id == id);
            assert(has_id(ts, id));
        }
        if has_id(ts, id) && ts.last().id != id {
            let i = choose|i: int| 0 <= i < ts.len() && ts[i].id == id;
            assert(pre[i].id == id);
            assert(has_id(pre, id));
        }
    }
}

/// Deleting keeps every remaining task well formed.
pub proof fn lemma_delete_wf(ts: Seq<TaskView>, id: u32)
    requires
        tasks_wf(ts),
    ensures
        tasks_wf(spec_delete(ts, id)),
    decreases ts.len(),
{
    if ts.len() > 0 {
        let pre = ts.drop_last();
        assert(forall|j: int| 0 <= j < pre.len() ==> pre[j] == ts[j]);
        lemma_delete_wf(pre, id);
        let out = spec_delete(ts, id);
        if ts.last().id != id {
            assert(forall|j: int| 0 <= j < out.len() ==> task_wf(#[trigger] out[j])) by {
                assert(task_wf(ts.last()));
                assert(forall|j: int| 0 <= j < out.len() - 1 ==>
                    out[j] == spec_delete(pre, id)[j]);
            }
        }
    }
}

/// Completing the same id twice is the same as completing it once.
pub proof fn lemma_complete_idempotent(ts: Seq<TaskView>, id: u32)
    ensures
        spec_complete(spec_complete(ts, id), id) == spec_complete(ts, id),
{
    if has_id(ts, id) {
        lemma_first_match(ts, id);
        let k = first_match(ts, id);
        let ts2 = ts.update(k, mark_completed(ts[k]));
        assert(ts2[k].id == id);
        assert(has_id(ts2, id));
        assert(forall|j: int| 0 <= j < k ==> #[trigger] ts2[j].id != id);
        lemma_first_match_at(ts2, id, k);
        assert(ts2.update(k, mark_completed(ts2[k])) =~= ts2);
    }
}

/// The id an add assigns is one past the prior maximum, strictly above
/// every id already present, and becomes the new maximum: across any
/// run of adds the assigned ids strictly increase.
pub proof fn lemma_add_id_increasing(ts: Seq<TaskView>, t: TaskView)
    requires
        t.id == spec_max_id(ts) + 1,
    ensures
        forall|j: int| 0 <= j < ts.len() ==> #[trigger] ts[j].id < t.id,
        spec_max_id(ts.push(t)) == t.id,
{
    lemma_max_id_ge(ts);
    assert(ts.push(t).drop_last() =~= ts);
}

/// Appends a task with the next free id and the given fields.
pub fn add_task(tasks: &mut Vec<Task>, description: String, priority: String, due: Option<DueDate>) -> (id: u32)
    requires
        spec_max_id(views(old(tasks)@)) < u32::MAX,
    ensures
        id == spec_max_id(views(old(tasks)@)) + 1,
        views(final(tasks)@) == views(old(tasks)@).push((TaskView {
            id,
            description: description@,
            completed: false,
            priority: priority@,
            due_date: due,
        })),
{
    let ghost all = views(old(tasks)@);
    let id = max_id(tasks) + 1;
    let t = Task { id, description, priority, completed: false, due_date: due };
    let ghost tv = t@;
    tasks.push(t);
    proof {
        assert(views(tasks@) =~= all.push(tv));
    }
    id
}

/// Marks the first task carrying `id` as completed; reports the index
/// of the task it completed, or nothing on a miss.
pub fn complete_task(tasks: &mut Vec<Task>, id: u32) -> (r: Option<usize>)
    ensures
        views(final(tasks)@) == spec_complete(views(old(tasks)@), id),
        final(tasks)@.len() == old(tasks)@.len(),
        match r {
            Some(k) => has_id(views(old(tasks)@), id) && k == first_match(views(old(tasks)@), id),
            None => !has_id(views(old(tasks)@), id),
        },
{
    let ghost all = views(old(tasks)@);
    let mut k: usize = 0;
    while k < tasks.len()
        invariant
            tasks@ == old(tasks)@,
            all == views(tasks@),
            k <= tasks@.len(),
            forall|j: int| 0 <= j < k ==> #[trigger] all[j].id != id,
        decreases tasks@.len() - k,
    {
        if tasks[k].id == id {
            proof {
                assert(all[k as int].id == id);
                assert(has_id(all, id));
                lemma_first_match_at(all, id, k as int);
            }
            let t = tasks.remove(k);
            let t2 = Task {
                id: t.id,
                description: t.description,
                completed: true,
                priority: t.priority,
                due_date: t.due_date,
            };
            tasks.insert(k, t2);
            proof {
                let mid = old(tasks)@.remove(k as int);
                old(tasks)@.remove_ensures(k as int);
                mid.insert_ensures(k as int, t2);
                assert(views(tasks@) =~= all.update(k as int, mark_completed(all[k as int])));
            }
            return Some(k);
        }
        k = k + 1;
    }
    proof {
        assert(!has_id(all, id)) by {
            if has_id(all, id) {
                let i = choose|i: int| 0 <= i < all.len() && all[i].id == id;
            }
        }
    }
    None
}

/// Removes every task carrying `id`; reports whether any was removed.
pub fn delete_task(tasks: &mut Vec<Task>, id: u32) -> (removed: bool)
    ensures
        views(final(tasks)@) == spec_delete(views(old(tasks)@), id),
        removed == has_id(views(old(tasks)@), id),
{
    let ghost all = views(old(tasks)@);
    let n = tasks.len();
    let mut out: Vec<Task> = Vec::new();
    assert(views(out@) =~= Seq::<TaskView>::empty());
    assert(all.subrange(0, 0) =~= Seq::<TaskView>::empty());
    let mut p: usize = 0;
    while p < n
        invariant
            n == old(tasks)@.len(),
            all == views(old(tasks)@),
            p <= n,
            tasks@ =~= old(tasks)@.subrange(p as int, n as int),
            views(out@) == spec_delete(all.subrange(0, p as int), id),
        decreases n - p,
    {
        let t = tasks.remove(0);
        proof {
            assert(old(tasks)@.subrange(p as int, n as int).remove(0)
                =~= old(tasks)@.subrange(p + 1, n as int));
            let pre = all.subrange(0, p as int);
            let nxt = all.subrange(0, p + 1);
            assert(nxt.drop_last() =~= pre);
            assert(nxt.last() == all[p as int]);
            assert(t@ == all[p as int]);
        }
        if t.id == id {
            proof {
                assert(views(out@) == spec_delete(all.subrange(0, p + 1), id));
            }
        } else {
            let ghost before = views(out@);
            out.push(t);
            proof {
                assert(views(out@) =~= before.push(t@));
            }
        }
        p = p + 1;
    }
    proof {
        assert(all.subrange(0, n as int) =~= all);
        assert(tasks@.len() == 0);
    }
    tasks.append(&mut out);
    proof {
        assert(views(tasks@) =~= spec_delete(all, id));
        lemma_delete_len(all, id);
    }
    tasks.len() < n
}

pub open spec fn status_str(completed: bool) -> Seq<char> {
    if completed { "Completed"@ } else { "Open"@ }
}

/// The due-date field of a listed task: absent dates say so, overdue
/// dates show date and time with a mark, other dates show the date
/// alone. The asymmetry between the two date forms is deliberate.
pub open spec fn render_due_field(t: TaskView, now: DueDate) -> Seq<char> {
    match t.due_date {
        None => "Kein Fälligkeitsdatum"@,
        Some(d) => if spec_overdue(t, now) {
            render_due(d) + " (OVERDUE)"@
        } else {
            render_due_short(d)
        },
    }
}

/// One line of the listing.
pub open spec fn render_line(t: TaskView, now: DueDate) -> Seq<char> {
    "["@ + dec_seq(t.id as nat) + "] "@ + t.description + " - Status: ["@
        + status_str(t.completed) + "] Priorität: ["@ + t.priority + "] - Fällig am: "@
        + render_due_field(t, now) + seq!['\n']
}

pub open spec fn spec_render_list(ts: Seq<TaskView>, now: DueDate) -> Seq<char>
    decreases ts.len(),
{
    if ts.len() == 0 {
        Seq::empty()
    } else {
        spec_render_list(ts.drop_last(), now) + render_line(ts.last(), now)
    }
}

/// The whole output of the list operation.
pub open spec fn spec_list_output(ts: Seq<TaskView>, now: DueDate) -> Seq<char> {
    if ts.len() == 0 { "Keine Aufgaben vorhanden.\n"@ } else { spec_render_list(ts, now) }
}

pub open spec fn msg_added(id: u32, desc: Seq<char>) -> Seq<char> {
    "Aufgabe hinzugefügt: ["@ + dec_seq(id as nat) + "] "@ + desc + seq!['\n']
}

pub open spec fn msg_bad_due() -> Seq<char> {
    "Ungültiges Datumsformat. Bitte das Datum im Format DD.MM.YYYY HH:MM angeben.\n"@
}

pub open spec fn msg_completed(id: u32, desc: Seq<char>) -> Seq<char> {
    "Aufgabe als erledigt markiert: ["@ + dec_seq(id as nat) + "] "@ + desc + seq!['\n']
}

pub open spec fn msg_not_found(id: u32) -> Seq<char> {
    "Keine Aufgabe mit ID "@ + dec_seq(id as nat) + " gefunden.\n"@
}

pub open spec fn msg_deleted(id: u32) -> Seq<char> {
    "Aufgabe gelöscht: ID "@ + dec_seq(id as nat) + seq!['\n']
}

/// Renders the listing: one line per task in insertion order, or a
/// fixed message when there are no tasks.
#[verifier::rlimit(100)]
pub fn render_list(tasks: &Vec<Task>, now: &DueDate) -> (out: String)
    requires
        tasks_wf(views(tasks@)),
    ensures
        out@ == spec_list_output(views(tasks@), *now),
{
    let ghost all = views(tasks@);
    if tasks.len() == 0 {
        let mut out = String::new();
        out.append("Keine Aufgaben vorhanden.\n");
        assert(out@ =~= spec_list_output(all, *now));
        return out;
    }
    let mut out = String::new();
    let mut i: usize = 0;
    assert(all.subrange(0, 0) =~= Seq::<TaskView>::empty());
    assert(out@ =~= spec_render_list(all.subrange(0, 0), *now));
    while i < tasks.len()
        invariant
            tasks_wf(all),
            all == views(tasks@),
            i <= tasks@.len(),
            out@ == spec_render_list(all.subrange(0, i as int), *now),
        decreases tasks@.len() - i,
    {
        let ghost before = out@;
        let t = &tasks[i];
        proof {
            assert(all[i as int] == t@);
            assert(task_wf(all[i as int]));
        }
        out.append("[");
        append_u32(&mut out, t.id);
        out.append("] ");
        out.append(t.description.as_str());
        out.append(" - Status: [");
        if t.completed {
            out.append("Completed");
        } else {
            out.append("Open");
        }
        out.append("] Priorität: [");
        out.append(t.priority.as_str());
        out.append("] - Fällig am: ");
        match &t.due_date {
            None => {
                out.append("Kein Fälligkeitsdatum");
            },
            Some(d) => {
                if is_overdue(t, now) {
                    append_due(&mut out, d);
                    out.append(" (OVERDUE)");
                } else {
                    append_due_short(&mut out, d);
                }
            },
        }
        push_char(&mut out, '\n');
        proof {
            assert(out@ =~= before + render_line(all[i as int], *now));
            let pre = all.subrange(0, i as int);
            let nxt = all.subrange(0, i + 1);
            assert(nxt.drop_last() =~= pre);
            assert(nxt.last() == all[i as int]);
        }
        i = i + 1;
    }
    proof {
        assert(all.subrange(0, tasks@.len() as int) =~= all);
    }
    out
}

/// The task the add operation appends.
pub open spec fn spec_new_task(ts: Seq<TaskView>, description: Seq<char>, priority: Seq<char>, due: Option<DueDate>) -> TaskView {
    TaskView {
        id: (spec_max_id(ts) + 1) as u32,
        description,
        completed: false,
        priority,
        due_date: due,
    }
}

/// The collection each command leaves behind.
pub open spec fn spec_apply_tasks(cmd: Command, ts: Seq<TaskView>) -> Seq<TaskView> {
    match cmd {
        Command::Add { description, priority, due } => match due {
            None => ts.push(spec_new_task(ts, description@, priority@, None)),
            Some(s) => match spec_parse_due(s@) {
                Some(d) => ts.push(spec_new_task(ts, description@, priority@, Some(d))),
                None => ts,
            },
        },
        Command::List => ts,
        Command::Complete { id } => spec_complete(ts, id),
        Command::Delete { id } => spec_delete(ts, id),
    }
}

/// The output each command prints.
pub open spec fn spec_apply_output(cmd: Command, ts: Seq<TaskView>, now: DueDate) -> Seq<char> {
    match cmd {
        Command::Add { description, priority, due } => match due {
            None => msg_added((spec_max_id(ts) + 1) as u32, description@),
            Some(s) => match spec_parse_due(s@) {
                Some(_) => msg_added((spec_max_id(ts) + 1) as u32, description@),
                None => msg_bad_due(),
            },
        },
        Command::List => spec_list_output(ts, now),
        Command::Complete { id } => if has_id(ts, id) {
            msg_completed(id, ts[first_match(ts, id)].description)
        } else {
            msg_not_found(id)
        },
        Command::Delete { id } => if has_id(ts, id) {
            msg_deleted(id)
        } else {
            msg_not_found(id)
        },
    }
}

/// Whether the command changed the collection, so that it must be
/// persisted again.
pub open spec fn spec_apply_changed(cmd: Command, ts: Seq<TaskView>) -> bool {
    match cmd {
        Command::Add { description: _, priority: _, due } => match due {
            None => true,
            Some(s) => spec_parse_due(s@) is Some,
        },
        Command::List => false,
        Command::Complete { id } => has_id(ts, id),
        Command::Delete { id } => has_id(ts, id),
    }
}

/// Interprets one command against the collection: returns the text to
/// print and whether the collection changed and must be saved.
pub fn apply(cmd: Command, tasks: &mut Vec<Task>, now: &DueDate) -> (r: (String, bool))
    requires
        tasks_wf(views(old(tasks)@)),
        cmd matches Command::Add { .. } ==> spec_max_id(views(old(tasks)@)) < u32::MAX,
    ensures
        views(final(tasks)@) == spec_apply_tasks(cmd, views(old(tasks)@)),
        tasks_wf(views(final(tasks)@)),
        r.0@ == spec_apply_output(cmd, views(old(tasks)@), *now),
        r.1 == spec_apply_changed(cmd, views(old(tasks)@)),
{
    let ghost all = views(old(tasks)@);
    match cmd {
        Command::Add { description, priority, due } => {
            let ghost dv = description@;
            let parsed: Option<DueDate> = match due {
                None => None,
                Some(s) => match parse_due(s.as_str()) {
                    Ok(d) => Some(d),
                    Err(_) => {
                        let mut out = String::new();
                        out.append(
                            "Ungültiges Datumsformat. Bitte das Datum im Format DD.MM.YYYY HH:MM angeben.\n",
                        );
                        assert(out@ =~= msg_bad_due());
                        return (out, false);
                    },
                },
            };
            let id = add_task(tasks, description, priority, parsed);
            proof {
                let nt = views(tasks@).last();
                assert(match parsed {
                    Some(d) => date_valid(d),
                    None => true,
                });
                assert(task_wf(nt));
                assert(forall|j: int| 0 <= j < all.len() ==> views(tasks@)[j] == all[j]);
                assert(tasks_wf(views(tasks@)));
            }
            let mut out = String::new();
            out.append("Aufgabe hinzugefügt: [");
            append_u32(&mut out, id);
            out.append("] ");
            out.append(tasks[tasks.len() - 1].description.as_str());
            push_char(&mut out, '\n');
            proof {
                assert(views(tasks@).last().description == dv);
                assert(out@ =~= msg_added(id, dv));
            }
            (out, true)
        },
        Command::List => {
            let out = render_list(tasks, now);
            (out, false)
        },
        Command::Complete { id } => {
            let r = complete_task(tasks, id);
            proof {
                lemma_first_match(all, id);
            }
            match r {
                Some(k) => {
                    proof {
                        assert(views(tasks@) == all.update(k as int, mark_completed(all[k as int])));
                        assert(forall|j: int| 0 <= j < all.len() && j != k ==>
                            views(tasks@)[j] == all[j]);
                        assert(task_wf(views(tasks@)[k as int]));
                        assert(tasks_wf(views(tasks@)));
                    }
                    let mut out = String::new();
                    out.append("Aufgabe als erledigt markiert: [");
                    append_u32(&mut out, id);
                    out.append("] ");
                    out.append(tasks[k].description.as_str());
                    push_char(&mut out, '\n');
                    proof {
                        assert(views(tasks@)[k as int].description == all[k as int].description);
                        assert(out@ =~= msg_completed(id, all[first_match(all, id)].description));
                    }
                    (out, true)
                },
                None => {
                    let mut out = String::new();
                    out.append("Keine Aufgabe mit ID ");
                    append_u32(&mut out, id);
                    out.append(" gefunden.\n");
                    assert(out@ =~= msg_not_found(id));
                    (out, false)
                },
            }
        },
        Command::Delete { id } => {
            let removed = delete_task(tasks, id);
            proof {
                lemma_delete_wf(all, id);
            }
            if removed {
                let mut out = String::new();
                out.append("Aufgabe gelöscht: ID ");
                append_u32(&mut out, id);
                push_char(&mut out, '\n');
                assert(out@ =~= msg_deleted(id));
                (out, true)
            } else {
                let mut out = String::new();
                out.append("Keine Aufgabe mit ID ");
                append_u32(&mut out, id);
                out.append(" gefunden.\n");
                assert(out@ =~= msg_not_found(id));
                (out, false)
            }
        },
    }
}

} // verus!
