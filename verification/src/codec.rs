//! The persistence format: a bracketed list of task objects in one
//! fixed textual shape, with escaped strings, and a parser that accepts
//! exactly what the renderer writes (and blank content, which means an
//! empty collection).

use vstd::prelude::*;
use crate::date::{DueDate, date_valid, render_due, spec_parse_due, append_due, lemma_due_roundtrip, parse_due};
use crate::task::{Task, TaskView, views, tasks_wf, task_wf};
use crate::text::{
    is_space, is_digit, digit_val, dec_seq, pow10, ds_val, all_digits,
    lemma_dec_seq_val, lemma_ds_val_nonneg, lemma_pow10_pos,
    is_space_x, is_digit_x, digit_val_x, push_char, append_u32,
};

verus! {

/// The error reported when persisted content is not valid task data.
#[derive(Clone, Copy, PartialEq, Eq, Structural, Debug)]
pub struct ParseError;

// ---------------------------------------------------------------------
// String escaping
// ---------------------------------------------------------------------

/// How one character is written inside a quoted string.
pub open spec fn esc_char(c: char) -> Seq<char> {
    if c == '"' { seq!['\\', '"'] }
    else if c == '\\' { seq!['\\', '\\'] }
    else if c == '\n' { seq!['\\', 'n'] }
    else if c == '\r' { seq!['\\', 'r'] }
    else if c == '\t' { seq!['\\', 't'] }
    else { seq![c] }
}

/// The escaped form of a whole text.
pub open spec fn esc(s: Seq<char>) -> Seq<char>
    decreases s.len(),
{
    if s.len() == 0 { Seq::empty() } else { esc_char(s[0]) + esc(s.drop_first()) }
}

/// What a character after a backslash stands for.
pub open spec fn unesc_char(c: char) -> Option<char> {
    if c == '"' { Some('"') }
    else if c == '\\' { Some('\\') }
    else if c == 'n' { Some('\n') }
    else if c == 'r' { Some('\r') }
    else if c == 't' { Some('\t') }
    else { None }
}

pub proof fn lemma_esc_push(s: Seq<char>, c: char)
    ensures
        esc(s.push(c)) == esc(s) + esc_char(c),
    decreases s.len(),
{
    let e = s.push(c);
    if s.len() == 0 {
        assert(e.drop_first() =~= Seq::<char>::empty());
        assert(esc(e.drop_first()) =~= Seq::<char>::empty());
        assert(esc_char(e[0]) + esc(e.drop_first()) =~= esc(s) + esc_char(c));
    } else {
        assert(e.drop_first() =~= s.drop_first().push(c));
        lemma_esc_push(s.drop_first(), c);
        assert(e[0] == s[0]);
        assert(esc_char(s[0]) + (esc(s.drop_first()) + esc_char(c))
            =~= (esc_char(s[0]) + esc(s.drop_first())) + esc_char(c));
    }
}

// ---------------------------------------------------------------------
// The fixed tokens of the format
// ---------------------------------------------------------------------

pub open spec fn lit_obj() -> Seq<char> {
    seq!['{', '"', 'i', 'd', '"', ':']
}

pub open spec fn lit_desc() -> Seq<char> {
    seq![',', '"', 'd', 'e', 's', 'c', 'r', 'i', 'p', 't', 'i', 'o', 'n', '"', ':', '"']
}

pub open spec fn lit_comp() -> Seq<char> {
    seq![',', '"', 'c', 'o', 'm', 'p', 'l', 'e', 't', 'e', 'd', '"', ':']
}

pub open spec fn lit_prio() -> Seq<char> {
    seq![',', '"', 'p', 'r', 'i', 'o', 'r', 'i', 't', 'y', '"', ':', '"']
}

pub open spec fn lit_due() -> Seq<char> {
    seq![',', '"', 'd', 'u', 'e', '_', 'd', 'a', 't', 'e', '"', ':']
}

pub open spec fn lit_null() -> Seq<char> {
    seq!['n', 'u', 'l', 'l']
}

pub open spec fn lit_true() -> Seq<char> {
    seq!['t', 'r', 'u', 'e']
}

pub open spec fn lit_false() -> Seq<char> {
    seq!['f', 'a', 'l', 's', 'e']
}

/// The string literals the renderer writes are exactly the fixed
/// tokens of the format.
pub proof fn lemma_lit_views()
    ensures
        "{\"id\":"@ == lit_obj(),
        ",\"description\":\""@ == lit_desc(),
        ",\"completed\":"@ == lit_comp(),
        ",\"priority\":\""@ == lit_prio(),
        ",\"due_date\":"@ == lit_due(),
        "null"@ == lit_null(),
        "true"@ == lit_true(),
        "false"@ == lit_false(),
{
    reveal_strlit("{\"id\":");
    reveal_strlit(",\"description\":\"");
    reveal_strlit(",\"completed\":");
    reveal_strlit(",\"priority\":\"");
    reveal_strlit(",\"due_date\":");
    reveal_strlit("null");
    reveal_strlit("true");
    reveal_strlit("false");
    assert("{\"id\":"@ =~= lit_obj());
    assert(",\"description\":\""@ =~= lit_desc());
    assert(",\"completed\":"@ =~= lit_comp());
    assert(",\"priority\":\""@ =~= lit_prio());
    assert(",\"due_date\":"@ =~= lit_due());
    assert("null"@ =~= lit_null());
    assert("true"@ =~= lit_true());
    assert("false"@ =~= lit_false());
}

// ---------------------------------------------------------------------
// Rendering
// ---------------------------------------------------------------------

pub open spec fn render_bool(b: bool) -> Seq<char> {
    if b { lit_true() } else { lit_false() }
}

pub open spec fn render_due_json(o: Option<DueDate>) -> Seq<char> {
    match o {
        None => lit_null(),
        Some(d) => seq!['"'] + render_due(d) + seq!['"'],
    }
}

/// One task object of the persisted text.
#[verifier::opaque]
pub open spec fn spec_render_task(t: TaskView) -> Seq<char> {
    lit_obj() + dec_seq(t.id as nat) + lit_desc() + esc(t.description) + seq!['"'] + lit_comp()
        + render_bool(t.completed) + lit_prio() + esc(t.priority) + seq!['"'] + lit_due()
        + render_due_json(t.due_date) + seq!['}']
}

/// The comma-separated task objects.
pub open spec fn items(ts: Seq<TaskView>) -> Seq<char>
    decreases ts.len(),
{
    if ts.len() == 0 {
        Seq::empty()
    } else {
        spec_render_task(ts[0]) + items_rest(ts.drop_first())
    }
}

pub open spec fn items_rest(ts: Seq<TaskView>) -> Seq<char>
    decreases ts.len(),
{
    if ts.len() == 0 {
        Seq::empty()
    } else {
        seq![','] + spec_render_task(ts[0]) + items_rest(ts.drop_first())
    }
}

/// The whole persisted text of a collection.
pub open spec fn spec_render(ts: Seq<TaskView>) -> Seq<char> {
    seq!['['] + items(ts) + seq![']']
}

pub proof fn lemma_items_push(ts: Seq<TaskView>, t: TaskView)
    ensures
        ts.len() == 0 ==> items(ts.push(t)) == spec_render_task(t),
        ts.len() > 0 ==> items(ts.push(t)) == items(ts) + seq![','] + spec_render_task(t),
        items_rest(ts.push(t)) == items_rest(ts) + seq![','] + spec_render_task(t),
    decreases ts.len(),
{
    let e = ts.push(t);
    if ts.len() == 0 {
        assert(e.drop_first() =~= Seq::<TaskView>::empty());
        assert(items(e) =~= spec_render_task(t));
        assert(items_rest(e) =~= items_rest(ts) + seq![','] + spec_render_task(t));
    } else {
        assert(e.drop_first() =~= ts.drop_first().push(t));
        lemma_items_push(ts.drop_first(), t);
        assert(e[0] == ts[0]);
        if ts.drop_first().len() == 0 {
            assert(items(e) =~= items(ts) + seq![','] + spec_render_task(t));
            assert(items_rest(e) =~= items_rest(ts) + seq![','] + spec_render_task(t));
        } else {
            assert(items(e) =~= items(ts) + seq![','] + spec_render_task(t));
            assert(items_rest(e) =~= items_rest(ts) + seq![','] + spec_render_task(t));
        }
    }
}

/// Appends the escaped form of a text.
pub fn append_escaped(out: &mut String, s: &str)
    ensures
        final(out)@ == old(out)@ + esc(s@),
{
    let n = s.unicode_len();
    let mut i: usize = 0;
    assert(s@.subrange(0, 0) =~= Seq::<char>::empty());
    assert(old(out)@ + esc(s@.subrange(0, 0)) =~= old(out)@);
    while i < n
        invariant
            n == s@.len(),
            i <= n,
            out@ == old(out)@ + esc(s@.subrange(0, i as int)),
        decreases n - i,
    {
        let ghost pre = s@.subrange(0, i as int);
        let c = s.get_char(i);
        if c == '"' {
            push_char(out, '\\');
            push_char(out, '"');
        } else if c == '\\' {
            push_char(out, '\\');
            push_char(out, '\\');
        } else if c == '\n' {
            push_char(out, '\\');
            push_char(out, 'n');
        } else if c == '\r' {
            push_char(out, '\\');
            push_char(out, 'r');
        } else if c == '\t' {
            push_char(out, '\\');
            push_char(out, 't');
        } else {
            push_char(out, c);
        }
        proof {
            lemma_esc_push(pre, c);
            assert(s@.subrange(0, i + 1) =~= pre.push(c));
            assert(out@ =~= old(out)@ + esc(s@.subrange(0, i + 1)));
        }
        i = i + 1;
    }
    proof {
        assert(s@.subrange(0, n as int) =~= s@);
    }
}

/// Appends one task object.
#[verifier::rlimit(100)]
pub fn append_task(out: &mut String, t: &Task)
    requires
        task_wf(t@),
    ensures
        final(out)@ == old(out)@ + spec_render_task(t@),
{
    proof {
        lemma_lit_views();
        reveal(spec_render_task);
    }
    out.append("{\"id\":");
    append_u32(out, t.id);
    out.append(",\"description\":\"");
    append_escaped(out, t.description.as_str());
    push_char(out, '"');
    out.append(",\"completed\":");
    if t.completed {
        out.append("true");
    } else {
        out.append("false");
    }
    out.append(",\"priority\":\"");
    append_escaped(out, t.priority.as_str());
    push_char(out, '"');
    out.append(",\"due_date\":");
    match &t.due_date {
        None => {
            out.append("null");
        },
        Some(d) => {
            push_char(out, '"');
            append_due(out, d);
            push_char(out, '"');
        },
    }
    push_char(out, '}');
    assert(out@ =~= old(out)@ + spec_render_task(t@));
}

/// Renders the whole collection to its persisted text.
pub fn render_tasks(tasks: &Vec<Task>) -> (out: String)
    requires
        tasks_wf(views(tasks@)),
    ensures
        out@ == spec_render(views(tasks@)),
{
    let ghost all = views(tasks@);
    let mut out = String::new();
    push_char(&mut out, '[');
    let mut i: usize = 0;
    assert(all.subrange(0, 0) =~= Seq::<TaskView>::empty());
    assert(out@ =~= seq!['['] + items(all.subrange(0, 0)));
    while i < tasks.len()
        invariant
            tasks_wf(all),
            all == views(tasks@),
            i <= tasks@.len(),
            out@ == seq!['['] + items(all.subrange(0, i as int)),
        decreases tasks@.len() - i,
    {
        let ghost pre = all.subrange(0, i as int);
        let ghost before = out@;
        if i > 0 {
            push_char(&mut out, ',');
        }
        proof {
            assert(all[i as int] == tasks@[i as int]@);
            assert(task_wf(all[i as int]));
        }
        append_task(&mut out, &tasks[i]);
        proof {
            lemma_items_push(pre, all[i as int]);
            assert(all.subrange(0, i + 1) =~= pre.push(all[i as int]));
            if i == 0 {
                assert(out@ =~= seq!['['] + items(all.subrange(0, i + 1)));
            } else {
                assert(out@ =~= seq!['['] + items(all.subrange(0, i + 1)));
            }
        }
        i = i + 1;
    }
    push_char(&mut out, ']');
    proof {
        assert(all.subrange(0, tasks@.len() as int) =~= all);
        assert(out@ =~= spec_render(all));
    }
    out
}

} // verus!

// ---------------------------------------------------------------------
// Parsing: each specification parser reads from an index and yields the
// parsed value with the index just past it, or nothing.
// ---------------------------------------------------------------------

use vstd::prelude::*;

verus! {

/// First index at or after `i` that holds no blank space.
pub open spec fn sp_ws(s: Seq<char>, i: int) -> int
    decreases s.len() - i,
{
    if 0 <= i < s.len() && is_space(s[i]) { sp_ws(s, i + 1) } else { i }
}

/// The fixed token `lit` stands at `i`.
pub open spec fn sp_lit(s: Seq<char>, i: int, lit: Seq<char>) -> Option<int> {
    if 0 <= i && i + lit.len() <= s.len() && s.subrange(i, i + lit.len()) == lit {
        Some(i + lit.len())
    } else {
        None
    }
}

/// Reads further digits onto an accumulated value; rejects values that
/// do not fit.
pub open spec fn sp_num_loop(s: Seq<char>, i: int, acc: u32) -> Option<(u32, int)>
    decreases s.len() - i,
{
    if 0 <= i < s.len() && is_digit(s[i]) {
        let v: int = acc * 10 + digit_val(s[i]);
        if v > u32::MAX { None } else { sp_num_loop(s, i + 1, v as u32) }
    } else {
        Some((acc, i))
    }
}

/// A nonempty run of digits read as a number.
pub open spec fn sp_num(s: Seq<char>, i: int) -> Option<(u32, int)> {
    if 0 <= i < s.len() && is_digit(s[i]) { sp_num_loop(s, i, 0) } else { None }
}

/// The inside of a quoted string, up to and over the closing quote.
pub open spec fn sp_str_body(s: Seq<char>, i: int) -> Option<(Seq<char>, int)>
    decreases s.len() - i,
{
    if i < 0 || i >= s.len() {
        None
    } else if s[i] == '"' {
        Some((Seq::empty(), i + 1))
    } else if s[i] == '\\' {
        if i + 1 < s.len() {
            match unesc_char(s[i + 1]) {
                Some(c) => match sp_str_body(s, i + 2) {
                    Some(p) => Some((seq![c] + p.0, p.1)),
                    None => None,
                },
                None => None,
            }
        } else {
            None
        }
    } else {
        match sp_str_body(s, i + 1) {
            Some(p) => Some((seq![s[i]] + p.0, p.1)),
            None => None,
        }
    }
}

/// A due-date field: `null`, or a quoted sixteen-character date.
pub open spec fn sp_due_opt(s: Seq<char>, i: int) -> Option<(Option<DueDate>, int)> {
    if sp_lit(s, i, lit_null()) is Some {
        Some((None, i + 4))
    } else if 0 <= i && i + 18 <= s.len() && s[i] == '"' && s[i + 17] == '"' {
        match spec_parse_due(s.subrange(i + 1, i + 17)) {
            Some(d) => Some((Some(d), i + 18)),
            None => None,
        }
    } else {
        None
    }
}

pub open spec fn sp_bool(s: Seq<char>, i: int) -> Option<(bool, int)> {
    if sp_lit(s, i, lit_true()) is Some {
        Some((true, i + 4))
    } else if sp_lit(s, i, lit_false()) is Some {
        Some((false, i + 5))
    } else {
        None
    }
}

/// One task object.
#[verifier::opaque]
pub open spec fn sp_task(s: Seq<char>, i: int) -> Option<(TaskView, int)> {
    match sp_lit(s, i, lit_obj()) {
        None => None,
        Some(i1) => match sp_num(s, i1) {
            None => None,
            Some((id, i2)) => match sp_lit(s, i2, lit_desc()) {
                None => None,
                Some(i3) => match sp_str_body(s, i3) {
                    None => None,
                    Some((description, i4)) => match sp_lit(s, i4, lit_comp()) {
                        None => None,
                        Some(i5) => match sp_bool(s, i5) {
                            None => None,
                            Some((completed, i6)) => match sp_lit(s, i6, lit_prio()) {
                                None => None,
                                Some(i7) => match sp_str_body(s, i7) {
                                    None => None,
                                    Some((priority, i8)) => match sp_lit(s, i8, lit_due()) {
                                        None => None,
                                        Some(i9) => match sp_due_opt(s, i9) {
                                            None => None,
                                            Some((due_date, i10)) => match sp_lit(s, i10, seq!['}']) {
                                                None => None,
                                                Some(i11) => Some((
                                                    TaskView {
                                                        id,
                                                        description,
                                                        completed,
                                                        priority,
                                                        due_date,
                                                    },
                                                    i11,
                                                )),
                                            },
                                        },
                                    },
                                },
                            },
                        },
                    },
                },
            },
        },
    }
}

/// After one task: either the closing bracket, or a comma and more.
pub open spec fn sp_list_rest(s: Seq<char>, i: int) -> Option<(Seq<TaskView>, int)>
    decreases s.len() - i,
{
    if 0 <= i < s.len() && s[i] == ']' {
        Some((Seq::empty(), i + 1))
    } else if 0 <= i < s.len() && s[i] == ',' {
        match sp_task(s, i + 1) {
            None => None,
            Some((t, j)) => if i < j && j <= s.len() {
                match sp_list_rest(s, j) {
                    None => None,
                    Some((ts, k)) => Some((seq![t] + ts, k)),
                }
            } else {
                None
            },
        }
    } else {
        None
    }
}

/// The inside of the bracketed list, after the opening bracket.
pub open spec fn sp_list(s: Seq<char>, i: int) -> Option<(Seq<TaskView>, int)> {
    if 0 <= i < s.len() && s[i] == ']' {
        Some((Seq::empty(), i + 1))
    } else {
        match sp_task(s, i) {
            None => None,
            Some((t, j)) => if i < j && j <= s.len() {
                match sp_list_rest(s, j) {
                    None => None,
                    Some((ts, k)) => Some((seq![t] + ts, k)),
                }
            } else {
                None
            },
        }
    }
}

/// What any persisted content means: blank content is the empty
/// collection; otherwise one bracketed task list, possibly surrounded
/// by blank space.
pub open spec fn sp_parse(s: Seq<char>) -> Option<Seq<TaskView>> {
    let i: int = sp_ws(s, 0);
    if i == s.len() {
        Some(Seq::empty())
    } else if s[i] == '[' {
        match sp_list(s, i + 1) {
            None => None,
            Some((ts, j)) => if sp_ws(s, j) == s.len() { Some(ts) } else { None },
        }
    } else {
        None
    }
}

fn skip_ws(s: &str, start: usize, n: usize) -> (r: usize)
    requires
        n == s@.len(),
        start <= n,
    ensures
        r as int == sp_ws(s@, start as int),
        start <= r <= n,
    decreases n - start,
{
    if start < n {
        let c = s.get_char(start);
        if is_space_x(c) {
            return skip_ws(s, start + 1, n);
        }
    }
    start
}

fn expect_lit(s: &str, start: usize, n: usize, lit: &str) -> (r: Option<usize>)
    requires
        n == s@.len(),
        start <= n,
    ensures
        match r {
            Some(j) => sp_lit(s@, start as int, lit@) == Some(j as int)
                && j as int == start as int + lit@.len() && j <= n,
            None => sp_lit(s@, start as int, lit@) is None,
        },
{
    let m = lit.unicode_len();
    if m > n - start {
        return None;
    }
    let mut j: usize = 0;
    while j < m
        invariant
            n == s@.len(),
            m == lit@.len(),
            start + m <= n,
            j <= m,
            s@.subrange(start as int, start as int + j as int) == lit@.subrange(0, j as int),
        decreases m - j,
    {
        let a = s.get_char(start + j);
        let b = lit.get_char(j);
        if a != b {
            proof {
                let full = s@.subrange(start as int, start as int + m as int);
                assert(full[j as int] == s@[start as int + j as int]);
                assert(full != lit@) by {
                    if full == lit@ {
                        assert(full[j as int] == lit@[j as int]);
                    }
                }
            }
            return None;
        }
        proof {
            assert(s@.subrange(start as int, start as int + j as int + 1)
                =~= s@.subrange(start as int, start as int + j as int).push(a));
            assert(lit@.subrange(0, j as int + 1) =~= lit@.subrange(0, j as int).push(b));
        }
        j = j + 1;
    }
    proof {
        assert(lit@.subrange(0, m as int) =~= lit@);
    }
    Some(start + m)
}

fn parse_num(s: &str, start: usize, n: usize) -> (r: Option<(u32, usize)>)
    requires
        n == s@.len(),
        start <= n,
    ensures
        match r {
            Some(p) => sp_num(s@, start as int) == Some((p.0, p.1 as int)) && start < p.1 <= n,
            None => sp_num(s@, start as int) is None,
        },
{
    if start >= n {
        return None;
    }
    let c0 = s.get_char(start);
    if !is_digit_x(c0) {
        return None;
    }
    let mut i: usize = start;
    let mut acc: u32 = 0;
    loop
        invariant
            n == s@.len(),
            start <= i <= n,
            start < n,
            is_digit(s@[start as int]),
            sp_num(s@, start as int) == sp_num_loop(s@, i as int, acc),
        decreases n - i,
    {
        if i >= n {
            assert(i > start);
            return Some((acc, i));
        }
        let c = s.get_char(i);
        if !is_digit_x(c) {
            assert(i != start);
            return Some((acc, i));
        }
        let d = digit_val_x(c);
        if acc > (u32::MAX - d) / 10 {
            proof {
                let m = (u32::MAX - d) as int;
                assert(m < 10 * (m / 10) + 10);
                assert(acc * 10 + d > u32::MAX);
            }
            return None;
        }
        proof {
            let m = (u32::MAX - d) as int;
            assert(10 * (m / 10) <= m);
            assert(acc * 10 + d <= u32::MAX);
        }
        acc = acc * 10 + d;
        i = i + 1;
    }
}

fn unesc_char_x(c: char) -> (r: Option<char>)
    ensures
        r == unesc_char(c),
{
    if c == '"' { Some('"') }
    else if c == '\\' { Some('\\') }
    else if c == 'n' { Some('\n') }
    else if c == 'r' { Some('\r') }
    else if c == 't' { Some('\t') }
    else { None }
}

fn parse_str_body(s: &str, start: usize, n: usize) -> (r: Option<(String, usize)>)
    requires
        n == s@.len(),
        start <= n,
    ensures
        match r {
            Some(p) => sp_str_body(s@, start as int) == Some((p.0@, p.1 as int)) && start < p.1 <= n,
            None => sp_str_body(s@, start as int) is None,
        },
{
    let mut acc = String::new();
    let mut i: usize = start;
    loop
        invariant
            n == s@.len(),
            start <= i <= n,
            sp_str_body(s@, start as int) == (match sp_str_body(s@, i as int) {
                Some(p) => Some((acc@ + p.0, p.1)),
                None => None::<(Seq<char>, int)>,
            }),
        decreases n - i,
    {
        if i >= n {
            return None;
        }
        let c = s.get_char(i);
        if c == '"' {
            proof {
                assert(acc@ + Seq::<char>::empty() =~= acc@);
            }
            return Some((acc, i + 1));
        }
        if c == '\\' {
            if i + 1 >= n {
                return None;
            }
            let e = s.get_char(i + 1);
            match unesc_char_x(e) {
                None => {
                    return None;
                },
                Some(cc) => {
                    let ghost accv = acc@;
                    push_char(&mut acc, cc);
                    proof {
                        let rr = sp_str_body(s@, i as int + 2);
                        match rr {
                            Some(p) => {
                                assert(accv + (seq![cc] + p.0) =~= acc@ + p.0);
                            },
                            None => {},
                        }
                    }
                    i = i + 2;
                },
            }
        } else {
            let ghost accv = acc@;
            push_char(&mut acc, c);
            proof {
                let rr = sp_str_body(s@, i as int + 1);
                match rr {
                    Some(p) => {
                        assert(accv + (seq![c] + p.0) =~= acc@ + p.0);
                    },
                    None => {},
                }
            }
            i = i + 1;
        }
    }
}

fn parse_bool(s: &str, start: usize, n: usize) -> (r: Option<(bool, usize)>)
    requires
        n == s@.len(),
        start <= n,
    ensures
        match r {
            Some(p) => sp_bool(s@, start as int) == Some((p.0, p.1 as int)) && start < p.1 <= n,
            None => sp_bool(s@, start as int) is None,
        },
{
    proof {
        lemma_lit_views();
    }
    match expect_lit(s, start, n, "true") {
        Some(j) => {
            return Some((true, j));
        },
        None => {},
    }
    match expect_lit(s, start, n, "false") {
        Some(j) => {
            return Some((false, j));
        },
        None => {},
    }
    None
}

fn parse_due_opt(s: &str, start: usize, n: usize) -> (r: Option<(Option<DueDate>, usize)>)
    requires
        n == s@.len(),
        start <= n,
    ensures
        match r {
            Some(p) => sp_due_opt(s@, start as int) == Some((p.0, p.1 as int)) && start < p.1 <= n,
            None => sp_due_opt(s@, start as int) is None,
        },
{
    proof {
        lemma_lit_views();
    }
    match expect_lit(s, start, n, "null") {
        Some(j) => {
            return Some((None, j));
        },
        None => {},
    }
    if start >= n {
        return None;
    }
    let c = s.get_char(start);
    if c != '"' {
        return None;
    }
    if n - start < 18 {
        return None;
    }
    let sub = s.substring_char(start + 1, start + 17);
    match parse_due(sub) {
        Err(_) => {
            return None;
        },
        Ok(d) => {
            let cq = s.get_char(start + 17);
            if cq != '"' {
                return None;
            }
            Some((Some(d), start + 18))
        },
    }
}

fn parse_task(s: &str, start: usize, n: usize) -> (r: Option<(Task, usize)>)
    requires
        n == s@.len(),
        start <= n,
    ensures
        match r {
            Some(p) => sp_task(s@, start as int) == Some((p.0@, p.1 as int)) && start < p.1 <= n,
            None => sp_task(s@, start as int) is None,
        },
{
    proof {
        lemma_lit_views();
        reveal(sp_task);
        reveal_strlit("}");
        assert("}"@ =~= seq!['}']);
    }
    let i1 = match expect_lit(s, start, n, "{\"id\":") {
        Some(j) => j,
        None => {
            return None;
        },
    };
    let (id, i2) = match parse_num(s, i1, n) {
        Some(p) => p,
        None => {
            return None;
        },
    };
    let i3 = match expect_lit(s, i2, n, ",\"description\":\"") {
        Some(j) => j,
        None => {
            return None;
        },
    };
    let (description, i4) = match parse_str_body(s, i3, n) {
        Some(p) => p,
        None => {
            return None;
        },
    };
    let i5 = match expect_lit(s, i4, n, ",\"completed\":") {
        Some(j) => j,
        None => {
            return None;
        },
    };
    let (completed, i6) = match parse_bool(s, i5, n) {
        Some(p) => p,
        None => {
            return None;
        },
    };
    let i7 = match expect_lit(s, i6, n, ",\"priority\":\"") {
        Some(j) => j,
        None => {
            return None;
        },
    };
    let (priority, i8) = match parse_str_body(s, i7, n) {
        Some(p) => p,
        None => {
            return None;
        },
    };
    let i9 = match expect_lit(s, i8, n, ",\"due_date\":") {
        Some(j) => j,
        None => {
            return None;
        },
    };
    let (due_date, i10) = match parse_due_opt(s, i9, n) {
        Some(p) => p,
        None => {
            return None;
        },
    };
    let i11 = match expect_lit(s, i10, n, "}") {
        Some(j) => j,
        None => {
            return None;
        },
    };
    let t = Task { id, description, completed, priority, due_date };
    Some((t, i11))
}

/// Parses persisted content; succeeds exactly on blank content (the
/// empty collection) and on well-formed task lists.
pub fn parse_tasks(s: &str) -> (r: Result<Vec<Task>, ParseError>)
    ensures
        match r {
            Ok(v) => sp_parse(s@) == Some(views(v@)),
            Err(_) => sp_parse(s@) is None,
        },
{
    let n = s.unicode_len();
    let i0 = skip_ws(s, 0, n);
    let mut out: Vec<Task> = Vec::new();
    if i0 == n {
        proof {
            assert(views(out@) =~= Seq::<TaskView>::empty());
        }
        return Ok(out);
    }
    let cb = s.get_char(i0);
    if cb != '[' {
        return Err(ParseError);
    }
    let ghost lstart = i0 as int + 1;
    let i: usize = i0 + 1;
    if i < n && s.get_char(i) == ']' {
        let k = skip_ws(s, i + 1, n);
        if k == n {
            proof {
                assert(views(out@) =~= Seq::<TaskView>::empty());
            }
            return Ok(out);
        } else {
            return Err(ParseError);
        }
    }
    let (t, j) = match parse_task(s, i, n) {
        Some(p) => p,
        None => {
            return Err(ParseError);
        },
    };
    let ghost first = t@;
    out.push(t);
    proof {
        assert(views(out@) =~= seq![first]);
        let rr = sp_list_rest(s@, j as int);
        match rr {
            Some(p) => {
                assert(seq![first] + p.0 =~= views(out@) + p.0);
            },
            None => {},
        }
    }
    let mut pos: usize = j;
    loop
        invariant
            n == s@.len(),
            pos <= n,
            sp_list(s@, lstart) == (match sp_list_rest(s@, pos as int) {
                Some(p) => Some((views(out@) + p.0, p.1)),
                None => None::<(Seq<TaskView>, int)>,
            }),
            sp_ws(s@, 0) == i0 as int,
            i0 < n,
            s@[i0 as int] == '[',
            lstart == i0 as int + 1,
        decreases n - pos,
    {
        if pos >= n {
            return Err(ParseError);
        }
        let c = s.get_char(pos);
        if c == ']' {
            proof {
                assert(views(out@) + Seq::<TaskView>::empty() =~= views(out@));
            }
            let k = skip_ws(s, pos + 1, n);
            if k == n {
                return Ok(out);
            } else {
                return Err(ParseError);
            }
        }
        if c != ',' {
            return Err(ParseError);
        }
        let (t2, j2) = match parse_task(s, pos + 1, n) {
            Some(p) => p,
            None => {
                return Err(ParseError);
            },
        };
        let ghost before = views(out@);
        let ghost tv2 = t2@;
        out.push(t2);
        proof {
            assert(views(out@) =~= before.push(tv2));
            let rr = sp_list_rest(s@, j2 as int);
            match rr {
                Some(p) => {
                    assert(before + (seq![tv2] + p.0) =~= views(out@) + p.0);
                },
                None => {},
            }
        }
        pos = j2;
    }
}

} // verus!

// ---------------------------------------------------------------------
// Round trip: the parser accepts exactly what the renderer wrote.
// ---------------------------------------------------------------------

verus! {

proof fn lemma_lit_rt(pre: Seq<char>, lit: Seq<char>, suf: Seq<char>)
    ensures
        sp_lit(pre + lit + suf, pre.len() as int, lit) == Some(pre.len() as int + lit.len() as int),
{
    let s = pre + lit + suf;
    assert(s.subrange(pre.len() as int, pre.len() as int + lit.len() as int) =~= lit);
}

proof fn lemma_num_loop_rt(s: Seq<char>, i: int, acc: u32, ds: Seq<char>)
    requires
        0 <= i,
        i + ds.len() <= s.len(),
        s.subrange(i, i + ds.len()) == ds,
        all_digits(ds),
        i + ds.len() < s.len() ==> !is_digit(s[i + ds.len()]),
        acc * pow10(ds.len()) + ds_val(ds) <= u32::MAX,
    ensures
        sp_num_loop(s, i, acc) == Some((((acc * pow10(ds.len()) + ds_val(ds)) as u32), i + ds.len())),
    decreases ds.len(),
{
    lemma_pow10_pos(ds.len());
    lemma_ds_val_nonneg(ds);
    if ds.len() == 0 {
        assert(pow10(0) == 1);
        assert(acc * 1 == acc);
    } else {
        let c = ds[0];
        assert(s.subrange(i, i + ds.len())[0] == s[i]);
        assert(s[i] == c);
        assert(is_digit(c));
        let k = (ds.len() - 1) as nat;
        let ds1 = ds.drop_first();
        assert(forall|x: int| 0 <= x < ds1.len() ==> ds1[x] == ds[x + 1]);
        assert(all_digits(ds1));
        let d = digit_val(c);
        let v: int = acc * 10 + d;
        lemma_ds_val_nonneg(ds1);
        lemma_pow10_pos(k);
        assert(ds_val(ds) == d * pow10(k) + ds_val(ds1));
        assert(acc * pow10(ds.len() as nat) == (acc * 10) * pow10(k)) by (nonlinear_arith)
            requires
                pow10(ds.len() as nat) == 10 * pow10(k),
        ;
        assert((acc * 10) * pow10(k) + d * pow10(k) == v * pow10(k)) by (nonlinear_arith)
            requires
                v == acc * 10 + d,
        ;
        assert(v <= v * pow10(k)) by (nonlinear_arith)
            requires
                pow10(k) >= 1,
                v >= 0,
        ;
        assert(v * pow10(k) + ds_val(ds1) <= u32::MAX);
        assert(v <= u32::MAX);
        assert(s.subrange(i + 1, i + 1 + ds1.len()) =~= ds1);
        lemma_num_loop_rt(s, i + 1, v as u32, ds1);
    }
}

proof fn lemma_num_rt(pre: Seq<char>, v: u32, suf: Seq<char>)
    requires
        suf.len() > 0 ==> !is_digit(suf[0]),
    ensures
        sp_num(pre + dec_seq(v as nat) + suf, pre.len() as int)
            == Some((v, pre.len() as int + dec_seq(v as nat).len() as int)),
{
    let ds = dec_seq(v as nat);
    lemma_dec_seq_val(v as nat);
    let s = pre + ds + suf;
    let p = pre.len() as int;
    assert(s.subrange(p, p + ds.len()) =~= ds);
    assert(s[p] == ds[0]);
    if p + ds.len() < s.len() {
        assert(s[p + ds.len()] == suf[0]);
    }
    assert(0 * pow10(ds.len()) == 0) by (nonlinear_arith);
    lemma_num_loop_rt(s, p, 0, ds);
    assert(ds_val(ds) == v as int);
}

proof fn lemma_str_rt(t: Seq<char>, pre: Seq<char>, suf: Seq<char>)
    ensures
        sp_str_body(pre + esc(t) + seq!['"'] + suf, pre.len() as int)
            == Some((t, pre.len() as int + esc(t).len() as int + 1)),
    decreases t.len(),
{
    let s = pre + esc(t) + seq!['"'] + suf;
    let p = pre.len() as int;
    if t.len() == 0 {
        assert(esc(t) =~= Seq::<char>::empty());
        assert(s[p] == '"');
        assert(Seq::<char>::empty() =~= t);
    } else {
        let c = t[0];
        let t1 = t.drop_first();
        assert(esc(t) == esc_char(c) + esc(t1));
        assert(esc_char(c).len() >= 1);
        assert(esc(t)[0] == esc_char(c)[0]);
        assert(s[p] == esc(t)[0]);
        let pre2 = pre + esc_char(c);
        assert(s =~= pre2 + esc(t1) + seq!['"'] + suf);
        lemma_str_rt(t1, pre2, suf);
        if c == '"' || c == '\\' || c == '\n' || c == '\r' || c == '\t' {
            assert(esc_char(c).len() == 2);
            assert(esc_char(c)[0] == '\\');
            assert(unesc_char(esc_char(c)[1]) == Some(c));
            assert(esc(t)[1] == esc_char(c)[1]);
            assert(s[p + 1] == esc(t)[1]);
            assert(p + 2 == pre2.len());
            assert(seq![c] + t1 =~= t);
        } else {
            assert(esc_char(c).len() == 1);
            assert(esc_char(c)[0] == c);
            assert(s[p] == c);
            assert(c != '"' && c != '\\');
            assert(p + 1 == pre2.len());
            assert(seq![s[p]] + t1 =~= t);
        }
    }
}

proof fn lemma_bool_rt(b: bool, pre: Seq<char>, suf: Seq<char>)
    ensures
        sp_bool(pre + render_bool(b) + suf, pre.len() as int)
            == Some((b, pre.len() as int + render_bool(b).len() as int)),
{
    let s = pre + render_bool(b) + suf;
    let p = pre.len() as int;
    if b {
        lemma_lit_rt(pre, lit_true(), suf);
        assert(pre + lit_true() + suf == s);
    } else {
        lemma_lit_rt(pre, lit_false(), suf);
        assert(pre + lit_false() + suf == s);
        assert(s[p] == render_bool(b)[0]);
        assert(sp_lit(s, p, lit_true()) is None) by {
            if sp_lit(s, p, lit_true()) is Some {
                assert(s.subrange(p, p + 4)[0] == s[p]);
                assert(s[p] == 't');
            }
        }
    }
}

proof fn lemma_due_json_rt(o: Option<DueDate>, pre: Seq<char>, suf: Seq<char>)
    requires
        o matches Some(d) ==> date_valid(d),
    ensures
        sp_due_opt(pre + render_due_json(o) + suf, pre.len() as int)
            == Some((o, pre.len() as int + render_due_json(o).len() as int)),
{
    let s = pre + render_due_json(o) + suf;
    let p = pre.len() as int;
    match o {
        None => {
            lemma_lit_rt(pre, lit_null(), suf);
            assert(pre + lit_null() + suf == s);
        },
        Some(d) => {
            lemma_due_roundtrip(d);
            assert(render_due_json(o).len() == 18);
            assert(s[p] == render_due_json(o)[0]);
            assert(render_due_json(o)[0] == '"');
            assert(s[p + 17] == render_due_json(o)[17]);
            assert(render_due_json(o)[17] == '"');
            assert(s.subrange(p + 1, p + 17) =~= render_due(d));
            assert(sp_lit(s, p, lit_null()) is None) by {
                if sp_lit(s, p, lit_null()) is Some {
                    assert(s.subrange(p, p + 4)[0] == s[p]);
                    assert(s[p] == 'n');
                }
            }
            assert(p + 18 <= s.len());
        },
    }
}

/// Concatenation of sequences of characters is associative.
proof fn lemma_cat3(a: Seq<char>, b: Seq<char>, c: Seq<char>)
    ensures
        (a + b) + c == a + (b + c),
{
    assert((a + b) + c =~= a + (b + c));
}

// Offsets of the fields inside one rendered task object, measured
// from the position `p` where the object starts.
spec fn toff1(t: TaskView, p: int) -> int { p + lit_obj().len() }
spec fn toff2(t: TaskView, p: int) -> int { toff1(t, p) + dec_seq(t.id as nat).len() }
spec fn toff3(t: TaskView, p: int) -> int { toff2(t, p) + lit_desc().len() }
spec fn toff4(t: TaskView, p: int) -> int { toff3(t, p) + esc(t.description).len() + 1 }
spec fn toff5(t: TaskView, p: int) -> int { toff4(t, p) + lit_comp().len() }
spec fn toff6(t: TaskView, p: int) -> int { toff5(t, p) + render_bool(t.completed).len() }
spec fn toff7(t: TaskView, p: int) -> int { toff6(t, p) + lit_prio().len() }
spec fn toff8(t: TaskView, p: int) -> int { toff7(t, p) + esc(t.priority).len() + 1 }
spec fn toff9(t: TaskView, p: int) -> int { toff8(t, p) + lit_due().len() }
spec fn toff10(t: TaskView, p: int) -> int { toff9(t, p) + render_due_json(t.due_date).len() }
spec fn toff11(t: TaskView, p: int) -> int { toff10(t, p) + 1 }

#[verifier::rlimit(100)]
proof fn lemma_task_rt_first(t: TaskView, pre: Seq<char>, suf: Seq<char>)
    ensures
        sp_lit(pre + spec_render_task(t) + suf, pre.len() as int, lit_obj())
            == Some(toff1(t, pre.len() as int)),
        sp_num(pre + spec_render_task(t) + suf, toff1(t, pre.len() as int))
            == Some((t.id, toff2(t, pre.len() as int))),
        sp_lit(pre + spec_render_task(t) + suf, toff2(t, pre.len() as int), lit_desc())
            == Some(toff3(t, pre.len() as int)),
        sp_str_body(pre + spec_render_task(t) + suf, toff3(t, pre.len() as int))
            == Some((t.description, toff4(t, pre.len() as int))),
        sp_lit(pre + spec_render_task(t) + suf, toff4(t, pre.len() as int), lit_comp())
            == Some(toff5(t, pre.len() as int)),
        sp_bool(pre + spec_render_task(t) + suf, toff5(t, pre.len() as int))
            == Some((t.completed, toff6(t, pre.len() as int))),
        (pre + spec_render_task(t) + suf)[pre.len() as int] == '{',
{
    reveal(spec_render_task);
    let q = seq!['"'];
    let s11 = seq!['}'] + suf;
    let s10 = render_due_json(t.due_date) + s11;
    let s9 = lit_due() + s10;
    let s8b = q + s9;
    let s8 = esc(t.priority) + s8b;
    let s7 = lit_prio() + s8;
    let s6 = render_bool(t.completed) + s7;
    let s5 = lit_comp() + s6;
    let s4b = q + s5;
    let s4 = esc(t.description) + s4b;
    let s3 = lit_desc() + s4;
    let s2 = dec_seq(t.id as nat) + s3;
    let s1 = lit_obj() + s2;
    let s = pre + spec_render_task(t) + suf;
    assert(s =~= pre + s1);
    assert(s1[0] == lit_obj()[0]);
    assert(s[pre.len() as int] == s1[0]);

    let a1 = pre + lit_obj();
    lemma_cat3(pre, lit_obj(), s2);
    lemma_lit_rt(pre, lit_obj(), s2);
    assert(sp_lit(s, pre.len() as int, lit_obj()) == Some(a1.len() as int));

    let a2 = a1 + dec_seq(t.id as nat);
    lemma_cat3(a1, dec_seq(t.id as nat), s3);
    assert(s3[0] == lit_desc()[0]);
    assert(!is_digit(','));
    lemma_num_rt(a1, t.id, s3);
    assert(sp_num(s, a1.len() as int) == Some((t.id, a2.len() as int)));

    let a3 = a2 + lit_desc();
    lemma_cat3(a2, lit_desc(), s4);
    lemma_lit_rt(a2, lit_desc(), s4);
    assert(sp_lit(s, a2.len() as int, lit_desc()) == Some(a3.len() as int));

    let a4 = a3 + esc(t.description) + q;
    lemma_cat3(a3, esc(t.description), s4b);
    lemma_cat3(a3 + esc(t.description), q, s5);
    lemma_str_rt(t.description, a3, s5);
    assert(sp_str_body(s, a3.len() as int) == Some((t.description, a4.len() as int)));

    let a5 = a4 + lit_comp();
    lemma_cat3(a4, lit_comp(), s6);
    lemma_lit_rt(a4, lit_comp(), s6);
    assert(sp_lit(s, a4.len() as int, lit_comp()) == Some(a5.len() as int));

    let a6 = a5 + render_bool(t.completed);
    lemma_cat3(a5, render_bool(t.completed), s7);
    lemma_bool_rt(t.completed, a5, s7);
    assert(sp_bool(s, a5.len() as int) == Some((t.completed, a6.len() as int)));
}

#[verifier::rlimit(100)]
proof fn lemma_task_rt_second(t: TaskView, pre: Seq<char>, suf: Seq<char>)
    requires
        task_wf(t),
    ensures
        sp_lit(pre + spec_render_task(t) + suf, toff6(t, pre.len() as int), lit_prio())
            == Some(toff7(t, pre.len() as int)),
        sp_str_body(pre + spec_render_task(t) + suf, toff7(t, pre.len() as int))
            == Some((t.priority, toff8(t, pre.len() as int))),
        sp_lit(pre + spec_render_task(t) + suf, toff8(t, pre.len() as int), lit_due())
            == Some(toff9(t, pre.len() as int)),
        sp_due_opt(pre + spec_render_task(t) + suf, toff9(t, pre.len() as int))
            == Some((t.due_date, toff10(t, pre.len() as int))),
        sp_lit(pre + spec_render_task(t) + suf, toff10(t, pre.len() as int), seq!['}'])
            == Some(toff11(t, pre.len() as int)),
        toff11(t, pre.len() as int) == pre.len() as int + spec_render_task(t).len() as int,
{
    reveal(spec_render_task);
    let q = seq!['"'];
    let s11 = seq!['}'] + suf;
    let s10 = render_due_json(t.due_date) + s11;
    let s9 = lit_due() + s10;
    let s8b = q + s9;
    let s8 = esc(t.priority) + s8b;
    let s7 = lit_prio() + s8;
    let s6 = render_bool(t.completed) + s7;
    let s5 = lit_comp() + s6;
    let s4b = q + s5;
    let s4 = esc(t.description) + s4b;
    let s3 = lit_desc() + s4;
    let s2 = dec_seq(t.id as nat) + s3;
    let s1 = lit_obj() + s2;
    let s = pre + spec_render_task(t) + suf;
    assert(s =~= pre + s1);

    let a6 = pre + lit_obj() + dec_seq(t.id as nat) + lit_desc() + esc(t.description) + q
        + lit_comp() + render_bool(t.completed);
    assert(a6.len() == toff6(t, pre.len() as int));
    lemma_cat3(pre, lit_obj(), s2);
    lemma_cat3(pre + lit_obj(), dec_seq(t.id as nat), s3);
    lemma_cat3(pre + lit_obj() + dec_seq(t.id as nat), lit_desc(), s4);
    lemma_cat3(pre + lit_obj() + dec_seq(t.id as nat) + lit_desc(), esc(t.description), s4b);
    lemma_cat3(pre + lit_obj() + dec_seq(t.id as nat) + lit_desc() + esc(t.description), q, s5);
    lemma_cat3(pre + lit_obj() + dec_seq(t.id as nat) + lit_desc() + esc(t.description) + q,
        lit_comp(), s6);
    lemma_cat3(pre + lit_obj() + dec_seq(t.id as nat) + lit_desc() + esc(t.description) + q
        + lit_comp(), render_bool(t.completed), s7);
    assert(s == a6 + s7);

    let a7 = a6 + lit_prio();
    lemma_cat3(a6, lit_prio(), s8);
    lemma_lit_rt(a6, lit_prio(), s8);
    assert(sp_lit(s, a6.len() as int, lit_prio()) == Some(a7.len() as int));

    let a8 = a7 + esc(t.priority) + q;
    lemma_cat3(a7, esc(t.priority), s8b);
    lemma_cat3(a7 + esc(t.priority), q, s9);
    lemma_str_rt(t.priority, a7, s9);
    assert(sp_str_body(s, a7.len() as int) == Some((t.priority, a8.len() as int)));

    let a9 = a8 + lit_due();
    lemma_cat3(a8, lit_due(), s10);
    lemma_lit_rt(a8, lit_due(), s10);
    assert(sp_lit(s, a8.len() as int, lit_due()) == Some(a9.len() as int));

    let a10 = a9 + render_due_json(t.due_date);
    lemma_cat3(a9, render_due_json(t.due_date), s11);
    lemma_due_json_rt(t.due_date, a9, s11);
    assert(sp_due_opt(s, a9.len() as int) == Some((t.due_date, a10.len() as int)));

    let a11 = a10 + seq!['}'];
    lemma_cat3(a10, seq!['}'], suf);
    lemma_lit_rt(a10, seq!['}'], suf);
    assert(sp_lit(s, a10.len() as int, seq!['}']) == Some(a11.len() as int));
    assert(a11.len() == pre.len() + spec_render_task(t).len());
}

#[verifier::rlimit(100)]
proof fn lemma_task_rt(t: TaskView, pre: Seq<char>, suf: Seq<char>)
    requires
        task_wf(t),
    ensures
        sp_task(pre + spec_render_task(t) + suf, pre.len() as int)
            == Some((t, pre.len() as int + spec_render_task(t).len() as int)),
        (pre + spec_render_task(t) + suf)[pre.len() as int] == '{',
{
    reveal(sp_task);
    lemma_task_rt_first(t, pre, suf);
    lemma_task_rt_second(t, pre, suf);
}

#[verifier::rlimit(100)]
proof fn lemma_rest_rt(ts: Seq<TaskView>, pre: Seq<char>, suf: Seq<char>)
    requires
        tasks_wf(ts),
    ensures
        sp_list_rest(pre + items_rest(ts) + seq![']'] + suf, pre.len() as int)
            == Some((ts, pre.len() as int + items_rest(ts).len() as int + 1)),
    decreases ts.len(),
{
    let s = pre + items_rest(ts) + seq![']'] + suf;
    let p = pre.len() as int;
    if ts.len() == 0 {
        assert(items_rest(ts) =~= Seq::<char>::empty());
        assert(s[p] == ']');
        assert(Seq::<TaskView>::empty() =~= ts);
    } else {
        let t0 = ts[0];
        let ts1 = ts.drop_first();
        assert(forall|j: int| 0 <= j < ts1.len() ==> ts1[j] == ts[j + 1]);
        assert(tasks_wf(ts1));
        assert(task_wf(t0));
        let u2b = seq![']'] + suf;
        let u2 = items_rest(ts1) + u2b;
        let u1 = spec_render_task(t0) + u2;
        let u0 = seq![','] + u1;
        assert(items_rest(ts) == seq![','] + spec_render_task(t0) + items_rest(ts1));
        assert(s =~= pre + u0);
        assert(s[p] == ',');
        let pre1 = pre + seq![','];
        lemma_cat3(pre, seq![','], u1);
        lemma_cat3(pre1, spec_render_task(t0), u2);
        lemma_task_rt(t0, pre1, u2);
        let pre2 = pre1 + spec_render_task(t0);
        assert(sp_task(s, p + 1) == Some((t0, pre2.len() as int)));
        lemma_cat3(pre2, items_rest(ts1), u2b);
        lemma_cat3(pre2 + items_rest(ts1), seq![']'], suf);
        lemma_rest_rt(ts1, pre2, suf);
        let k = pre2.len() as int + items_rest(ts1).len() as int + 1;
        assert(sp_list_rest(s, pre2.len() as int) == Some((ts1, k)));
        assert(seq![t0] + ts1 =~= ts);
        assert(k == p + items_rest(ts).len() + 1);
    }
}

/// Appending the empty sequence changes nothing.
proof fn lemma_cat_empty(a: Seq<char>)
    ensures
        a + Seq::<char>::empty() == a,
{
    assert(a + Seq::<char>::empty() =~= a);
}

#[verifier::rlimit(100)]
proof fn lemma_rpr_task(ts: Seq<TaskView>)
    requires
        tasks_wf(ts),
        ts.len() > 0,
    ensures
        sp_task(spec_render(ts), 1)
            == Some((ts[0], 1 + spec_render_task(ts[0]).len() as int)),
        spec_render(ts)[1] == '{',
{
    let s = spec_render(ts);
    let t0 = ts[0];
    let ts1 = ts.drop_first();
    assert(task_wf(t0));
    let pre1 = seq!['['];
    let rt0 = spec_render_task(t0);
    let ir1 = items_rest(ts1);
    assert(items(ts) == rt0 + ir1);
    let pre2 = pre1 + rt0;
    lemma_cat3(pre1, rt0, ir1);
    assert(s == (pre2 + ir1) + seq![']']);
    lemma_cat3(pre2, ir1, seq![']']);
    let u2 = ir1 + seq![']'];
    assert(s == pre1 + rt0 + u2);
    lemma_task_rt(t0, pre1, u2);
    assert(sp_task(s, 1) == Some((t0, pre2.len() as int)));
    assert(s[1] == '{');
}

#[verifier::rlimit(100)]
proof fn lemma_rpr_rest(ts: Seq<TaskView>)
    requires
        tasks_wf(ts),
        ts.len() > 0,
    ensures
        sp_list_rest(spec_render(ts), 1 + spec_render_task(ts[0]).len() as int)
            == Some((ts.drop_first(), spec_render(ts).len() as int)),
{
    let s = spec_render(ts);
    let t0 = ts[0];
    let ts1 = ts.drop_first();
    assert(forall|j: int| 0 <= j < ts1.len() ==> ts1[j] == ts[j + 1]);
    assert(tasks_wf(ts1));
    let none: Seq<char> = Seq::empty();
    let pre1 = seq!['['];
    let rt0 = spec_render_task(t0);
    let ir1 = items_rest(ts1);
    assert(items(ts) == rt0 + ir1);
    let pre2 = pre1 + rt0;
    lemma_cat3(pre1, rt0, ir1);
    assert(s == (pre2 + ir1) + seq![']']);
    lemma_cat_empty((pre2 + ir1) + seq![']']);
    lemma_rest_rt(ts1, pre2, none);
    let k = pre2.len() as int + ir1.len() as int + 1;
    assert(sp_list_rest(s, pre2.len() as int) == Some((ts1, k)));
    assert(k == s.len());
}

#[verifier::rlimit(100)]
proof fn lemma_rpr_nonempty(ts: Seq<TaskView>)
    requires
        tasks_wf(ts),
        ts.len() > 0,
    ensures
        sp_parse(spec_render(ts)) == Some(ts),
{
    let s = spec_render(ts);
    lemma_rpr_task(ts);
    lemma_rpr_rest(ts);
    let t0 = ts[0];
    let ts1 = ts.drop_first();
    let j = 1 + spec_render_task(t0).len() as int;
    assert(s[0] == '[');
    assert(!is_space('['));
    assert(sp_ws(s, 0) == 0);
    assert(s.len() > 0);
    assert(s[1] == '{');
    assert(1 < j <= s.len());
    assert(sp_list(s, 1) == Some((seq![t0] + ts1, s.len() as int)));
    assert(seq![t0] + ts1 =~= ts);
    assert(sp_ws(s, s.len() as int) == s.len());
}

/// Round trip: the persisted text of any well-formed collection parses
/// back to the same collection, in the same order — the empty
/// collection included.
pub proof fn lemma_render_parse_roundtrip(ts: Seq<TaskView>)
    requires
        tasks_wf(ts),
    ensures
        sp_parse(spec_render(ts)) == Some(ts),
{
    if ts.len() == 0 {
        let s = spec_render(ts);
        assert(s[0] == '[');
        assert(!is_space('['));
        assert(sp_ws(s, 0) == 0);
        assert(items(ts) =~= Seq::<char>::empty());
        assert(s.len() == 2);
        assert(s[1] == ']');
        assert(sp_ws(s, 2) == 2);
        assert(Seq::<TaskView>::empty() =~= ts);
    } else {
        lemma_rpr_nonempty(ts);
    }
}

proof fn lemma_ws_all(s: Seq<char>, i: int)
    requires
        0 <= i <= s.len(),
        forall|j: int| i <= j < s.len() ==> is_space(#[trigger] s[j]),
    ensures
        sp_ws(s, i) == s.len(),
    decreases s.len() - i,
{
    if i < s.len() {
        lemma_ws_all(s, i + 1);
    }
}

/// Blank persisted content — empty, or blank space alone — means the
/// empty collection, not an error.
pub proof fn lemma_blank_parses_empty(s: Seq<char>)
    requires
        forall|i: int| 0 <= i < s.len() ==> is_space(#[trigger] s[i]),
    ensures
        sp_parse(s) == Some(Seq::<TaskView>::empty()),
{
    lemma_ws_all(s, 0);
}

} // verus!
