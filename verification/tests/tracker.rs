use todo_cli::clock::render_list_now;
use todo_cli::codec::{parse_tasks, render_tasks};
use todo_cli::date::{parse_due, DueDate};
use todo_cli::handler::{add_task, apply, complete_task, delete_task, render_list, Command};
use todo_cli::task::{check_tasks_wf, is_overdue, max_id, Task};

fn plain(id: u32, description: &str, completed: bool) -> Task {
    Task {
        id,
        description: description.to_string(),
        completed,
        priority: "Medium".to_string(),
        due_date: None,
    }
}

fn same_task(a: &Task, b: &Task) -> bool {
    a.id == b.id
        && a.description == b.description
        && a.completed == b.completed
        && a.priority == b.priority
        && a.due_date == b.due_date
}

fn date(year: u32, month: u32, day: u32, hour: u32, minute: u32) -> DueDate {
    DueDate { year, month, day, hour, minute }
}

#[test]
fn add_assigns_increasing_ids() {
    let mut tasks: Vec<Task> = Vec::new();
    let a = add_task(&mut tasks, "first".to_string(), "Medium".to_string(), None);
    assert_eq!(a, 1);
    let b = add_task(&mut tasks, "second".to_string(), "High".to_string(), None);
    assert_eq!(b, 2);
    assert!(delete_task(&mut tasks, 2));
    let c = add_task(&mut tasks, "third".to_string(), "Low".to_string(), None);
    assert_eq!(c, 2);
    assert!(delete_task(&mut tasks, 1));
    let d = add_task(&mut tasks, "fourth".to_string(), "Low".to_string(), None);
    assert_eq!(d, 3);
    assert_eq!(max_id(&tasks), 3);
}

#[test]
fn round_trip_empty() {
    let tasks: Vec<Task> = Vec::new();
    let text = render_tasks(&tasks);
    assert_eq!(text, "[]");
    let back = parse_tasks(&text).unwrap();
    assert!(back.is_empty());
}

#[test]
fn round_trip_preserves_values_and_order() {
    let mut tasks: Vec<Task> = Vec::new();
    tasks.push(plain(1, "Buy milk", false));
    tasks.push(Task {
        id: 3,
        description: "say \"hi\" \\ twice\nand\tmore".to_string(),
        completed: true,
        priority: "High".to_string(),
        due_date: Some(date(2020, 1, 1, 10, 0)),
    });
    tasks.push(Task {
        id: 4,
        description: "Pay rent".to_string(),
        completed: false,
        priority: "Niedrig".to_string(),
        due_date: Some(date(2024, 2, 29, 23, 59)),
    });
    let text = render_tasks(&tasks);
    let back = parse_tasks(&text).unwrap();
    assert_eq!(back.len(), tasks.len());
    for (a, b) in tasks.iter().zip(back.iter()) {
        assert!(same_task(a, b));
    }
}

#[test]
fn render_writes_exact_text() {
    let mut tasks: Vec<Task> = Vec::new();
    tasks.push(plain(1, "Buy milk", false));
    tasks.push(Task {
        id: 2,
        description: "Pay rent".to_string(),
        completed: true,
        priority: "High".to_string(),
        due_date: Some(date(2020, 1, 1, 10, 0)),
    });
    let text = render_tasks(&tasks);
    assert_eq!(
        text,
        "[{\"id\":1,\"description\":\"Buy milk\",\"completed\":false,\"priority\":\"Medium\",\"due_date\":null},{\"id\":2,\"description\":\"Pay rent\",\"completed\":true,\"priority\":\"High\",\"due_date\":\"01.01.2020 10:00\"}]"
    );
}

#[test]
fn complete_is_idempotent() {
    let mut tasks: Vec<Task> = Vec::new();
    add_task(&mut tasks, "one".to_string(), "Medium".to_string(), None);
    assert_eq!(complete_task(&mut tasks, 1), Some(0));
    assert!(tasks[0].completed);
    assert_eq!(complete_task(&mut tasks, 1), Some(0));
    assert!(tasks[0].completed);
    assert_eq!(tasks.len(), 1);
}

#[test]
fn delete_missing_reports_not_found_and_changes_nothing() {
    let mut tasks: Vec<Task> = Vec::new();
    add_task(&mut tasks, "one".to_string(), "Medium".to_string(), None);
    add_task(&mut tasks, "two".to_string(), "Medium".to_string(), None);
    let removed = delete_task(&mut tasks, 9);
    assert!(!removed);
    assert_eq!(tasks.len(), 2);
    assert_eq!(tasks[0].description, "one");
    assert_eq!(tasks[1].description, "two");
}

#[test]
fn delete_existing_removes_exactly_that_record() {
    let mut tasks: Vec<Task> = Vec::new();
    add_task(&mut tasks, "one".to_string(), "Medium".to_string(), None);
    add_task(&mut tasks, "two".to_string(), "Medium".to_string(), None);
    add_task(&mut tasks, "three".to_string(), "Medium".to_string(), None);
    let removed = delete_task(&mut tasks, 2);
    assert!(removed);
    assert_eq!(tasks.len(), 2);
    assert_eq!(tasks[0].id, 1);
    assert_eq!(tasks[0].description, "one");
    assert_eq!(tasks[1].id, 3);
    assert_eq!(tasks[1].description, "three");
}

#[test]
fn blank_content_means_empty_collection() {
    assert!(parse_tasks("").unwrap().is_empty());
    assert!(parse_tasks("   \n\t \r\n ").unwrap().is_empty());
}

#[test]
fn blank_means_any_unicode_white_space() {
    let blank = "\u{000B}\u{000C}\u{0085}\u{00A0}\u{1680}\u{2003}\u{2028}\u{2029}\u{202F}\u{205F}\u{3000}";
    assert!(blank.trim().is_empty());
    assert!(parse_tasks(blank).unwrap().is_empty());
    let padded = "\u{00A0}\u{2028}[]\u{000B}\n";
    assert!(parse_tasks(padded).unwrap().is_empty());
}

#[test]
fn invalid_content_is_a_parse_error() {
    assert!(parse_tasks("not a task list").is_err());
    assert!(parse_tasks("[{\"id\":1}]").is_err());
    assert!(parse_tasks("[{\"id\":1,\"description\":\"x\",\"completed\":false,\"priority\":\"p\",\"due_date\":null}").is_err());
}

#[test]
fn parse_due_accepts_the_fixed_format() {
    let d = parse_due("01.01.2020 10:00").unwrap();
    assert_eq!(d, date(2020, 1, 1, 10, 0));
    let leap = parse_due("29.02.2020 00:00").unwrap();
    assert_eq!(leap, date(2020, 2, 29, 0, 0));
}

#[test]
fn parse_due_rejects_other_shapes() {
    assert!(parse_due("2020-01-01 10:00").is_err());
    assert!(parse_due("1.1.2020 10:00").is_err());
    assert!(parse_due("31.02.2021 10:00").is_err());
    assert!(parse_due("29.02.2021 10:00").is_err());
    assert!(parse_due("01.13.2020 10:00").is_err());
    assert!(parse_due("01.01.2020 24:00").is_err());
    assert!(parse_due("01.01.2020 10:60").is_err());
    assert!(parse_due("01.01.2020  10:00").is_err());
    assert!(parse_due("").is_err());
}

#[test]
fn overdue_needs_open_task_and_past_due_date() {
    let now = date(2026, 10, 11, 12, 0);
    let mut t = Task {
        id: 1,
        description: "x".to_string(),
        completed: false,
        priority: "Medium".to_string(),
        due_date: Some(date(2020, 1, 1, 10, 0)),
    };
    assert!(is_overdue(&t, &now));
    t.completed = true;
    assert!(!is_overdue(&t, &now));
    t.completed = false;
    t.due_date = None;
    assert!(!is_overdue(&t, &now));
    t.due_date = Some(date(2027, 1, 1, 10, 0));
    assert!(!is_overdue(&t, &now));
    t.due_date = Some(now);
    assert!(!is_overdue(&t, &now));
}

#[test]
fn lifecycle_scenario() {
    let now = date(2026, 10, 11, 12, 0);
    let mut tasks = parse_tasks("").unwrap();
    assert!(check_tasks_wf(&tasks));

    let (out, changed) = apply(
        Command::Add {
            description: "Buy milk".to_string(),
            priority: "Medium".to_string(),
            due: None,
        },
        &mut tasks,
        &now,
    );
    assert!(changed);
    assert_eq!(out, "Aufgabe hinzugefügt: [1] Buy milk\n");

    let (out, changed) = apply(Command::List, &mut tasks, &now);
    assert!(!changed);
    assert_eq!(
        out,
        "[1] Buy milk - Status: [Open] Priorität: [Medium] - Fällig am: Kein Fälligkeitsdatum\n"
    );

    let (out, changed) = apply(Command::Complete { id: 1 }, &mut tasks, &now);
    assert!(changed);
    assert_eq!(out, "Aufgabe als erledigt markiert: [1] Buy milk\n");

    let (out, _) = apply(Command::List, &mut tasks, &now);
    assert_eq!(
        out,
        "[1] Buy milk - Status: [Completed] Priorität: [Medium] - Fällig am: Kein Fälligkeitsdatum\n"
    );

    let (out, changed) = apply(Command::Delete { id: 1 }, &mut tasks, &now);
    assert!(changed);
    assert_eq!(out, "Aufgabe gelöscht: ID 1\n");

    let (out, changed) = apply(Command::List, &mut tasks, &now);
    assert!(!changed);
    assert_eq!(out, "Keine Aufgaben vorhanden.\n");
}

#[test]
fn overdue_scenario() {
    let now = date(2026, 10, 11, 12, 0);
    let mut tasks: Vec<Task> = Vec::new();
    let (out, changed) = apply(
        Command::Add {
            description: "Pay rent".to_string(),
            priority: "Medium".to_string(),
            due: Some("01.01.2020 10:00".to_string()),
        },
        &mut tasks,
        &now,
    );
    assert!(changed);
    assert_eq!(out, "Aufgabe hinzugefügt: [1] Pay rent\n");

    let (out, _) = apply(Command::List, &mut tasks, &now);
    assert_eq!(
        out,
        "[1] Pay rent - Status: [Open] Priorität: [Medium] - Fällig am: 01.01.2020 10:00 (OVERDUE)\n"
    );

    apply(Command::Complete { id: 1 }, &mut tasks, &now);
    let (out, _) = apply(Command::List, &mut tasks, &now);
    assert_eq!(
        out,
        "[1] Pay rent - Status: [Completed] Priorität: [Medium] - Fällig am: 01-01-2020\n"
    );
}

#[test]
fn bad_due_date_aborts_the_add_without_change() {
    let now = date(2026, 10, 11, 12, 0);
    let mut tasks: Vec<Task> = Vec::new();
    add_task(&mut tasks, "kept".to_string(), "Medium".to_string(), None);
    let (out, changed) = apply(
        Command::Add {
            description: "broken".to_string(),
            priority: "Medium".to_string(),
            due: Some("tomorrow".to_string()),
        },
        &mut tasks,
        &now,
    );
    assert!(!changed);
    assert_eq!(
        out,
        "Ungültiges Datumsformat. Bitte das Datum im Format DD.MM.YYYY HH:MM angeben.\n"
    );
    assert_eq!(tasks.len(), 1);
    assert_eq!(tasks[0].description, "kept");
}

#[test]
fn missing_id_is_reported_not_failed() {
    let now = date(2026, 10, 11, 12, 0);
    let mut tasks: Vec<Task> = Vec::new();
    let (out, changed) = apply(Command::Complete { id: 5 }, &mut tasks, &now);
    assert!(!changed);
    assert_eq!(out, "Keine Aufgabe mit ID 5 gefunden.\n");
    let (out, changed) = apply(Command::Delete { id: 5 }, &mut tasks, &now);
    assert!(!changed);
    assert_eq!(out, "Keine Aufgabe mit ID 5 gefunden.\n");
}

#[test]
fn list_against_the_clock_runs() {
    let mut tasks: Vec<Task> = Vec::new();
    add_task(&mut tasks, "one".to_string(), "Medium".to_string(), None);
    let out = render_list_now(&tasks);
    assert!(out.contains("[1] one"));
    let sorted = render_list(&tasks, &date(2026, 1, 1, 0, 0));
    assert!(sorted.contains("one"));
}

#[test]
fn due_dates_survive_the_round_trip_through_text() {
    let mut tasks: Vec<Task> = Vec::new();
    add_task(
        &mut tasks,
        "with date".to_string(),
        "Medium".to_string(),
        Some(parse_due("31.12.9999 23:59").unwrap()),
    );
    let text = render_tasks(&tasks);
    let back = parse_tasks(&text).unwrap();
    assert_eq!(back[0].due_date, Some(date(9999, 12, 31, 23, 59)));
}
