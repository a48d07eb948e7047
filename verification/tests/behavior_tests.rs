use todolist::date::{format_date, parse, DateTime, ParseError};
use todolist::predicate::{evaluate_predicate, matches_input};
use todolist::service::TodoListService;
use todolist::task::Task;

fn date(year: u16, month: u8, day: u8, hour: u8, minute: u8) -> DateTime {
    DateTime { year, month, day, hour, minute }
}

fn task_with(name: &str, description: &str, d: DateTime, category: &str, status: bool) -> Task {
    Task {
        name: name.to_string(),
        description: description.to_string(),
        date: d,
        category: category.to_string(),
        status,
    }
}

fn sample_task() -> Task {
    task_with("Task", "write the report", date(2021, 6, 15, 9, 30), "work", false)
}

#[test]
fn parse_day_first() {
    assert_eq!(parse("1-1-2021 12:00"), Ok(date(2021, 1, 1, 12, 0)));
    assert_eq!(parse("31-12-1999 23:59"), Ok(date(1999, 12, 31, 23, 59)));
}

#[test]
fn parse_year_first() {
    assert_eq!(parse("2021-06-01 00:00"), Ok(date(2021, 6, 1, 0, 0)));
    assert_eq!(parse("2021-6-1 7:5"), Ok(date(2021, 6, 1, 7, 5)));
}

#[test]
fn parse_strips_quotes() {
    assert_eq!(parse("'2021-06-01 00:00'"), Ok(date(2021, 6, 1, 0, 0)));
    assert_eq!(parse("\"1-1-2021 12:00\""), Ok(date(2021, 1, 1, 12, 0)));
}

#[test]
fn parse_malformed() {
    assert_eq!(parse(""), Err(ParseError::Malformed));
    assert_eq!(parse("hello"), Err(ParseError::Malformed));
    assert_eq!(parse("1-1-21 12:00"), Err(ParseError::Malformed));
    assert_eq!(parse("1-1-2021"), Err(ParseError::Malformed));
    assert_eq!(parse("1-1-2021 12:00 extra"), Err(ParseError::Malformed));
    assert_eq!(parse("123-1-2021 12:00"), Err(ParseError::Malformed));
}

#[test]
fn parse_out_of_range() {
    assert_eq!(parse("32-1-2021 12:00"), Err(ParseError::OutOfRange));
    assert_eq!(parse("1-13-2021 12:00"), Err(ParseError::OutOfRange));
    assert_eq!(parse("1-1-2021 24:00"), Err(ParseError::OutOfRange));
    assert_eq!(parse("1-1-2021 12:60"), Err(ParseError::OutOfRange));
    assert_eq!(parse("31-4-2021 12:00"), Err(ParseError::OutOfRange));
}

#[test]
fn parse_leap_years() {
    assert_eq!(parse("29-2-2020 00:00"), Ok(date(2020, 2, 29, 0, 0)));
    assert_eq!(parse("29-2-2021 00:00"), Err(ParseError::OutOfRange));
    assert_eq!(parse("29-2-1900 00:00"), Err(ParseError::OutOfRange));
    assert_eq!(parse("29-2-2000 00:00"), Ok(date(2000, 2, 29, 0, 0)));
}

#[test]
fn format_is_canonical() {
    assert_eq!(format_date(&date(2021, 6, 1, 0, 0)), "2021-06-01 00:00");
    assert_eq!(format_date(&date(999, 12, 31, 23, 5)), "0999-12-31 23:05");
}

#[test]
fn format_parse_round_trip() {
    let samples = [
        date(2021, 1, 1, 12, 0),
        date(2020, 2, 29, 23, 59),
        date(1, 1, 1, 0, 0),
        date(9999, 12, 31, 23, 59),
    ];
    for d in samples {
        assert_eq!(parse(&format_date(&d)), Ok(d));
    }
}

#[test]
fn wildcard_matches_any_task() {
    assert!(evaluate_predicate(&sample_task(), "*"));
    let done = task_with("x", "", date(1, 1, 1, 0, 0), "", true);
    assert!(evaluate_predicate(&done, "*"));
}

#[test]
fn empty_predicate_matches_nothing() {
    assert!(!evaluate_predicate(&sample_task(), ""));
    assert!(!evaluate_predicate(&sample_task(), "   "));
}

#[test]
fn category_equality_is_exact() {
    let t = sample_task();
    assert!(evaluate_predicate(&t, "category = \"work\""));
    assert!(evaluate_predicate(&t, "category = work"));
    assert!(!evaluate_predicate(&t, "category = \"wor\""));
    assert!(!evaluate_predicate(&t, "category = \"work2\""));
    assert!(!evaluate_predicate(&t, "category = \"Work\""));
}

#[test]
fn description_like_is_substring() {
    let t = sample_task();
    assert!(evaluate_predicate(&t, "description like \"report\""));
    assert!(evaluate_predicate(&t, "description like \"write\""));
    assert!(evaluate_predicate(&t, "description like \"\""));
    assert!(!evaluate_predicate(&t, "description like \"Report\""));
    assert!(!evaluate_predicate(&t, "description like \"reports\""));
}

#[test]
fn name_comparisons() {
    let t = sample_task();
    assert!(evaluate_predicate(&t, "name = Task"));
    assert!(evaluate_predicate(&t, "name like as"));
    assert!(!evaluate_predicate(&t, "name = Other"));
}

#[test]
fn date_ordering_selects_earlier_task() {
    let early = task_with("a", "", date(2021, 1, 1, 0, 0), "c", false);
    let late = task_with("b", "", date(2022, 1, 1, 0, 0), "c", false);
    let pred = "date < '2021-06-01 00:00'";
    assert!(evaluate_predicate(&early, pred));
    assert!(!evaluate_predicate(&late, pred));
}

#[test]
fn date_operators() {
    let t = task_with("a", "", date(2021, 6, 1, 12, 0), "c", false);
    assert!(evaluate_predicate(&t, "date = '1-6-2021 12:00'"));
    assert!(evaluate_predicate(&t, "date <= '2021-06-01 12:00'"));
    assert!(evaluate_predicate(&t, "date >= '2021-06-01 12:00'"));
    assert!(evaluate_predicate(&t, "date > '2021-05-31 23:59'"));
    assert!(!evaluate_predicate(&t, "date < '2021-06-01 12:00'"));
    assert!(!evaluate_predicate(&t, "date like '2021-06-01 12:00'"));
    assert!(!evaluate_predicate(&t, "date < 'not a date'"));
}

#[test]
fn status_comparisons() {
    let open_task = sample_task();
    let done_task = task_with("d", "", date(2021, 1, 1, 0, 0), "c", true);
    assert!(evaluate_predicate(&open_task, "status = false"));
    assert!(!evaluate_predicate(&open_task, "status = true"));
    assert!(evaluate_predicate(&done_task, "status = \"true\""));
    assert!(!evaluate_predicate(&done_task, "status = yes"));
    assert!(!evaluate_predicate(&done_task, "status like true"));
}

#[test]
fn unknown_field_or_operator_is_false() {
    let t = sample_task();
    assert!(!evaluate_predicate(&t, "priority = high"));
    assert!(!evaluate_predicate(&t, "category ~ work"));
    assert!(!evaluate_predicate(&t, "category < work"));
    assert!(!evaluate_predicate(&t, "category"));
    assert!(!evaluate_predicate(&t, "category = one two three"));
}

#[test]
fn conjunction_of_clauses() {
    let t = sample_task();
    assert!(evaluate_predicate(&t, "category = work and description like report"));
    assert!(!evaluate_predicate(&t, "category = work and description like missing"));
    assert!(!evaluate_predicate(&t, "category = home and description like report"));
    assert!(!evaluate_predicate(&t, "category = work and"));
}

#[test]
fn where_form_selects() {
    let t = sample_task();
    assert!(matches_input(&t, "*"));
    assert!(matches_input(&t, "* where category = work"));
    assert!(!matches_input(&t, "* where category = home"));
}

#[test]
fn select_where_form_on_store() {
    let mut store = TodoListService::new();
    store.add_task("a".to_string(), "x".to_string(), date(2021, 1, 1, 0, 0), "one".to_string());
    store.add_task("b".to_string(), "y".to_string(), date(2022, 1, 1, 0, 0), "two".to_string());
    let picked = store.select_tasks("* where date < '2021-06-01 00:00'");
    assert_eq!(picked.len(), 1);
    assert_eq!(picked[0].name, "a");
}

#[test]
fn delete_then_select_all_is_empty() {
    let mut store = TodoListService::new();
    store.add_task("only".to_string(), "d".to_string(), date(2021, 1, 1, 0, 0), "c".to_string());
    assert!(store.delete_task("only"));
    let all = store.select_tasks("*");
    assert_eq!(all.len(), 0);
    assert!(!store.delete_task("only"));
}

#[test]
fn add_replaces_task_of_same_name() {
    let mut store = TodoListService::new();
    store.add_task("t".to_string(), "first".to_string(), date(2021, 1, 1, 0, 0), "c".to_string());
    store.add_task("t".to_string(), "second".to_string(), date(2021, 1, 1, 0, 0), "c".to_string());
    let all = store.select_tasks("*");
    assert_eq!(all.len(), 1);
    assert_eq!(all[0].description, "second");
}

#[test]
fn mark_done_sets_status() {
    let mut store = TodoListService::new();
    store.add_task("t".to_string(), "d".to_string(), date(2021, 1, 1, 0, 0), "c".to_string());
    assert!(!store.get_task("t").unwrap().status);
    assert!(store.mark_done("t"));
    assert!(store.get_task("t").unwrap().status);
    assert!(!store.mark_done("missing"));
}

#[test]
fn update_rekeys_store() {
    let mut store = TodoListService::new();
    store.add_task("old".to_string(), "d".to_string(), date(2021, 1, 1, 0, 0), "c".to_string());
    let changed = store.update_task(
        "old",
        "new".to_string(),
        "changed".to_string(),
        Some(date(2022, 1, 1, 12, 0)),
        "c2".to_string(),
    );
    assert!(changed);
    assert!(!store.contains_task("old"));
    let t = store.get_task("new").expect("renamed task must exist");
    assert_eq!(t.description, "changed");
    assert_eq!(t.category, "c2");
    assert_eq!(t.date, date(2022, 1, 1, 12, 0));
}

#[test]
fn update_keeps_empty_fields() {
    let mut store = TodoListService::new();
    store.add_task("t".to_string(), "d".to_string(), date(2021, 1, 1, 0, 0), "c".to_string());
    let changed = store.update_task("t", String::new(), String::new(), None, String::new());
    assert!(changed);
    let t = store.get_task("t").expect("task must remain");
    assert_eq!(t.name, "t");
    assert_eq!(t.description, "d");
    assert_eq!(t.category, "c");
    assert_eq!(t.date, date(2021, 1, 1, 0, 0));
    assert!(!store.update_task("missing", String::new(), String::new(), None, String::new()));
}
