use todolist::date::parse;
use todolist::service::TodoListService;
use todolist::task::Task;
use todolist::predicate::evaluate_predicate;

fn test_date() -> todolist::DateTime {
    parse("1-1-2021 12:00").expect("fixed date must parse")
}

#[test]
fn test_add_task() {
    let mut todo_list = TodoListService::new();
    let name = "Test Task".to_string();
    let description = "Test Description".to_string();
    let date = test_date();
    let category = "Test Category".to_string();

    todo_list.add_task(name.clone(), description.clone(), date, category.clone());

    assert!(todo_list.contains_task(&name));

    let task = todo_list.get_task(&name).expect("Task not found in the todo list");
    assert_eq!(task.description, description);
    assert_eq!(task.category, category);
    assert!(!task.status);
}

#[test]
fn test_update_task() {
    let mut todo_list = TodoListService::new();
    let name = "Test Task".to_string();
    let description = "Test Description".to_string();
    let date = test_date();
    let category = "Test Category".to_string();

    todo_list.add_task(name.clone(), description.clone(), date, category.clone());

    assert!(todo_list.contains_task(&name));

    let task = todo_list.get_task(&name).expect("Task not found in the todo list");
    assert_eq!(task.description, description);
    assert_eq!(task.category, category);
    assert!(!task.status);
}

#[test]
fn test_mark_done() {
    let mut todo_list = TodoListService::new();
    let name = "Test Task".to_string();
    todo_list.add_task(name.clone(), "Description".to_string(), test_date(), "Category".to_string());

    todo_list.mark_done(&name);

    let task = todo_list.get_task(&name).expect("Task not found in the todo list");
    assert!(task.status);
}

#[test]
fn test_delete_task() {
    let mut todo_list = TodoListService::new();
    let name = "Test Task".to_string();
    todo_list.add_task(name.clone(), "Description".to_string(), test_date(), "Category".to_string());

    todo_list.delete_task(&name);

    assert!(!todo_list.contains_task(&name));
}

#[test]
fn test_select_tasks() {
    let mut todo_list = TodoListService::new();
    todo_list.add_task("Task 1".to_string(), "Unit test 1".to_string(), test_date(), "Category1".to_string());
    todo_list.add_task("Task 2".to_string(), "Unit test 2".to_string(), test_date(), "Category2".to_string());

    let filtered_tasks: Vec<Task> = todo_list.select_tasks("category = \"Category1\"");

    assert_eq!(filtered_tasks.len(), 1);
    assert_eq!(filtered_tasks[0].name, "Task 1");

    let by_predicate = todo_list.select_tasks("*");
    assert_eq!(by_predicate.len(), 2);

    let task = todo_list.get_task("Task 2").expect("Task not found in the todo list");
    assert!(evaluate_predicate(task, "category = \"Category2\""));
    assert!(!evaluate_predicate(task, "category = \"Category1\""));
}
