use todo_app::errors::{ListError, TaskError};
use todo_app::store::{CheckStep, RemoveStep, Store};

fn store_with(lists: &[(&str, &[(&str, bool)])]) -> Store {
    let mut s = Store::new();
    for (name, tasks) in lists {
        assert!(s.create_list(name).is_ok());
        for (task, checked) in *tasks {
            assert!(s.add_task(task, name).is_ok());
            if *checked {
                assert!(matches!(s.check_task(task, name), Ok(CheckStep::Toggled(true))));
            }
        }
    }
    s
}

#[test]
fn add_tasks_works() {
    let mut s = Store::new();
    assert_eq!(s.create_list("groceries"), Ok(()));
    assert_eq!(s.add_task("some_task", "groceries"), Ok(()));
    let tasks = s.get_tasks(Some("groceries")).unwrap();
    assert_eq!(tasks.len(), 1);
    assert_eq!(tasks[0].name, "some_task");
    assert!(!tasks[0].checked);
}

#[test]
fn tasks_list_works() {
    let mut s = store_with(&[("a", &[("first", false)]), ("b", &[])]);
    assert!(s.add_task("some_task", "b").is_ok());
    let all = s.get_tasks(None).unwrap();
    let names: Vec<&str> = all.iter().map(|t| t.name.as_str()).collect();
    assert_eq!(names, vec!["first", "some_task"]);
}

#[test]
fn added_task_present_once_and_unchecked() {
    let mut s = store_with(&[("work", &[("old", true)])]);
    assert_eq!(s.add_task("new", "work"), Ok(()));
    let tasks = s.get_tasks(Some("work")).unwrap();
    let matching: Vec<_> = tasks.iter().filter(|t| t.name == "new").collect();
    assert_eq!(matching.len(), 1);
    assert!(!matching[0].checked);
}

#[test]
fn add_twice_fails_and_count_unchanged() {
    let mut s = store_with(&[("work", &[])]);
    assert_eq!(s.add_task("t", "work"), Ok(()));
    let before = s.get_tasks(Some("work")).unwrap().len();
    assert_eq!(s.add_task("t", "work"), Err(TaskError::TaskAlreadyExists));
    assert_eq!(s.get_tasks(Some("work")).unwrap().len(), before);
}

#[test]
fn add_to_missing_list_fails() {
    let mut s = Store::new();
    assert_eq!(s.add_task("t", "nowhere"), Err(TaskError::ListNotFound));
}

#[test]
fn check_flips_and_twice_restores() {
    let mut s = store_with(&[("work", &[("t", false)])]);
    assert!(matches!(s.check_task("t", "work"), Ok(CheckStep::Toggled(true))));
    assert!(s.get_tasks(Some("work")).unwrap()[0].checked);
    assert!(matches!(s.check_task("t", "work"), Ok(CheckStep::Toggled(false))));
    assert!(!s.get_tasks(Some("work")).unwrap()[0].checked);
}

#[test]
fn remove_shrinks_by_one_then_not_found() {
    let mut s = store_with(&[("work", &[("a", false), ("b", false), ("c", false)])]);
    assert!(matches!(s.remove_task("b", "work"), Ok(RemoveStep::Removed)));
    let tasks = s.get_tasks(Some("work")).unwrap();
    assert_eq!(tasks.len(), 2);
    assert!(tasks.iter().all(|t| t.name != "b"));
    let names: Vec<&str> = tasks.iter().map(|t| t.name.as_str()).collect();
    assert_eq!(names, vec!["a", "c"]);
    assert_eq!(s.remove_task("b", "work").unwrap_err(), TaskError::TaskNotFound);
}

#[test]
fn remove_from_missing_list_fails() {
    let mut s = Store::new();
    assert!(matches!(s.remove_task("t", "nowhere"), Err(TaskError::ListNotFound)));
}

#[test]
fn resolver_single_candidate_confirmed() {
    // Store = {"work": [], "home": [{"buy milk", false}]}; removing from
    // "work" finds the one candidate "home"; a yes applies it there.
    let mut s = store_with(&[("work", &[]), ("home", &[("buy milk", false)])]);
    match s.remove_task("buy milk", "work") {
        Ok(RemoveStep::NeedsOne(list)) => assert_eq!(list, "home"),
        other => panic!("expected a single candidate, got {:?}", other.is_ok()),
    }
    s.remove_task_in_lists("buy milk", &vec!["home".to_string()]);
    assert!(s.get_tasks(Some("work")).unwrap().is_empty());
    assert!(s.get_tasks(Some("home")).unwrap().is_empty());
}

#[test]
fn resolver_many_candidates_selected_everywhere() {
    // Store = {"a": [{"x", false}], "b": [{"x", false}], "c": []}; checking
    // in "c" finds ["a", "b"]; selecting both toggles the task in both.
    let mut s = store_with(&[("a", &[("x", false)]), ("b", &[("x", false)]), ("c", &[])]);
    match s.check_task("x", "c") {
        Ok(CheckStep::NeedsMany(lists)) => assert_eq!(lists, vec!["a", "b"]),
        other => panic!("expected two candidates, got {:?}", other.is_ok()),
    }
    s.check_task_in_lists("x", &vec!["a".to_string(), "b".to_string()]);
    assert!(s.get_tasks(Some("a")).unwrap()[0].checked);
    assert!(s.get_tasks(Some("b")).unwrap()[0].checked);
    assert!(s.get_tasks(Some("c")).unwrap().is_empty());
}

#[test]
fn resolver_no_candidates_is_not_found() {
    let mut s = store_with(&[("work", &[]), ("home", &[])]);
    assert!(matches!(s.remove_task("ghost", "work"), Err(TaskError::TaskNotFound)));
    assert!(matches!(s.check_task("ghost", "work"), Err(TaskError::TaskNotFound)));
}

#[test]
fn resolver_selecting_none_is_a_no_op() {
    let mut s = store_with(&[("a", &[("x", false)]), ("b", &[("x", false)]), ("c", &[])]);
    s.remove_task_in_lists("x", &Vec::new());
    assert_eq!(s.get_tasks(Some("a")).unwrap().len(), 1);
    assert_eq!(s.get_tasks(Some("b")).unwrap().len(), 1);
}

#[test]
fn check_anywhere_toggles_first_match_only() {
    let mut s = store_with(&[("a", &[]), ("b", &[("x", false)]), ("c", &[("x", false)])]);
    assert_eq!(s.check_task_anywhere("x"), Ok(true));
    assert!(s.get_tasks(Some("b")).unwrap()[0].checked);
    assert!(!s.get_tasks(Some("c")).unwrap()[0].checked);
    assert_eq!(s.check_task_anywhere("ghost"), Err(TaskError::TaskNotFound));
}

#[test]
fn create_list_rejects_duplicates() {
    let mut s = Store::new();
    assert_eq!(s.create_list("work"), Ok(()));
    assert_eq!(s.create_list("work"), Err(ListError::AlreadyExists));
    assert_eq!(s.get_lists(), vec!["work"]);
}

#[test]
fn delete_list_not_found_then_removes_irrecoverably() {
    let mut s = store_with(&[("keep", &[("t", false)]), ("drop", &[("gone", true)])]);
    assert_eq!(s.delete_list("absent"), Err(ListError::NotFound));
    assert_eq!(s.delete_list("drop"), Ok(()));
    assert_eq!(s.get_lists(), vec!["keep"]);
    assert_eq!(s.get_tasks(Some("drop")).unwrap_err(), ListError::NotFound);
}

#[test]
fn find_candidates_keeps_enumeration_order_and_excludes() {
    let s = store_with(&[
        ("one", &[("x", false)]),
        ("two", &[]),
        ("three", &[("x", true)]),
        ("four", &[("x", false)]),
    ]);
    assert_eq!(s.find_candidates("x", "four"), vec!["one", "three"]);
    assert_eq!(s.find_candidates("x", "none"), vec!["one", "three", "four"]);
}

#[test]
fn get_tasks_of_missing_list_fails() {
    let s = Store::new();
    assert_eq!(s.get_tasks(Some("nope")).unwrap_err(), ListError::NotFound);
    assert!(s.get_tasks(None).unwrap().is_empty());
}

#[test]
fn error_messages_match_the_command_line_wording() {
    assert_eq!(ListError::AlreadyExists.message(), "List already exists");
    assert_eq!(ListError::NotFound.message(), "List not found");
    assert_eq!(TaskError::ListNotFound.message(), "List not found");
    assert_eq!(TaskError::TaskAlreadyExists.message(), "Task already exists");
    assert_eq!(TaskError::TaskNotFound.message(), "Task not found");
    assert_eq!(TaskError::Declined.message(), "");
}
