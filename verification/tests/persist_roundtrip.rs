use todo_app::errors::StorageError;
use todo_app::persist::{load_store, save_store};
use todo_app::store::{CheckStep, Store};

fn sample_store() -> Store {
    let mut s = Store::new();
    assert!(s.create_list("work").is_ok());
    assert!(s.create_list("home").is_ok());
    assert!(s.add_task("write report", "work").is_ok());
    assert!(s.add_task("buy milk", "home").is_ok());
    assert!(s.add_task("water plants", "home").is_ok());
    assert!(matches!(s.check_task("buy milk", "home"), Ok(CheckStep::Toggled(true))));
    s
}

fn assert_same_content(a: &Store, b: &Store) {
    assert_eq!(a.get_lists(), b.get_lists());
    for list in a.get_lists() {
        let ta = a.get_tasks(Some(&list)).unwrap();
        let tb = b.get_tasks(Some(&list)).unwrap();
        assert_eq!(ta.len(), tb.len());
        for (x, y) in ta.iter().zip(tb.iter()) {
            assert_eq!(x.name, y.name);
            assert_eq!(x.checked, y.checked);
        }
    }
}

#[test]
fn empty_store_round_trips() {
    let s = Store::new();
    let text = save_store(&s);
    assert_eq!(text, "{}");
    let back = load_store(&text).unwrap();
    assert!(back.get_lists().is_empty());
}

#[test]
fn populated_store_round_trips() {
    let s = sample_store();
    let text = save_store(&s);
    let back = load_store(&text).unwrap();
    assert_same_content(&s, &back);
}

#[test]
fn save_then_load_then_save_is_stable() {
    let s = sample_store();
    let first = save_store(&s);
    let second = save_store(&load_store(&first).unwrap());
    assert_eq!(first, second);
}

#[test]
fn awkward_names_round_trip() {
    let mut s = Store::new();
    assert!(s.create_list("li\"st \\ with\nnoise").is_ok());
    assert!(s.add_task("say \"hi\"", "li\"st \\ with\nnoise").is_ok());
    assert!(s.add_task("tab\there", "li\"st \\ with\nnoise").is_ok());
    assert!(s.add_task("caf\u{e9} \u{1F600}", "li\"st \\ with\nnoise").is_ok());
    let text = save_store(&s);
    let back = load_store(&text).unwrap();
    assert_same_content(&s, &back);
}

#[test]
fn saved_text_is_plain_json_for_other_readers() {
    let s = sample_store();
    let text = save_store(&s);
    let value: serde_json::Value = serde_json::from_str(&text).unwrap();
    let map = value.as_object().unwrap();
    assert_eq!(map.len(), 2);
    let home = map.get("home").unwrap().as_array().unwrap();
    assert_eq!(home.len(), 2);
    assert_eq!(home[0].get("name").unwrap().as_str().unwrap(), "buy milk");
    assert_eq!(home[0].get("checked").unwrap().as_bool().unwrap(), true);
    assert_eq!(home[1].get("name").unwrap().as_str().unwrap(), "water plants");
    assert_eq!(home[1].get("checked").unwrap().as_bool().unwrap(), false);
}

#[test]
fn text_written_by_serde_loads() {
    // The same shape another process would write with serde_json.
    let mut task = serde_json::Map::new();
    task.insert("name".to_string(), serde_json::Value::String("caf\u{e9}\n\"x\"".to_string()));
    task.insert("checked".to_string(), serde_json::Value::Bool(true));
    let mut root = serde_json::Map::new();
    root.insert(
        "errands".to_string(),
        serde_json::Value::Array(vec![serde_json::Value::Object(task)]),
    );
    let text = serde_json::to_string(&serde_json::Value::Object(root)).unwrap();
    let s = load_store(&text).unwrap();
    assert_eq!(s.get_lists(), vec!["errands"]);
    let tasks = s.get_tasks(Some("errands")).unwrap();
    assert_eq!(tasks.len(), 1);
    assert_eq!(tasks[0].name, "caf\u{e9}\n\"x\"");
    assert!(tasks[0].checked);
}

#[test]
fn whitespace_between_tokens_is_accepted() {
    let text = " {\n  \"work\" : [ { \"name\" : \"a\" , \"checked\" : false } ]\n} ";
    let s = load_store(text).unwrap();
    assert_eq!(s.get_lists(), vec!["work"]);
    let tasks = s.get_tasks(Some("work")).unwrap();
    assert_eq!(tasks[0].name, "a");
    assert!(!tasks[0].checked);
}

#[test]
fn escapes_are_understood_when_loading() {
    let text = "{\"l\":[{\"name\":\"a\\tb\\u0041\\\\\\\"\",\"checked\":true}]}";
    let s = load_store(text).unwrap();
    let tasks = s.get_tasks(Some("l")).unwrap();
    assert_eq!(tasks[0].name, "a\tbA\\\"");
}

#[test]
fn malformed_text_is_rejected() {
    assert_eq!(load_store("").unwrap_err(), StorageError::Malformed);
    assert_eq!(load_store("not json").unwrap_err(), StorageError::Malformed);
    assert_eq!(load_store("{\"a\":[}").unwrap_err(), StorageError::Malformed);
    assert_eq!(load_store("{} trailing").unwrap_err(), StorageError::Malformed);
    assert_eq!(load_store("{\"a\":[],\"a\":[]}").unwrap_err(), StorageError::Malformed);
    assert_eq!(load_store("{\"\":[]}").unwrap_err(), StorageError::Malformed);
    assert_eq!(
        load_store("{\"a\":[{\"name\":\"x\",\"checked\":false},{\"name\":\"x\",\"checked\":true}]}")
            .unwrap_err(),
        StorageError::Malformed
    );
    assert_eq!(load_store("{\"a\":[{\"name\":\"\\uD800\",\"checked\":false}]}").unwrap_err(),
        StorageError::Malformed);
    assert_eq!(StorageError::Malformed.message(), "Unable to deserialize json");
}

#[test]
fn saved_text_has_the_expected_shape() {
    let mut s = Store::new();
    assert!(s.create_list("work").is_ok());
    assert!(s.add_task("a", "work").is_ok());
    assert!(s.add_task("b", "work").is_ok());
    assert!(matches!(s.check_task("b", "work"), Ok(CheckStep::Toggled(true))));
    assert_eq!(
        save_store(&s),
        "{\"work\":[{\"name\":\"a\",\"checked\":false},{\"name\":\"b\",\"checked\":true}]}"
    );
    let mut t = Store::new();
    assert!(t.create_list("q\"uote").is_ok());
    assert!(t.add_task("a\\b\u{1}", "q\"uote").is_ok());
    assert_eq!(
        save_store(&t),
        "{\"q\\\"uote\":[{\"name\":\"a\\\\b\\u0001\",\"checked\":false}]}"
    );
}
