use daily_planner::manager::TodoManager;
use daily_planner::models::TodoStatus;

#[test]
fn json_round_trip_preserves_todos() {
    let mut mgr = TodoManager::new();
    mgr.add_todo("one".to_string());
    mgr.add_todo("two".to_string());
    mgr.complete_todo(2);

    let text = mgr.to_json();
    let loaded = TodoManager::from_json(text.as_str());

    assert_eq!(loaded.todos.len(), 2);
    assert_eq!(
        loaded.todos.iter().map(|t| t.id).collect::<Vec<_>>(),
        vec![1, 2]
    );
    assert_eq!(loaded.todos[0].title, "one");
    assert_eq!(loaded.todos[1].title, "two");
    assert!(matches!(loaded.todos[0].status, TodoStatus::Pending));
    assert!(matches!(loaded.todos[1].status, TodoStatus::Completed));
}

#[test]
fn json_round_trip_preserves_awkward_titles() {
    let mut mgr = TodoManager::new();
    mgr.add_todo("quotes \" and \\ backslash".to_string());
    mgr.add_todo("line\nbreak\ttab\rreturn".to_string());
    mgr.add_todo("control \u{1} char and unicode \u{e9}\u{4e16}".to_string());

    let text = mgr.to_json();
    let loaded = TodoManager::from_json(text.as_str());

    assert_eq!(loaded.todos.len(), 3);
    assert_eq!(loaded.todos[0].title, "quotes \" and \\ backslash");
    assert_eq!(loaded.todos[1].title, "line\nbreak\ttab\rreturn");
    assert_eq!(
        loaded.todos[2].title,
        "control \u{1} char and unicode \u{e9}\u{4e16}"
    );
}

#[test]
fn from_json_gap_file_reuses_low_id() {
    let mut loaded =
        TodoManager::from_json(r#"[{"id":2,"title":"only","status":"Pending"}]"#);
    assert_eq!(loaded.next_id, 3);
    assert_eq!(loaded.free_ids, vec![1]);

    loaded.add_todo("reuse".to_string());
    let ids: Vec<usize> = loaded.todos.iter().map(|t| t.id).collect();
    assert!(ids.contains(&1));
    assert!(ids.contains(&2));
    assert_eq!(loaded.todos.last().unwrap().id, 1);
}

#[test]
fn from_json_rebuilds_gaps_largest_first() {
    let text = r#"[
        {"id": 2, "title": "b", "status": "Pending"},
        {"id": 5, "title": "e", "status": "Completed"}
    ]"#;
    let loaded = TodoManager::from_json(text);
    assert_eq!(loaded.next_id, 6);
    assert_eq!(loaded.free_ids, vec![4, 3, 1]);
}

#[test]
fn from_json_corrupt_text_yields_empty_manager() {
    for bad in [
        "",
        "not json",
        "[{]",
        r#"[{"id":1,"title":"a"}]"#,
        r#"[{"id":1,"title":"a","status":"Odd"}]"#,
        r#"[{"id":-1,"title":"a","status":"Pending"}]"#,
        r#"{"id":1,"title":"a","status":"Pending"}"#,
        r#"[{"id":1,"title":"a","status":"Pending"} trailing"#,
    ] {
        let mgr = TodoManager::from_json(bad);
        assert!(mgr.todos.is_empty());
        assert_eq!(mgr.next_id, 1);
        assert!(mgr.free_ids.is_empty());
    }
}

#[test]
fn from_json_rejects_id_zero_and_duplicates() {
    let zero = TodoManager::from_json(r#"[{"id":0,"title":"z","status":"Pending"}]"#);
    assert!(zero.todos.is_empty());
    assert_eq!(zero.next_id, 1);

    let dup = TodoManager::from_json(
        r#"[{"id":1,"title":"a","status":"Pending"},{"id":1,"title":"b","status":"Pending"}]"#,
    );
    assert!(dup.todos.is_empty());
    assert_eq!(dup.next_id, 1);
}

#[test]
fn from_json_accepts_fields_in_any_order() {
    let text = r#"[{"status": "Completed", "id": 3, "title": "swapped"}]"#;
    let loaded = TodoManager::from_json(text);
    assert_eq!(loaded.todos.len(), 1);
    assert_eq!(loaded.todos[0].id, 3);
    assert_eq!(loaded.todos[0].title, "swapped");
    assert!(matches!(loaded.todos[0].status, TodoStatus::Completed));
}

#[test]
fn empty_manager_saves_as_empty_array() {
    let mgr = TodoManager::new();
    assert_eq!(mgr.to_json(), "[]");
    let loaded = TodoManager::from_json("[]");
    assert!(loaded.todos.is_empty());
    assert_eq!(loaded.next_id, 1);
    assert!(loaded.free_ids.is_empty());
}

#[test]
fn rendered_text_is_valid_json_for_other_readers() {
    let mut mgr = TodoManager::new();
    mgr.add_todo("hello world".to_string());
    mgr.add_todo("escaped \" \\ \n \u{2} title".to_string());
    mgr.complete_todo(1);

    let text = mgr.to_json();
    let value: serde_json::Value = serde_json::from_str(&text).expect("well-formed JSON");
    let arr = value.as_array().expect("an array");
    assert_eq!(arr.len(), 2);
    assert_eq!(arr[0]["id"].as_u64(), Some(1));
    assert_eq!(arr[0]["title"].as_str(), Some("hello world"));
    assert_eq!(arr[0]["status"].as_str(), Some("Completed"));
    assert_eq!(arr[1]["title"].as_str(), Some("escaped \" \\ \n \u{2} title"));
    assert_eq!(arr[1]["status"].as_str(), Some("Pending"));
}

#[test]
fn text_written_by_other_writers_loads() {
    let mut obj = serde_json::Map::new();
    obj.insert("id".to_string(), serde_json::Value::from(4u64));
    obj.insert("title".to_string(), serde_json::Value::from("from elsewhere"));
    obj.insert("status".to_string(), serde_json::Value::from("Pending"));
    let value = serde_json::Value::Array(vec![serde_json::Value::Object(obj)]);
    let text = serde_json::to_string_pretty(&value).expect("rendered");

    let loaded = TodoManager::from_json(&text);
    assert_eq!(loaded.todos.len(), 1);
    assert_eq!(loaded.todos[0].id, 4);
    assert_eq!(loaded.todos[0].title, "from elsewhere");
    assert!(matches!(loaded.todos[0].status, TodoStatus::Pending));
    assert_eq!(loaded.next_id, 5);
    assert_eq!(loaded.free_ids, vec![3, 2, 1]);
}

#[test]
fn from_json_checked_tells_empty_file_from_bad_file() {
    let (empty_ok, ok) = TodoManager::from_json_checked("[]");
    assert!(ok);
    assert!(empty_ok.todos.is_empty());
    assert_eq!(empty_ok.next_id, 1);

    let (empty_bad, ok) = TodoManager::from_json_checked("not json");
    assert!(!ok);
    assert!(empty_bad.todos.is_empty());
    assert_eq!(empty_bad.next_id, 1);

    let (_, ok) = TodoManager::from_json_checked(r#"[{"id":1,"title":"a","status":"Pending"}]"#);
    assert!(ok);
}
