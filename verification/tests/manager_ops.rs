use daily_planner::manager::TodoManager;
use daily_planner::models::TodoStatus;

#[test]
fn manager_add_todo_increments_id_and_stores_item() {
    let mut mgr = TodoManager::new();
    mgr.add_todo("first".to_string());
    mgr.add_todo("second".to_string());

    assert_eq!(mgr.todos.len(), 2);
    assert_eq!(mgr.todos[0].id, 1);
    assert_eq!(mgr.todos[1].id, 2);
    assert_eq!(mgr.next_id, 3);
}

#[test]
fn manager_delete_todo_reuses_deleted_id() {
    let mut mgr = TodoManager::new();
    mgr.add_todo("a".to_string()); // id 1
    mgr.add_todo("b".to_string()); // id 2

    assert!(mgr.delete_todo(1));
    mgr.add_todo("c".to_string()); // should reuse id 1

    let ids: Vec<usize> = mgr.todos.iter().map(|t| t.id).collect();
    assert!(ids.contains(&1));
    assert!(ids.contains(&2));
}

#[test]
fn manager_complete_todo_marks_status_completed() {
    let mut mgr = TodoManager::new();
    mgr.add_todo("x".to_string());

    assert!(mgr.complete_todo(1));
    match mgr.todos[0].status {
        TodoStatus::Completed => {}
        _ => panic!("expected Completed"),
    }
}

#[test]
fn main_add_todo_increments_id_and_stores_item() {
    let mut mgr = TodoManager::new();
    mgr.add_todo("first".to_string());
    mgr.add_todo("second".to_string());

    assert_eq!(mgr.todos.len(), 2);
    assert_eq!(mgr.todos[0].id, 1);
    assert_eq!(mgr.todos[1].id, 2);
    assert_eq!(mgr.next_id, 3);
}

#[test]
fn main_delete_todo_reuses_deleted_id() {
    let mut mgr = TodoManager::new();
    mgr.add_todo("a".to_string()); // id 1
    mgr.add_todo("b".to_string()); // id 2

    assert!(mgr.delete_todo(1));
    mgr.add_todo("c".to_string()); // should reuse id 1

    let ids: Vec<usize> = mgr.todos.iter().map(|t| t.id).collect();
    assert!(ids.contains(&1));
    assert!(ids.contains(&2));
}

#[test]
fn main_complete_todo_marks_status_completed() {
    let mut mgr = TodoManager::new();
    mgr.add_todo("x".to_string());

    assert!(mgr.complete_todo(1));
    match mgr.todos[0].status {
        TodoStatus::Completed => {}
        _ => panic!("expected Completed"),
    }
}

#[test]
fn fresh_adds_assign_consecutive_ids() {
    let mut mgr = TodoManager::new();
    mgr.add_todo("a".to_string());
    mgr.add_todo("b".to_string());
    mgr.add_todo("c".to_string());

    let ids: Vec<usize> = mgr.todos.iter().map(|t| t.id).collect();
    assert_eq!(ids, vec![1, 2, 3]);
    assert_eq!(mgr.next_id, 4);
    assert!(mgr.free_ids.is_empty());
}

#[test]
fn delete_then_add_reuses_exactly_the_deleted_id() {
    let mut mgr = TodoManager::new();
    mgr.add_todo("a".to_string());
    mgr.add_todo("b".to_string());
    mgr.add_todo("c".to_string());

    assert!(mgr.delete_todo(2));
    mgr.add_todo("d".to_string());

    assert_eq!(mgr.todos.last().unwrap().id, 2);
    assert_eq!(mgr.next_id, 4);
}

#[test]
fn complete_todo_missing_id_returns_false_and_changes_nothing() {
    let mut mgr = TodoManager::new();
    mgr.add_todo("a".to_string());
    mgr.add_todo("b".to_string());

    assert!(!mgr.complete_todo(99));
    assert_eq!(mgr.todos.len(), 2);
    assert_eq!(mgr.todos[0].title, "a");
    assert_eq!(mgr.todos[1].title, "b");
    assert!(matches!(mgr.todos[0].status, TodoStatus::Pending));
    assert!(matches!(mgr.todos[1].status, TodoStatus::Pending));
    assert_eq!(mgr.next_id, 3);
    assert!(mgr.free_ids.is_empty());
}

#[test]
fn delete_todo_missing_id_returns_false_and_changes_nothing() {
    let mut mgr = TodoManager::new();
    mgr.add_todo("a".to_string());
    mgr.add_todo("b".to_string());

    assert!(!mgr.delete_todo(99));
    assert_eq!(mgr.todos.len(), 2);
    assert_eq!(mgr.todos[0].id, 1);
    assert_eq!(mgr.todos[1].id, 2);
    assert_eq!(mgr.next_id, 3);
    assert!(mgr.free_ids.is_empty());
}

#[test]
fn complete_todo_is_idempotent() {
    let mut mgr = TodoManager::new();
    mgr.add_todo("x".to_string());

    assert!(mgr.complete_todo(1));
    assert!(mgr.complete_todo(1));
    assert!(matches!(mgr.todos[0].status, TodoStatus::Completed));
    assert_eq!(mgr.todos.len(), 1);
}

#[test]
fn delete_preserves_order_of_remaining_items() {
    let mut mgr = TodoManager::new();
    mgr.add_todo("a".to_string());
    mgr.add_todo("b".to_string());
    mgr.add_todo("c".to_string());

    assert!(mgr.delete_todo(2));
    let titles: Vec<&str> = mgr.todos.iter().map(|t| t.title.as_str()).collect();
    assert_eq!(titles, vec!["a", "c"]);
}
