use todui::model::{TodoItem, TodoList};

#[test]
fn test_todo_item_new() {
    let item = TodoItem::new("Buy groceries");
    assert_eq!(item.title, "Buy groceries");
    assert!(!item.done);
    assert!(item.tags.is_empty());
}

#[test]
fn test_todo_item_default_time() {
    let item = TodoItem::new("Test");
    assert_eq!(item.time_secs, 0);
}

#[test]
fn test_todo_list_new() {
    let list = TodoList::new("Work");
    assert_eq!(list.name, "Work");
    assert!(list.items.is_empty());
}
