use todui::crdt::{CrdtDocument, CrdtItem, CrdtList};
use todui::doc_ops::{migrate_from_lists, new_id};
use todui::model::{ListType, TodoItem, TodoList};

fn item(id: &str, title: &str, done: bool, tags: &[&str], time_secs: u64, list_id: Option<&str>, position: i64) -> CrdtItem {
    CrdtItem {
        id: id.to_string(),
        title: title.to_string(),
        done,
        tags: tags.iter().map(|t| t.to_string()).collect(),
        time_secs,
        list_id: list_id.map(|l| l.to_string()),
        position,
        archived: false,
    }
}

/// Positions count half steps: 2 stands for one whole step.
fn sample_document() -> CrdtDocument {
    let mut doc = CrdtDocument::new();
    doc.lists.push(CrdtList {
        id: "l1".to_string(),
        name: "Work".to_string(),
        list_type: "normal".to_string(),
        last_reset: None,
        position: 0,
    });
    doc.lists.push(CrdtList {
        id: "l2".to_string(),
        name: "Personal".to_string(),
        list_type: "daily".to_string(),
        last_reset: Some("2026-03-07".to_string()),
        position: 2,
    });
    doc.items.push(item("i1", "Send email", false, &["urgent"], 0, Some("l1"), 0));
    doc.items.push(item("i2", "Review PR", true, &["code"], 2700, Some("l1"), 2));
    doc.items.push(item("i3", "Exercise", false, &["health", "urgent"], 0, Some("l2"), 0));
    doc.items.push(item("i4", "Unassigned task", false, &["urgent"], 0, None, 0));
    doc
}

#[test]
fn test_new_document_id() {
    let id1 = new_id();
    let id2 = new_id();
    assert_ne!(id1, id2);
    assert!(!id1.is_empty());
    assert_eq!(id1.len(), 36);
}

#[test]
fn test_migrate_from_lists() {
    let mut list1 = TodoList::new("Work");
    list1.items = vec![
        TodoItem { title: "Task A".to_string(), done: false, tags: vec!["urgent".to_string()], time_secs: 2700 },
        TodoItem { title: "Task B".to_string(), done: true, tags: vec![], time_secs: 0 },
    ];
    let mut list2 = TodoList::new("Personal");
    list2.list_type = ListType::Daily;
    list2.last_reset = Some("2026-03-07".to_string());
    list2.items = vec![TodoItem { title: "Exercise".to_string(), done: false, tags: vec!["health".to_string()], time_secs: 0 }];

    let doc = migrate_from_lists(&[list1, list2]);
    assert_eq!(doc.lists.len(), 2);
    assert_eq!(doc.items.len(), 3);

    let work_list = doc.lists.iter().find(|l| l.name == "Work").unwrap();
    assert_eq!(work_list.list_type, "normal");

    let personal_list = doc.lists.iter().find(|l| l.name == "Personal").unwrap();
    assert_eq!(personal_list.list_type, "daily");
    assert_eq!(personal_list.last_reset, Some("2026-03-07".to_string()));

    let task_a = doc.items.iter().find(|i| i.title == "Task A").unwrap();
    assert_eq!(task_a.tags, vec!["urgent".to_string()]);
    assert_eq!(task_a.time_secs, 2700);
    assert_eq!(task_a.list_id.as_ref(), Some(&work_list.id));

    let exercise = doc.items.iter().find(|i| i.title == "Exercise").unwrap();
    assert_eq!(exercise.list_id.as_ref(), Some(&personal_list.id));
}

#[test]
fn test_migrate_empty_lists() {
    let doc = migrate_from_lists(&[]);
    assert!(doc.items.is_empty());
    assert!(doc.lists.is_empty());
}

#[test]
fn test_migrate_preserves_item_order_via_position() {
    let mut list = TodoList::new("Work");
    list.items = vec![
        TodoItem { title: "First".to_string(), done: false, tags: vec![], time_secs: 0 },
        TodoItem { title: "Second".to_string(), done: false, tags: vec![], time_secs: 0 },
        TodoItem { title: "Third".to_string(), done: false, tags: vec![], time_secs: 0 },
    ];

    let doc = migrate_from_lists(&[list]);
    let list_id = doc.lists[0].id.clone();
    let mut items: Vec<&CrdtItem> = doc.items.iter().filter(|i| i.list_id.as_ref() == Some(&list_id)).collect();
    items.sort_by(|a, b| a.position.cmp(&b.position));
    assert_eq!(items[0].title, "First");
    assert_eq!(items[1].title, "Second");
    assert_eq!(items[2].title, "Third");
}

#[test]
fn test_items_for_list() {
    let doc = sample_document();
    let items = doc.items_for_list("l1");
    assert_eq!(items.len(), 2);
    assert_eq!(items[0].title, "Send email");
    assert_eq!(items[1].title, "Review PR");
}

#[test]
fn test_items_for_tag() {
    let doc = sample_document();
    let items = doc.items_for_tag("urgent");
    assert_eq!(items.len(), 3);
    let titles: Vec<&str> = items.iter().map(|i| i.title.as_str()).collect();
    assert!(titles.contains(&"Send email"));
    assert!(titles.contains(&"Exercise"));
    assert!(titles.contains(&"Unassigned task"));
}

#[test]
fn test_unassigned_items() {
    let doc = sample_document();
    let items = doc.unassigned_items();
    assert_eq!(items.len(), 1);
    assert_eq!(items[0].title, "Unassigned task");
}

#[test]
fn test_ordered_lists() {
    let doc = sample_document();
    let lists = doc.ordered_lists();
    assert_eq!(lists.len(), 2);
    assert_eq!(lists[0].name, "Work");
    assert_eq!(lists[1].name, "Personal");
}

#[test]
fn test_all_tags() {
    let doc = sample_document();
    let tags = doc.all_tags();
    assert_eq!(tags, vec!["code", "health", "urgent"]);
}

#[test]
fn test_next_position_for_list() {
    let doc = sample_document();
    let pos = doc.next_position_for_list("l1");
    assert!(pos > 2);
    assert_eq!(pos, 4);
}

#[test]
fn test_next_position_for_empty_list() {
    let doc = sample_document();
    let pos = doc.next_position_for_list("nonexistent");
    assert_eq!(pos, 0);
}

#[test]
fn test_next_list_position() {
    let doc = sample_document();
    let pos = doc.next_list_position();
    assert!(pos > 2);
    assert_eq!(pos, 4);
}

#[test]
fn items_order_by_position_then_id() {
    let mut doc = CrdtDocument::new();
    doc.lists.push(CrdtList { id: "l".to_string(), name: "L".to_string(), list_type: "normal".to_string(), last_reset: None, position: 0 });
    doc.items.push(item("b", "Second", false, &[], 0, Some("l"), 2));
    doc.items.push(item("a", "First", false, &[], 0, Some("l"), 2));
    doc.items.push(item("z", "Zero", false, &[], 0, Some("l"), -4));
    let mut archived = item("c", "Gone", false, &[], 0, Some("l"), 0);
    archived.archived = true;
    doc.items.push(archived);
    let titles: Vec<&str> = doc.items_for_list("l").iter().map(|i| i.title.as_str()).collect();
    assert_eq!(titles, vec!["Zero", "First", "Second"]);
}

#[test]
fn tags_of_archived_items_still_count() {
    let mut doc = sample_document();
    let mut gone = item("i5", "Old chore", true, &["attic"], 0, Some("l1"), 4);
    gone.archived = true;
    doc.items.push(gone);
    assert_eq!(doc.all_tags(), vec!["attic", "code", "health", "urgent"]);
}

#[test]
fn migrated_lists_and_items_keep_their_order() {
    let mut first = TodoList::new("Zeta");
    first.items = vec![
        TodoItem { title: "One".to_string(), done: true, tags: vec![], time_secs: 0 },
        TodoItem { title: "Two".to_string(), done: false, tags: vec!["x".to_string()], time_secs: 60 },
    ];
    let mut second = TodoList::new("Alpha");
    second.list_type = ListType::Daily;
    second.items = vec![TodoItem { title: "Three".to_string(), done: false, tags: vec![], time_secs: 0 }];
    let doc = migrate_from_lists(&[first, second]);
    let lists = doc.ordered_lists();
    let names: Vec<&str> = lists.iter().map(|l| l.name.as_str()).collect();
    assert_eq!(names, vec!["Zeta", "Alpha"]);
    assert_eq!(lists[1].list_type, "daily");
    let titles: Vec<&str> = doc.items_for_list(&lists[0].id).iter().map(|i| i.title.as_str()).collect();
    assert_eq!(titles, vec!["One", "Two"]);
    let titles: Vec<&str> = doc.items_for_list(&lists[1].id).iter().map(|i| i.title.as_str()).collect();
    assert_eq!(titles, vec!["Three"]);
}

#[test]
fn fresh_ids_are_hyphenated_uuids() {
    let id = new_id();
    assert_eq!(id.len(), 36);
    for (i, c) in id.chars().enumerate() {
        if i == 8 || i == 13 || i == 18 || i == 23 {
            assert_eq!(c, '-');
        } else {
            assert!(c.is_ascii_digit() || ('a'..='f').contains(&c));
        }
    }
    assert_ne!(new_id(), id);
}
