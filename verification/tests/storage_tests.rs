use todui::model::{ListType, TodoItem, TodoList};
use todui::storage::{
    extract_tags_pub, format_time, name_to_filename, parse_list, parse_time_str, parse_todo_line, serialize_list,
};

#[test]
fn test_extract_tags_no_tags() {
    let (title, tags) = extract_tags_pub("Buy groceries");
    assert_eq!(title, "Buy groceries");
    assert!(tags.is_empty());
}

#[test]
fn test_extract_tags_single() {
    let (title, tags) = extract_tags_pub("Buy groceries @errands");
    assert_eq!(title, "Buy groceries");
    assert_eq!(tags, vec!["errands"]);
}

#[test]
fn test_extract_tags_multiple() {
    let (title, tags) = extract_tags_pub("Buy groceries @errands @today");
    assert_eq!(title, "Buy groceries");
    assert_eq!(tags, vec!["errands", "today"]);
}

#[test]
fn test_extract_tags_at_in_middle_not_a_tag() {
    let (title, tags) = extract_tags_pub("Email user@example.com @work");
    assert_eq!(title, "Email user@example.com");
    assert_eq!(tags, vec!["work"]);
}

#[test]
fn test_parse_todo_line_unchecked() {
    let item = parse_todo_line("- [ ] Buy groceries @errands").unwrap();
    assert_eq!(item.title, "Buy groceries");
    assert!(!item.done);
    assert_eq!(item.tags, vec!["errands"]);
}

#[test]
fn test_parse_todo_line_checked() {
    let item = parse_todo_line("- [x] Review PR @code").unwrap();
    assert_eq!(item.title, "Review PR");
    assert!(item.done);
    assert_eq!(item.tags, vec!["code"]);
}

#[test]
fn test_parse_todo_line_checked_uppercase() {
    let item = parse_todo_line("- [X] Review PR @code").unwrap();
    assert_eq!(item.title, "Review PR");
    assert!(item.done);
    assert_eq!(item.tags, vec!["code"]);
}

#[test]
fn test_parse_todo_line_not_a_todo() {
    assert!(parse_todo_line("Just a regular line").is_none());
    assert!(parse_todo_line("- A list item").is_none());
    assert!(parse_todo_line("# A heading").is_none());
}

#[test]
fn test_parse_list() {
    let md = "# Work\n\n- [ ] Send invoice @client\n- [x] Review PR @code\n";
    let list = parse_list(md);
    assert_eq!(list.name, "Work");
    assert_eq!(list.items.len(), 2);
    assert_eq!(list.items[0].title, "Send invoice");
    assert!(!list.items[0].done);
    assert_eq!(list.items[0].tags, vec!["client"]);
    assert_eq!(list.items[1].title, "Review PR");
    assert!(list.items[1].done);
    assert_eq!(list.items[1].tags, vec!["code"]);
}

#[test]
fn test_parse_list_no_heading() {
    let md = "- [ ] Something\n";
    let list = parse_list(md);
    assert_eq!(list.name, "Untitled");
    assert_eq!(list.items.len(), 1);
}

#[test]
fn test_serialize_list() {
    let mut list = TodoList::new("Work");
    list.items = vec![
        TodoItem { title: "Send invoice".to_string(), done: false, tags: vec!["client".to_string()], time_secs: 0 },
        TodoItem { title: "Review PR".to_string(), done: true, tags: vec!["code".to_string()], time_secs: 0 },
    ];
    let output = serialize_list(&list);
    assert_eq!(output, "# Work\n\n- [ ] Send invoice @client\n- [x] Review PR @code\n");
}

#[test]
fn test_serialize_roundtrip() {
    let md = "# Projects\n\n- [ ] Build app @dev @urgent\n- [x] Write docs @docs\n";
    let list = parse_list(md);
    let serialized = serialize_list(&list);
    let reparsed = parse_list(&serialized);
    assert_eq!(list, reparsed);
}

#[test]
fn test_name_to_filename() {
    assert_eq!(name_to_filename("Work"), "work.md");
    assert_eq!(name_to_filename("My Projects"), "my-projects.md");
}

#[test]
fn test_format_time_zero() {
    assert_eq!(format_time(0), "");
}

#[test]
fn test_format_time_minutes_only() {
    assert_eq!(format_time(2700), "45m");
}

#[test]
fn test_format_time_hours_only() {
    assert_eq!(format_time(7200), "2h");
}

#[test]
fn test_format_time_hours_and_minutes() {
    assert_eq!(format_time(5400), "1h30m");
}

#[test]
fn test_parse_time_str_minutes() {
    assert_eq!(parse_time_str("45m"), Some(2700));
}

#[test]
fn test_parse_time_str_hours() {
    assert_eq!(parse_time_str("2h"), Some(7200));
}

#[test]
fn test_parse_time_str_hours_minutes() {
    assert_eq!(parse_time_str("1h30m"), Some(5400));
}

#[test]
fn test_parse_time_str_large_minutes() {
    assert_eq!(parse_time_str("90m"), Some(5400));
}

#[test]
fn test_format_time_seconds_only() {
    assert_eq!(format_time(30), "30s");
}

#[test]
fn test_format_time_minutes_and_seconds() {
    assert_eq!(format_time(90), "1m30s");
}

#[test]
fn test_format_time_hours_minutes_seconds() {
    assert_eq!(format_time(3661), "1h1m1s");
}

#[test]
fn test_parse_time_str_seconds() {
    assert_eq!(parse_time_str("30s"), Some(30));
}

#[test]
fn test_parse_time_str_minutes_seconds() {
    assert_eq!(parse_time_str("1m30s"), Some(90));
}

#[test]
fn test_parse_time_str_invalid() {
    assert_eq!(parse_time_str("abc"), None);
    assert_eq!(parse_time_str(""), None);
}

#[test]
fn test_parse_todo_line_with_time() {
    let item = parse_todo_line("- [ ] Buy groceries [45m] @errands").unwrap();
    assert_eq!(item.title, "Buy groceries");
    assert_eq!(item.time_secs, 2700);
    assert_eq!(item.tags, vec!["errands"]);
}

#[test]
fn test_parse_todo_line_with_time_no_tags() {
    let item = parse_todo_line("- [x] Review PR [1h30m]").unwrap();
    assert_eq!(item.title, "Review PR");
    assert_eq!(item.time_secs, 5400);
    assert!(item.tags.is_empty());
}

#[test]
fn test_serialize_list_with_time() {
    let mut list = TodoList::new("Work");
    list.items = vec![
        TodoItem { title: "Task A".to_string(), done: false, tags: vec!["code".to_string()], time_secs: 2700 },
        TodoItem { title: "Task B".to_string(), done: true, tags: vec![], time_secs: 0 },
    ];
    let output = serialize_list(&list);
    assert_eq!(output, "# Work\n\n- [ ] Task A [45m] @code\n- [x] Task B\n");
}

#[test]
fn test_serialize_daily_list() {
    let mut list = TodoList::new("Daily Tasks");
    list.list_type = ListType::Daily;
    list.last_reset = Some("2026-02-26".to_string());
    list.items.push(TodoItem { title: "Exercise".to_string(), done: false, tags: vec![], time_secs: 0 });
    let output = serialize_list(&list);
    let reparsed = parse_list(&output);
    assert_eq!(reparsed.list_type, ListType::Daily);
    assert_eq!(reparsed.last_reset, Some("2026-02-26".to_string()));
    assert_eq!(reparsed.items.len(), 1);
    assert_eq!(reparsed.items[0].title, "Exercise");
}

#[test]
fn test_parse_daily_list() {
    let md = "# Habits\n<!-- type: daily -->\n<!-- last-reset: 2026-02-25 -->\n\n- [ ] Meditate\n- [x] Read\n";
    let list = parse_list(md);
    assert_eq!(list.name, "Habits");
    assert_eq!(list.list_type, ListType::Daily);
    assert_eq!(list.last_reset, Some("2026-02-25".to_string()));
    assert_eq!(list.items.len(), 2);
}

#[test]
fn test_parse_normal_list_unchanged() {
    let md = "# Work\n\n- [ ] Task A\n- [x] Task B\n";
    let list = parse_list(md);
    assert_eq!(list.list_type, ListType::Normal);
    assert_eq!(list.last_reset, None);
    assert_eq!(list.items.len(), 2);
}

#[test]
fn tags_are_only_the_trailing_words() {
    let (title, tags) = extract_tags_pub("Fix @a bug   @b @c-d");
    assert_eq!(title, "Fix @a bug");
    assert_eq!(tags, vec!["b", "c-d"]);
}

#[test]
fn last_heading_and_last_reset_win() {
    let content = "# First\n#   \n- [ ] a\n<!-- last-reset: 2024-01-01 -->\n# Second \n  - [X] b @t\nnoise\n<!-- last-reset: 2024-02-02 -->\n";
    let list = parse_list(content);
    assert_eq!(list.name, "Second");
    assert_eq!(list.last_reset, Some("2024-02-02".to_string()));
    assert_eq!(list.list_type, ListType::Normal);
    let titles: Vec<&str> = list.items.iter().map(|i| i.title.as_str()).collect();
    assert_eq!(titles, vec!["a", "b"]);
    assert!(list.items[1].done);
    assert_eq!(list.items[1].tags, vec!["t"]);
}

#[test]
fn no_heading_means_untitled() {
    let list = parse_list("- [ ] only\n");
    assert_eq!(list.name, "Untitled");
}

#[test]
fn read_write_read_gives_the_same_list() {
    let content = "noise\n  - [x]   Plan   the   trip  @a @b\n# Trips\n<!-- type: daily -->\n- [ ] Pack [5m] @x\n- [ ] Call @home later\n- [ ] Ask [not a time]\n";
    let first = parse_list(content);
    let again = parse_list(&serialize_list(&first));
    assert_eq!(again, first);
    assert_eq!(first.items[0].title, "Plan the trip");
    assert_eq!(first.items[1].time_secs, 300);
}

#[test]
fn written_lines_start_with_their_checkboxes() {
    let mut list = TodoList::new("Work");
    list.list_type = ListType::Daily;
    list.last_reset = Some("2024-03-03".to_string());
    let mut done = TodoItem::new("Done");
    done.done = true;
    list.items.push(done);
    list.items.push(TodoItem::new("Open"));
    let text = serialize_list(&list);
    let lines: Vec<&str> = text.lines().collect();
    assert_eq!(lines.len(), 2 + 1 + 1 + 2);
    assert_eq!(lines[0], "# Work");
    assert!(lines[4].starts_with("- [x] "));
    assert!(lines[5].starts_with("- [ ] "));
    assert!(text.ends_with('\n'));
}

#[test]
fn lines_of_a_list_with_loose_texts() {
    let mut list = TodoList::new("  Loose name ");
    list.last_reset = Some("someday".to_string());
    let mut odd = TodoItem::new("ends with cr\r");
    odd.done = true;
    list.items.push(odd);
    list.items.push(TodoItem { title: "  spaced  ".to_string(), done: false, tags: vec!["a b".to_string()], time_secs: 61 });
    let text = serialize_list(&list);
    assert!(text.starts_with("#   Loose name \n"));
    assert!(text.ends_with('\n'));
    let lines: Vec<&str> = text.lines().collect();
    assert_eq!(lines.len(), 2 + 1 + 2);
    assert!(lines[3].starts_with("- [x] "));
    assert!(lines[4].starts_with("- [ ] "));
}
