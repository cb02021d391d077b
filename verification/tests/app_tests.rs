use todui::app::App;
use todui::crdt::CrdtItem;
use todui::doc_ops::new_id;
use todui::model::{InputMode, ListType, Pane, SearchResult, SidebarEntry, TodoItem, TodoList};

/// The app's clock, once the app has run for a while: its moment of
/// origin is moved a minute back, so that moments before now have a time.
fn now_secs(app: &mut App) -> u64 {
    if app.clock_now() < 60 {
        app.clock_base = app.clock_base.checked_sub(std::time::Duration::from_secs(60)).unwrap();
    }
    app.clock_now()
}

/// Changes item `item_n` of the list at place `list_n` in display order.
fn set_item_field(app: &mut App, list_n: usize, item_n: usize, f: impl FnOnce(&mut CrdtItem)) {
    let id = app.item_id_in_list(list_n, item_n);
    if let Some(item) = app.doc.items.iter_mut().find(|i| i.id == id) {
        f(item);
    }
}

fn sample_app() -> App {
    let mut work = TodoList::new("Work");
    work.items.push(TodoItem {
        title: "Task A".to_string(),
        done: false,
        tags: vec!["code".to_string()],
        time_secs: 0,
    });
    work.items.push(TodoItem {
        title: "Task B".to_string(),
        done: true,
        tags: vec![],
        time_secs: 0,
    });
    work.items.push(TodoItem {
        title: "Task C".to_string(),
        done: false,
        tags: vec![],
        time_secs: 0,
    });
    let personal = TodoList::new("Personal");

    let mut app = App::with_lists(vec![work, personal]);
    app.active_pane = Pane::Main;
    app
}

fn search_app() -> App {
    let mut work = TodoList::new("Work");
    work.items.push(TodoItem {
        title: "Task A".to_string(),
        done: false,
        tags: vec!["code".to_string()],
        time_secs: 0,
    });
    work.items.push(TodoItem {
        title: "Task B".to_string(),
        done: true,
        tags: vec!["urgent".to_string()],
        time_secs: 0,
    });
    let mut personal = TodoList::new("Personal");
    personal.items.push(TodoItem {
        title: "Buy groceries".to_string(),
        done: false,
        tags: vec!["shopping".to_string()],
        time_secs: 0,
    });
    App::with_lists(vec![work, personal])
}

fn tagged_app() -> App {
    let mut work = TodoList::new("Work");
    work.items.push(TodoItem {
        title: "Task A".to_string(),
        done: false,
        tags: vec!["code".to_string(), "urgent".to_string()],
        time_secs: 0,
    });
    work.items.push(TodoItem {
        title: "Task B".to_string(),
        done: false,
        tags: vec!["meeting".to_string()],
        time_secs: 0,
    });
    work.items.push(TodoItem {
        title: "Task C".to_string(),
        done: false,
        tags: vec!["code".to_string()],
        time_secs: 0,
    });
    work.items.push(TodoItem {
        title: "Task D".to_string(),
        done: false,
        tags: vec![],
        time_secs: 0,
    });
    let mut personal = TodoList::new("Personal");
    personal.items.push(TodoItem {
        title: "Buy stuff".to_string(),
        done: false,
        tags: vec!["shopping".to_string()],
        time_secs: 0,
    });
    let mut app = App::with_lists(vec![work, personal]);
    app.active_pane = Pane::Main;
    app
}

fn many_items_app(count: usize) -> App {
    let mut list = TodoList::new("Work");
    for i in 0..count {
        list.items.push(TodoItem {
            title: format!("Task {}", i),
            done: false,
            tags: vec![],
            time_secs: 0,
        });
    }
    let mut app = App::with_lists(vec![list]);
    app.active_pane = Pane::Main;
    app
}

#[test]
fn app_test_toggle_pane() {
    let mut app = sample_app();
    assert_eq!(app.active_pane, Pane::Main);
    app.toggle_pane();
    assert_eq!(app.active_pane, Pane::Sidebar);
    app.toggle_pane();
    assert_eq!(app.active_pane, Pane::Main);
}

#[test]
fn test_navigation_sidebar() {
    let mut app = sample_app();
    app.active_pane = Pane::Sidebar;
    assert_eq!(app.selected_sidebar_index, 0);
    assert_eq!(app.selected_list_index, 0);

    app.move_selection_down();
    assert_eq!(app.selected_sidebar_index, 1);
    assert_eq!(app.selected_list_index, 1);
    assert_eq!(app.selected_item_index, 0);

    app.move_selection_down();
    assert_eq!(app.selected_sidebar_index, 2);
    assert!(app.is_tag_view());

    app.move_selection_down();
    assert_eq!(app.selected_sidebar_index, 2);

    app.move_selection_up();
    assert_eq!(app.selected_sidebar_index, 1);
    assert_eq!(app.selected_list_index, 1);
    assert_eq!(app.selected_item_index, 0);

    app.move_selection_up();
    assert_eq!(app.selected_sidebar_index, 0);
    assert_eq!(app.selected_list_index, 0);

    app.move_selection_up();
    assert_eq!(app.selected_sidebar_index, 0);
}

#[test]
fn test_navigation_main() {
    let mut app = sample_app();
    assert_eq!(app.selected_item_index, 0);

    app.move_selection_down();
    assert_eq!(app.selected_item_index, 1);

    app.move_selection_down();
    assert_eq!(app.selected_item_index, 2);

    app.move_selection_down();
    assert_eq!(app.selected_item_index, 2);

    app.move_selection_up();
    assert_eq!(app.selected_item_index, 1);

    app.move_selection_up();
    assert_eq!(app.selected_item_index, 0);

    app.move_selection_up();
    assert_eq!(app.selected_item_index, 0);
}

#[test]
fn app_test_toggle_done() {
    let mut app = sample_app();
    assert!(!app.items_for_nth_list(0)[0].done);

    app.toggle_done();
    assert!(app.items_for_nth_list(0)[0].done);

    // After toggling, sort order changes so selected_item_index=0 now maps to Task C
    app.toggle_done();
    assert!(app.items_for_nth_list(0)[2].done);
}

#[test]
fn app_test_delete_todo() {
    let mut app = sample_app();
    assert_eq!(app.items_for_nth_list(0).len(), 3);

    app.delete_todo();
    assert_eq!(app.items_for_nth_list(0).len(), 2);
    assert_eq!(app.items_for_nth_list(0)[0].title, "Task B");
    assert_eq!(app.items_for_nth_list(0)[1].title, "Task C");
}

#[test]
fn test_add_todo() {
    let mut app = sample_app();
    assert_eq!(app.items_for_nth_list(0).len(), 3);

    app.add_todo("New task @urgent @work".to_string());
    assert_eq!(app.items_for_nth_list(0).len(), 4);
    let added = &app.items_for_nth_list(0)[0];
    assert_eq!(added.title, "New task");
    assert_eq!(added.tags, vec!["urgent", "work"]);
    assert!(!added.done);
}

#[test]
fn test_add_todo_adjusts_selection_index() {
    let mut app = sample_app();
    app.selected_item_index = 1;
    let before_id = app.resolve_selected_item().unwrap();
    let before_title = app.doc.get_item(&before_id).unwrap().title.clone();

    app.add_todo("Inserted item".to_string());

    let after_id = app.resolve_selected_item().unwrap();
    let after_title = app.doc.get_item(&after_id).unwrap().title.clone();
    assert_eq!(
        before_title, after_title,
        "selection should stay on the same item after add"
    );
    assert_eq!(app.selected_item_index, 2);
}

#[test]
fn test_move_todo_up_down() {
    let mut app = sample_app();
    // Visible order (done sorted last): Task A (real 0), Task C (real 2), Task B (real 1)
    app.selected_item_index = 1; // Task C

    app.move_todo_up();
    // C swapped with A (visible neighbor), not B (real neighbor)
    assert_eq!(app.items_for_nth_list(0)[0].title, "Task C");
    assert_eq!(app.items_for_nth_list(0)[1].title, "Task B");
    assert_eq!(app.items_for_nth_list(0)[2].title, "Task A");
    assert_eq!(app.selected_item_index, 0);

    app.move_todo_down();
    // C swapped back with A
    assert_eq!(app.items_for_nth_list(0)[0].title, "Task A");
    assert_eq!(app.items_for_nth_list(0)[1].title, "Task B");
    assert_eq!(app.items_for_nth_list(0)[2].title, "Task C");
    assert_eq!(app.selected_item_index, 1);
}

#[test]
fn test_move_list_up() {
    let mut app = App::with_lists(vec![
        TodoList::new("Alpha"),
        TodoList::new("Beta"),
        TodoList::new("Gamma"),
    ]);
    app.active_pane = Pane::Sidebar;
    app.selected_list_index = 1;
    app.selected_sidebar_index = 1;

    app.move_list_up();
    assert_eq!(app.nth_list(0).unwrap().name, "Beta");
    assert_eq!(app.nth_list(1).unwrap().name, "Alpha");
    assert_eq!(app.selected_list_index, 0);
    assert_eq!(app.selected_sidebar_index, 0);

    app.move_list_up();
    assert_eq!(app.nth_list(0).unwrap().name, "Beta");
    assert_eq!(app.selected_list_index, 0);
    assert_eq!(app.selected_sidebar_index, 0);
}

#[test]
fn test_move_list_down() {
    let mut app = App::with_lists(vec![
        TodoList::new("Alpha"),
        TodoList::new("Beta"),
        TodoList::new("Gamma"),
    ]);
    app.active_pane = Pane::Sidebar;
    app.selected_list_index = 1;
    app.selected_sidebar_index = 1;

    app.move_list_down();
    assert_eq!(app.nth_list(1).unwrap().name, "Gamma");
    assert_eq!(app.nth_list(2).unwrap().name, "Beta");
    assert_eq!(app.selected_list_index, 2);
    assert_eq!(app.selected_sidebar_index, 2);

    app.move_list_down();
    assert_eq!(app.nth_list(2).unwrap().name, "Beta");
    assert_eq!(app.selected_list_index, 2);
    assert_eq!(app.selected_sidebar_index, 2);
}

#[test]
fn test_move_todo_to_top() {
    let mut app = App::with_lists(vec![{
        let mut list = TodoList::new("Work");
        list.items.push(TodoItem {
            title: "A".to_string(),
            done: false,
            tags: vec![],
            time_secs: 0,
        });
        list.items.push(TodoItem {
            title: "B".to_string(),
            done: false,
            tags: vec![],
            time_secs: 0,
        });
        list.items.push(TodoItem {
            title: "C".to_string(),
            done: false,
            tags: vec![],
            time_secs: 0,
        });
        list
    }]);
    app.active_pane = Pane::Main;
    app.selected_item_index = 2;

    app.move_todo_to_top();
    assert_eq!(app.items_for_nth_list(0)[0].title, "C");
    assert_eq!(app.items_for_nth_list(0)[1].title, "A");
    assert_eq!(app.items_for_nth_list(0)[2].title, "B");
    assert_eq!(app.selected_item_index, 0);
}

#[test]
fn test_move_todo_to_top_already_first() {
    let mut app = App::with_lists(vec![{
        let mut list = TodoList::new("Work");
        list.items.push(TodoItem {
            title: "A".to_string(),
            done: false,
            tags: vec![],
            time_secs: 0,
        });
        list.items.push(TodoItem {
            title: "B".to_string(),
            done: false,
            tags: vec![],
            time_secs: 0,
        });
        list
    }]);
    app.active_pane = Pane::Main;
    app.selected_item_index = 0;

    app.move_todo_to_top();
    assert_eq!(app.items_for_nth_list(0)[0].title, "A");
    assert_eq!(app.items_for_nth_list(0)[1].title, "B");
    assert_eq!(app.selected_item_index, 0);
}

#[test]
fn test_move_todo_to_bottom() {
    let mut app = App::with_lists(vec![{
        let mut list = TodoList::new("Work");
        list.items.push(TodoItem {
            title: "A".to_string(),
            done: false,
            tags: vec![],
            time_secs: 0,
        });
        list.items.push(TodoItem {
            title: "B".to_string(),
            done: false,
            tags: vec![],
            time_secs: 0,
        });
        list.items.push(TodoItem {
            title: "C".to_string(),
            done: false,
            tags: vec![],
            time_secs: 0,
        });
        list
    }]);
    app.active_pane = Pane::Main;
    app.selected_item_index = 0;

    app.move_todo_to_bottom();
    assert_eq!(app.items_for_nth_list(0)[0].title, "B");
    assert_eq!(app.items_for_nth_list(0)[1].title, "C");
    assert_eq!(app.items_for_nth_list(0)[2].title, "A");
    assert_eq!(app.selected_item_index, 2);
}

#[test]
fn test_move_todo_to_bottom_already_last() {
    let mut app = App::with_lists(vec![{
        let mut list = TodoList::new("Work");
        list.items.push(TodoItem {
            title: "A".to_string(),
            done: false,
            tags: vec![],
            time_secs: 0,
        });
        list.items.push(TodoItem {
            title: "B".to_string(),
            done: false,
            tags: vec![],
            time_secs: 0,
        });
        list
    }]);
    app.active_pane = Pane::Main;
    app.selected_item_index = 1;

    app.move_todo_to_bottom();
    assert_eq!(app.items_for_nth_list(0)[0].title, "A");
    assert_eq!(app.items_for_nth_list(0)[1].title, "B");
    assert_eq!(app.selected_item_index, 1);
}

#[test]
fn test_move_list_to_top() {
    let mut app = App::with_lists(vec![
        TodoList::new("Alpha"),
        TodoList::new("Beta"),
        TodoList::new("Gamma"),
    ]);
    app.active_pane = Pane::Sidebar;
    app.selected_list_index = 2;
    app.selected_sidebar_index = 2;

    app.move_list_to_top();
    assert_eq!(app.nth_list(0).unwrap().name, "Gamma");
    assert_eq!(app.nth_list(1).unwrap().name, "Alpha");
    assert_eq!(app.nth_list(2).unwrap().name, "Beta");
    assert_eq!(app.selected_list_index, 0);
    assert_eq!(app.selected_sidebar_index, 0);
}

#[test]
fn test_move_list_to_bottom() {
    let mut app = App::with_lists(vec![
        TodoList::new("Alpha"),
        TodoList::new("Beta"),
        TodoList::new("Gamma"),
    ]);
    app.active_pane = Pane::Sidebar;
    app.selected_list_index = 0;
    app.selected_sidebar_index = 0;

    app.move_list_to_bottom();
    assert_eq!(app.nth_list(0).unwrap().name, "Beta");
    assert_eq!(app.nth_list(1).unwrap().name, "Gamma");
    assert_eq!(app.nth_list(2).unwrap().name, "Alpha");
    assert_eq!(app.selected_list_index, 2);
    assert_eq!(app.selected_sidebar_index, 2);
}

#[test]
fn test_jump_to_first_main() {
    let mut app = sample_app();
    app.selected_item_index = 2;
    app.jump_to_first();
    assert_eq!(app.selected_item_index, 0);
}

#[test]
fn test_jump_to_last_main() {
    let mut app = sample_app();
    assert_eq!(app.selected_item_index, 0);
    app.jump_to_last();
    assert_eq!(app.selected_item_index, 2);
}

#[test]
fn test_jump_to_first_sidebar() {
    let mut app = App::with_lists(vec![
        TodoList::new("Alpha"),
        TodoList::new("Beta"),
        TodoList::new("Gamma"),
    ]);
    app.active_pane = Pane::Sidebar;
    app.selected_sidebar_index = 2;
    app.selected_list_index = 2;
    app.jump_to_first();
    assert_eq!(app.selected_sidebar_index, 0);
    assert_eq!(app.selected_list_index, 0);
}

#[test]
fn test_jump_to_last_sidebar() {
    let mut app = App::with_lists(vec![
        TodoList::new("Alpha"),
        TodoList::new("Beta"),
        TodoList::new("Gamma"),
    ]);
    app.active_pane = Pane::Sidebar;
    assert_eq!(app.selected_list_index, 0);
    app.jump_to_last();
    assert_eq!(app.selected_list_index, 2);
}

#[test]
fn test_add_list() {
    let mut app = sample_app();
    assert_eq!(app.num_lists(), 2);

    app.add_list("Shopping".to_string());
    assert_eq!(app.num_lists(), 3);
    assert_eq!(app.nth_list(2).unwrap().name, "Shopping");
    assert_eq!(app.selected_list_index, 2);
    assert_eq!(app.selected_item_index, 0);
}

#[test]
fn test_delete_list() {
    let mut app = sample_app();
    assert_eq!(app.num_lists(), 2);

    app.delete_list();
    assert_eq!(app.num_lists(), 1);
    assert_eq!(app.nth_list(0).unwrap().name, "Personal");
}

#[test]
fn test_delete_last_list_prevented() {
    let mut app = App::with_lists(vec![TodoList::new("Only")]);
    assert_eq!(app.num_lists(), 1);

    app.delete_list();
    assert_eq!(app.num_lists(), 1);
    assert_eq!(app.nth_list(0).unwrap().name, "Only");
}

#[test]
fn test_undo_redo() {
    let mut app = sample_app();
    assert_eq!(app.items_for_nth_list(0).len(), 3);

    app.delete_todo();
    assert_eq!(app.items_for_nth_list(0).len(), 2);

    app.undo();
    assert_eq!(app.items_for_nth_list(0).len(), 3);
    assert_eq!(app.items_for_nth_list(0)[0].title, "Task A");

    app.redo();
    assert_eq!(app.items_for_nth_list(0).len(), 2);
    assert_eq!(app.items_for_nth_list(0)[0].title, "Task B");
}

#[test]
fn test_undo_clears_redo_on_new_action() {
    let mut app = sample_app();

    app.delete_todo();
    assert_eq!(app.items_for_nth_list(0).len(), 2);

    app.undo();
    assert_eq!(app.items_for_nth_list(0).len(), 3);
    assert!(!app.redo_stack.is_empty());

    app.add_todo("Brand new".to_string());
    assert!(app.redo_stack.is_empty());
}

#[test]
fn app_test_toggle_show_done() {
    let mut app = sample_app();
    assert_eq!(app.visible_items().len(), 3);

    app.toggle_show_done();
    let visible = app.visible_items();
    assert_eq!(visible.len(), 2);
    assert_eq!(visible[0].1.title, "Task A");
    assert_eq!(visible[1].1.title, "Task C");

    app.toggle_show_done();
    assert_eq!(app.visible_items().len(), 3);
}

#[test]
fn test_input_buffer() {
    let mut app = sample_app();
    app.start_input(InputMode::AddingItem, "");
    assert_eq!(app.input_mode, InputMode::AddingItem);
    assert_eq!(app.input_buffer, "");
    assert_eq!(app.input_cursor, 0);

    app.input_insert_char('H');
    app.input_insert_char('i');
    assert_eq!(app.input_buffer, "Hi");
    assert_eq!(app.input_cursor, 2);

    app.input_move_cursor_left();
    assert_eq!(app.input_cursor, 1);

    app.input_insert_char('x');
    assert_eq!(app.input_buffer, "Hxi");
    assert_eq!(app.input_cursor, 2);

    app.input_delete_char();
    assert_eq!(app.input_buffer, "Hi");
    assert_eq!(app.input_cursor, 1);

    app.input_move_cursor_right();
    assert_eq!(app.input_cursor, 2);

    app.cancel_input();
    assert_eq!(app.input_mode, InputMode::Normal);
    assert_eq!(app.input_buffer, "");
    assert_eq!(app.input_cursor, 0);
}

#[test]
fn test_input_chars_before_cursor() {
    let mut app = sample_app();
    app.start_input(InputMode::AddingItem, "");
    assert_eq!(app.input_chars_before_cursor(), 0);

    app.input_insert_char('a');
    app.input_insert_char('b');
    app.input_insert_char('c');
    assert_eq!(app.input_chars_before_cursor(), 3);

    app.input_move_cursor_left();
    assert_eq!(app.input_chars_before_cursor(), 2);

    app.input_move_cursor_left();
    app.input_move_cursor_left();
    assert_eq!(app.input_chars_before_cursor(), 0);
}

#[test]
fn test_input_chars_before_cursor_multibyte() {
    let mut app = sample_app();
    app.start_input(InputMode::AddingItem, "");
    for c in "café".chars() {
        app.input_insert_char(c);
    }
    assert_eq!(app.input_chars_before_cursor(), 4);
    assert_eq!(app.input_cursor, "café".len());

    app.input_move_cursor_left();
    assert_eq!(app.input_chars_before_cursor(), 3);
}

#[test]
fn test_search_results_matches_title() {
    let mut app = search_app();
    app.start_search();
    app.input_buffer = "Task".to_string();
    app.update_search_results();
    assert_eq!(app.search_results.len(), 2);
    assert!(matches!(&app.search_results[0], SearchResult::Item(_)));
    assert!(matches!(&app.search_results[1], SearchResult::Item(_)));
}

#[test]
fn test_search_results_matches_tags() {
    let mut app = search_app();
    app.start_search();
    app.input_buffer = "urgent".to_string();
    app.update_search_results();
    assert_eq!(app.search_results.len(), 2);
    assert_eq!(app.search_results[0], SearchResult::Tag("urgent".into()));
    assert!(matches!(&app.search_results[1], SearchResult::Item(_)));
}

#[test]
fn test_search_results_matches_list_name() {
    let mut app = search_app();
    app.start_search();
    app.input_buffer = "Personal".to_string();
    app.update_search_results();
    assert!(
        app.search_results
            .iter()
            .any(|r| *r == SearchResult::List(1))
    );
}

#[test]
fn test_search_results_case_insensitive() {
    let mut app = search_app();
    app.start_search();
    app.input_buffer = "TASK".to_string();
    app.update_search_results();
    assert_eq!(app.search_results.len(), 2);
}

#[test]
fn test_search_results_empty_query() {
    let mut app = search_app();
    app.start_search();
    app.input_buffer.clear();
    app.update_search_results();
    assert!(app.search_results.is_empty());
}

#[test]
fn test_search_select_next_prev() {
    let mut app = search_app();
    app.start_search();
    app.input_buffer = "Task".to_string();
    app.update_search_results();
    assert_eq!(app.search_selected, 0);

    app.search_select_next();
    assert_eq!(app.search_selected, 1);

    app.search_select_next();
    assert_eq!(app.search_selected, 1);

    app.search_select_prev();
    assert_eq!(app.search_selected, 0);

    app.search_select_prev();
    assert_eq!(app.search_selected, 0);
}

#[test]
fn test_select_search_result_list() {
    let mut app = search_app();
    app.start_search();
    app.input_buffer = "Personal".to_string();
    app.update_search_results();
    let list_pos = app
        .search_results
        .iter()
        .position(|r| matches!(r, SearchResult::List(1)))
        .unwrap();
    app.search_selected = list_pos;
    app.select_search_result();

    assert_eq!(app.selected_list_index, 1);
    assert_eq!(app.selected_item_index, 0);
    assert_eq!(app.active_pane, Pane::Main);
    assert_eq!(app.input_mode, InputMode::Normal);
    assert!(app.search_results.is_empty());
}

#[test]
fn test_select_search_result_item() {
    let mut app = search_app();
    app.start_search();
    app.input_buffer = "groceries".to_string();
    app.update_search_results();
    assert_eq!(app.search_results.len(), 1);
    assert!(matches!(&app.search_results[0], SearchResult::Item(_)));

    app.select_search_result();
    assert_eq!(app.selected_list_index, 1);
    assert_eq!(app.active_pane, Pane::Main);
    assert_eq!(app.selected_item_index, 0);
    assert_eq!(app.input_mode, InputMode::Normal);
}

#[test]
fn test_select_search_result_done_item_enables_show_done() {
    let mut app = search_app();
    app.show_done = false;
    app.start_search();
    app.input_buffer = "Task B".to_string();
    app.update_search_results();
    assert!(matches!(&app.search_results[0], SearchResult::Item(_)));
    app.select_search_result();
    assert!(app.show_done);
    assert_eq!(app.selected_list_index, 0);
    assert_eq!(app.active_pane, Pane::Main);
}

#[test]
fn test_start_focus() {
    let mut app = sample_app();
    app.selected_item_index = 0;
    app.start_focus();
    assert_eq!(app.input_mode, InputMode::Focused);
    assert!(app.focus_start.is_some());
    assert_eq!(app.focus_accumulated, 0);
}

#[test]
fn test_stop_focus_accumulates_time() {
    let mut app = sample_app();
    app.selected_item_index = 0;
    app.start_focus();
    app.focus_start = Some(now_secs(&mut app) - 10);
    app.stop_focus();
    assert_eq!(app.input_mode, InputMode::Normal);
    assert!(app.items_for_nth_list(0)[0].time_secs >= 9);
}

#[test]
fn test_pause_resume_focus() {
    let mut app = sample_app();
    app.selected_item_index = 0;
    app.start_focus();
    app.focus_start = Some(now_secs(&mut app) - 5);
    app.toggle_pause_focus();
    assert!(app.focus_start.is_none());
    assert!(app.focus_accumulated >= 4);

    app.toggle_pause_focus();
    assert!(app.focus_start.is_some());
}

#[test]
fn test_edit_time() {
    let mut app = sample_app();
    app.selected_item_index = 0;
    set_item_field(&mut app, 0, 0, |item| item.time_secs = 3600);
    app.set_item_time(5400);
    assert_eq!(app.items_for_nth_list(0)[0].time_secs, 5400);
}

#[test]
fn test_edit_time_clear() {
    let mut app = sample_app();
    app.selected_item_index = 0;
    set_item_field(&mut app, 0, 0, |item| item.time_secs = 3600);
    app.input_mode = InputMode::EditingTime;
    app.input_buffer.clear();
    app.confirm_input();
    assert_eq!(app.items_for_nth_list(0)[0].time_secs, 0);
}

#[test]
fn test_start_focus_no_items() {
    let mut app = App::with_lists(vec![TodoList::new("Empty")]);
    app.active_pane = Pane::Main;
    app.start_focus();
    assert_eq!(app.input_mode, InputMode::Normal);
}

#[test]
fn test_start_filter_collects_tags() {
    let mut app = tagged_app();
    app.start_filter();
    assert_eq!(app.input_mode, InputMode::FilteringTags);
    assert_eq!(app.filter_available_tags, vec!["code", "meeting", "urgent"]);
    assert_eq!(app.filter_selected, vec![false, false, false]);
}

#[test]
fn test_start_filter_no_tags() {
    let mut app = App::with_lists(vec![TodoList::new("Empty")]);
    app.active_pane = Pane::Main;
    app.start_filter();
    assert_eq!(app.input_mode, InputMode::Normal);
}

#[test]
fn test_toggle_filter_tag() {
    let mut app = tagged_app();
    app.start_filter();
    app.toggle_filter_tag();
    assert_eq!(app.filter_selected, vec![true, false, false]);
    app.toggle_filter_tag();
    assert_eq!(app.filter_selected, vec![false, false, false]);
}

#[test]
fn test_filter_navigation() {
    let mut app = tagged_app();
    app.start_filter();
    assert_eq!(app.filter_cursor, 0);
    app.filter_move_down();
    assert_eq!(app.filter_cursor, 1);
    app.filter_move_down();
    assert_eq!(app.filter_cursor, 2);
    app.filter_move_down();
    assert_eq!(app.filter_cursor, 2);
    app.filter_move_up();
    assert_eq!(app.filter_cursor, 1);
    app.filter_move_up();
    assert_eq!(app.filter_cursor, 0);
    app.filter_move_up();
    assert_eq!(app.filter_cursor, 0);
}

#[test]
fn test_confirm_filter_applies_tags() {
    let mut app = tagged_app();
    app.start_filter();
    app.toggle_filter_tag();
    app.confirm_filter();
    assert_eq!(app.input_mode, InputMode::Normal);
    assert_eq!(app.filter_tags, vec!["code"]);
}

#[test]
fn test_cancel_filter() {
    let mut app = tagged_app();
    app.start_filter();
    app.toggle_filter_tag();
    app.cancel_filter();
    assert_eq!(app.input_mode, InputMode::Normal);
    assert!(app.filter_tags.is_empty());
}

#[test]
fn test_visible_items_with_filter() {
    let mut app = tagged_app();
    assert_eq!(app.visible_items().len(), 4);

    app.filter_tags = vec!["code".to_string()];
    let visible = app.visible_items();
    assert_eq!(visible.len(), 2);
    assert_eq!(visible[0].1.title, "Task A");
    assert_eq!(visible[1].1.title, "Task C");
}

#[test]
fn test_visible_items_filter_or_logic() {
    let mut app = tagged_app();
    app.filter_tags = vec!["code".to_string(), "meeting".to_string()];
    let visible = app.visible_items();
    assert_eq!(visible.len(), 3);
}

#[test]
fn test_filter_cleared_on_list_change() {
    let mut app = tagged_app();
    app.filter_tags = vec!["code".to_string()];
    app.active_pane = Pane::Sidebar;
    app.move_selection_down();
    assert!(app.filter_tags.is_empty());
}

#[test]
fn test_start_filter_preserves_active_filter() {
    let mut app = tagged_app();
    app.filter_tags = vec!["code".to_string()];
    app.start_filter();
    assert_eq!(app.filter_selected, vec![true, false, false]);
}

#[test]
fn test_collect_all_tags() {
    let app = tagged_app();
    let tags = app.collect_all_tags();
    assert_eq!(tags, vec!["code", "meeting", "shopping", "urgent"]);
}

#[test]
fn test_autocomplete_activates_on_at() {
    let mut app = tagged_app();
    app.start_input(InputMode::AddingItem, "");
    app.input_insert_char('@');
    app.update_autocomplete();
    assert!(app.autocomplete_active);
    assert_eq!(app.autocomplete_suggestions.len(), 4);
}

#[test]
fn test_autocomplete_filters_by_partial() {
    let mut app = tagged_app();
    app.start_input(InputMode::AddingItem, "");
    app.input_insert_char('@');
    app.input_insert_char('c');
    app.update_autocomplete();
    assert!(app.autocomplete_active);
    assert_eq!(app.autocomplete_suggestions, vec!["code"]);
}

#[test]
fn test_autocomplete_no_match_dismisses() {
    let mut app = tagged_app();
    app.start_input(InputMode::AddingItem, "");
    app.input_insert_char('@');
    app.input_insert_char('z');
    app.input_insert_char('z');
    app.input_insert_char('z');
    app.update_autocomplete();
    assert!(!app.autocomplete_active);
    assert!(app.autocomplete_suggestions.is_empty());
}

#[test]
fn test_accept_autocomplete() {
    let mut app = tagged_app();
    app.start_input(InputMode::AddingItem, "");
    app.input_insert_char('@');
    app.input_insert_char('c');
    app.update_autocomplete();
    assert!(app.autocomplete_active);

    app.accept_autocomplete();
    assert_eq!(app.input_buffer, "@code");
    assert_eq!(app.input_cursor, 5);
    assert!(!app.autocomplete_active);
}

#[test]
fn test_autocomplete_with_preceding_text() {
    let mut app = tagged_app();
    app.start_input(InputMode::AddingItem, "");
    for c in "Do stuff ".chars() {
        app.input_insert_char(c);
    }
    app.input_insert_char('@');
    app.input_insert_char('u');
    app.update_autocomplete();
    assert!(app.autocomplete_active);
    assert_eq!(app.autocomplete_suggestions, vec!["urgent"]);

    app.accept_autocomplete();
    assert_eq!(app.input_buffer, "Do stuff @urgent");
}

#[test]
fn test_autocomplete_navigation() {
    let mut app = tagged_app();
    app.start_input(InputMode::AddingItem, "");
    app.input_insert_char('@');
    app.update_autocomplete();
    assert_eq!(app.autocomplete_cursor, 0);

    app.autocomplete_move_down();
    assert_eq!(app.autocomplete_cursor, 1);

    app.autocomplete_move_up();
    assert_eq!(app.autocomplete_cursor, 0);

    app.autocomplete_move_up();
    assert_eq!(app.autocomplete_cursor, 0);
}

#[test]
fn test_dismiss_autocomplete() {
    let mut app = tagged_app();
    app.start_input(InputMode::AddingItem, "");
    app.input_insert_char('@');
    app.update_autocomplete();
    assert!(app.autocomplete_active);

    app.dismiss_autocomplete();
    assert!(!app.autocomplete_active);
}

#[test]
fn test_autocomplete_inactive_in_normal_mode() {
    let mut app = tagged_app();
    app.input_buffer = "@c".to_string();
    app.input_cursor = 2;
    app.update_autocomplete();
    assert!(!app.autocomplete_active);
}

#[test]
fn test_autocomplete_works_in_editing_tags() {
    let mut app = tagged_app();
    app.start_input(InputMode::EditingTags, "");
    app.input_insert_char('@');
    app.update_autocomplete();
    assert!(app.autocomplete_active);
}

#[test]
fn test_page_down_main() {
    let mut app = many_items_app(20);
    assert_eq!(app.selected_item_index, 0);
    app.page_down(10);
    assert_eq!(app.selected_item_index, 10);
    app.page_down(10);
    assert_eq!(app.selected_item_index, 19);
}

#[test]
fn test_page_up_main() {
    let mut app = many_items_app(20);
    app.selected_item_index = 19;
    app.page_up(10);
    assert_eq!(app.selected_item_index, 9);
    app.page_up(10);
    assert_eq!(app.selected_item_index, 0);
}

#[test]
fn test_page_down_clamps_to_last() {
    let mut app = many_items_app(5);
    app.selected_item_index = 3;
    app.page_down(10);
    assert_eq!(app.selected_item_index, 4);
}

#[test]
fn test_page_up_clamps_to_zero() {
    let mut app = many_items_app(5);
    app.selected_item_index = 2;
    app.page_up(10);
    assert_eq!(app.selected_item_index, 0);
}

#[test]
fn test_page_down_sidebar() {
    let mut app = App::with_lists(vec![
        TodoList::new("A"),
        TodoList::new("B"),
        TodoList::new("C"),
        TodoList::new("D"),
        TodoList::new("E"),
    ]);
    app.active_pane = Pane::Sidebar;
    assert_eq!(app.selected_list_index, 0);
    app.page_down(3);
    assert_eq!(app.selected_list_index, 3);
    assert!(app.filter_tags.is_empty());
    app.page_down(3);
    assert_eq!(app.selected_list_index, 4);
}

#[test]
fn test_page_up_sidebar() {
    let mut app = App::with_lists(vec![
        TodoList::new("A"),
        TodoList::new("B"),
        TodoList::new("C"),
        TodoList::new("D"),
        TodoList::new("E"),
    ]);
    app.active_pane = Pane::Sidebar;
    app.selected_sidebar_index = 4;
    app.selected_list_index = 4;
    app.page_up(3);
    assert_eq!(app.selected_sidebar_index, 1);
    assert_eq!(app.selected_list_index, 1);
    app.page_up(3);
    assert_eq!(app.selected_sidebar_index, 0);
    assert_eq!(app.selected_list_index, 0);
}

#[test]
fn test_page_down_sidebar_clears_filter() {
    let mut app = App::with_lists(vec![
        TodoList::new("A"),
        TodoList::new("B"),
        TodoList::new("C"),
    ]);
    app.active_pane = Pane::Sidebar;
    app.filter_tags = vec!["tag".to_string()];
    app.page_down(1);
    assert!(app.filter_tags.is_empty());
}

#[test]
fn test_page_up_sidebar_clears_filter() {
    let mut app = App::with_lists(vec![
        TodoList::new("A"),
        TodoList::new("B"),
        TodoList::new("C"),
    ]);
    app.active_pane = Pane::Sidebar;
    app.selected_sidebar_index = 2;
    app.selected_list_index = 2;
    app.filter_tags = vec!["tag".to_string()];
    app.page_up(1);
    assert!(app.filter_tags.is_empty());
}

#[test]
fn test_page_down_empty_list() {
    let mut app = App::with_lists(vec![TodoList::new("Empty")]);
    app.active_pane = Pane::Main;
    app.page_down(10);
    assert_eq!(app.selected_item_index, 0);
}

#[test]
fn test_toggle_select_current() {
    let mut app = sample_app();
    app.selected_item_index = 0;
    app.toggle_select_current();
    assert_eq!(app.selected_items.len(), 1);
    app.toggle_select_current();
    assert!(app.selected_items.is_empty());
}

#[test]
fn test_delete_selected_multiple() {
    let mut app = sample_app();
    // Visible order: Task A, Task C, Task B (done)
    let id_a = app.visible_items()[0].0.to_string();
    let id_c = app.visible_items()[1].0.to_string();
    app.selected_items.push(id_a);
    app.selected_items.push(id_c);
    app.delete_selected();
    assert_eq!(app.items_for_nth_list(0).len(), 1);
    assert_eq!(app.items_for_nth_list(0)[0].title, "Task B");
    assert!(app.selected_items.is_empty());
}

#[test]
fn test_delete_selected_falls_back() {
    let mut app = sample_app();
    assert!(app.selected_items.is_empty());
    app.delete_selected();
    assert_eq!(app.items_for_nth_list(0).len(), 2);
}

#[test]
fn test_toggle_done_selected_multiple() {
    let mut app = sample_app();
    // Visible: Task A (not done), Task C (not done), Task B (done)
    let id_a = app.visible_items()[0].0.to_string();
    let id_c = app.visible_items()[1].0.to_string();
    app.selected_items.push(id_a.clone());
    app.selected_items.push(id_c.clone());
    app.toggle_done_selected();
    assert!(app.doc.get_item(&id_a).unwrap().done);
    assert!(app.doc.get_item(&id_c).unwrap().done);
    assert!(app.selected_items.is_empty());
}

#[test]
fn test_selection_cleared_on_pane_switch() {
    let mut app = sample_app();
    let id = app.visible_items()[0].0.to_string();
    app.selected_items.push(id);
    app.toggle_pane();
    assert!(app.selected_items.is_empty());
}

#[test]
fn test_selection_cleared_on_list_change() {
    let mut app = sample_app();
    app.active_pane = Pane::Sidebar;
    let id = app.visible_items()[0].0.to_string();
    app.selected_items.push(id);
    app.move_selection_down();
    assert!(app.selected_items.is_empty());
}

#[test]
fn test_selection_cleared_on_undo() {
    let mut app = sample_app();
    app.delete_todo();
    let id = app.visible_items()[0].0.to_string();
    app.selected_items.push(id);
    app.undo();
    assert!(app.selected_items.is_empty());
}

#[test]
fn test_start_move_to_list() {
    let mut app = sample_app();
    app.start_move_to_list();
    assert_eq!(app.input_mode, InputMode::MovingToList);
    assert_eq!(app.move_to_list_cursor, 0);
}

#[test]
fn test_start_move_to_list_single_list() {
    let mut list = TodoList::new("Only");
    list.items.push(TodoItem::new("Item"));
    let mut app = App::with_lists(vec![list]);
    app.active_pane = Pane::Main;
    app.start_move_to_list();
    assert_eq!(app.input_mode, InputMode::Normal);
}

#[test]
fn test_move_to_list_targets() {
    let mut app = sample_app();
    let targets = app.move_to_list_targets();
    assert_eq!(targets.len(), 1);
    assert_eq!(targets[0], (1, "Personal"));

    app.selected_list_index = 1;
    let targets = app.move_to_list_targets();
    assert_eq!(targets.len(), 1);
    assert_eq!(targets[0], (0, "Work"));
}

#[test]
fn test_confirm_move_single_item() {
    let mut app = sample_app();
    app.selected_item_index = 0; // Task A
    app.start_move_to_list();
    app.confirm_move_to_list();
    assert_eq!(app.items_for_nth_list(0).len(), 2);
    assert_eq!(app.items_for_nth_list(1).len(), 1);
    assert_eq!(app.items_for_nth_list(1)[0].title, "Task A");
    assert_eq!(app.input_mode, InputMode::Normal);
}

#[test]
fn test_confirm_move_multi_selected() {
    let mut app = sample_app();
    let id_a = app.visible_items()[0].0.to_string(); // Task A
    let id_c = app.visible_items()[1].0.to_string(); // Task C
    app.selected_items.push(id_a);
    app.selected_items.push(id_c);
    app.start_move_to_list();
    app.confirm_move_to_list();
    assert_eq!(app.items_for_nth_list(0).len(), 1);
    assert_eq!(app.items_for_nth_list(0)[0].title, "Task B");
    assert_eq!(app.items_for_nth_list(1).len(), 2);
    assert_eq!(app.items_for_nth_list(1)[0].title, "Task A");
    assert_eq!(app.items_for_nth_list(1)[1].title, "Task C");
    assert!(app.selected_items.is_empty());
}

#[test]
fn test_move_to_list_undoable() {
    let mut app = sample_app();
    app.selected_item_index = 0;
    app.start_move_to_list();
    app.confirm_move_to_list();
    assert_eq!(app.items_for_nth_list(0).len(), 2);
    assert_eq!(app.items_for_nth_list(1).len(), 1);
    app.undo();
    assert_eq!(app.items_for_nth_list(0).len(), 3);
    assert_eq!(app.items_for_nth_list(1).len(), 0);
}

#[test]
fn test_cancel_move_to_list() {
    let mut app = sample_app();
    app.start_move_to_list();
    assert_eq!(app.input_mode, InputMode::MovingToList);
    app.cancel_move_to_list();
    assert_eq!(app.input_mode, InputMode::Normal);
    assert_eq!(app.items_for_nth_list(0).len(), 3);
}

#[test]
fn test_move_to_list_navigation() {
    let mut app = App::with_lists(vec![
        {
            let mut l = TodoList::new("A");
            l.items.push(TodoItem::new("Item"));
            l
        },
        TodoList::new("B"),
        TodoList::new("C"),
    ]);
    app.active_pane = Pane::Main;
    app.start_move_to_list();
    assert_eq!(app.move_to_list_cursor, 0);
    app.move_to_list_move_down();
    assert_eq!(app.move_to_list_cursor, 1);
    app.move_to_list_move_down();
    assert_eq!(app.move_to_list_cursor, 1); // can't go past end
    app.move_to_list_move_up();
    assert_eq!(app.move_to_list_cursor, 0);
    app.move_to_list_move_up();
    assert_eq!(app.move_to_list_cursor, 0); // can't go past start
}

#[test]
fn test_move_to_list_filter() {
    let mut app = App::with_lists(vec![
        {
            let mut l = TodoList::new("Work");
            l.items.push(TodoItem::new("Item"));
            l
        },
        TodoList::new("Personal"),
        TodoList::new("Projects"),
    ]);
    app.active_pane = Pane::Main;
    app.start_move_to_list();
    assert_eq!(app.move_to_list_targets().len(), 2);

    app.move_to_list_insert_char('p');
    let targets = app.move_to_list_targets();
    assert_eq!(targets.len(), 2);
    assert_eq!(targets[0].1, "Personal");
    assert_eq!(targets[1].1, "Projects");

    app.move_to_list_insert_char('r');
    let targets = app.move_to_list_targets();
    assert_eq!(targets.len(), 1);
    assert_eq!(targets[0].1, "Projects");
    assert_eq!(app.move_to_list_cursor, 0);

    app.move_to_list_delete_char();
    assert_eq!(app.move_to_list_targets().len(), 2);

    app.move_to_list_insert_char('e');
    app.move_to_list_insert_char('r');
    let targets = app.move_to_list_targets();
    assert_eq!(targets.len(), 1);
    assert_eq!(targets[0].1, "Personal");
}

#[test]
fn test_move_to_list_filter_cleared_on_start() {
    let mut app = sample_app();
    app.move_to_list_filter = "stale".to_string();
    app.start_move_to_list();
    assert!(app.move_to_list_filter.is_empty());
}

#[test]
fn test_toggle_list_type() {
    let mut app = App::with_lists(vec![TodoList::new("Habits")]);
    app.active_pane = Pane::Sidebar;
    assert_eq!(app.nth_list(0).unwrap().list_type, "normal");

    app.toggle_list_type();
    assert_eq!(app.nth_list(0).unwrap().list_type, "daily");
    assert!(app.nth_list(0).unwrap().last_reset.is_some());

    app.toggle_list_type();
    assert_eq!(app.nth_list(0).unwrap().list_type, "normal");
    assert_eq!(app.nth_list(0).unwrap().last_reset, None);
}

#[test]
fn test_reset_daily_lists() {
    let mut list = TodoList::new("Daily");
    list.list_type = ListType::Daily;
    list.last_reset = Some("2020-01-01".to_string());
    list.items.push(TodoItem::new("A"));
    list.items[0].time_secs = 300;
    list.items.push(TodoItem::new("B"));
    list.items[1].done = true;
    list.items[1].time_secs = 600;
    list.items.push(TodoItem::new("C"));
    list.items[2].done = true;
    list.items[2].time_secs = 900;

    let mut app = App::with_lists(vec![list]);
    app.reset_daily_lists();

    assert!(!app.items_for_nth_list(0)[0].done);
    assert!(!app.items_for_nth_list(0)[1].done);
    assert!(!app.items_for_nth_list(0)[2].done);
    // A stays at top, B and C moved to bottom
    assert_eq!(app.items_for_nth_list(0)[0].title, "A");
    assert_eq!(app.items_for_nth_list(0)[1].title, "B");
    assert_eq!(app.items_for_nth_list(0)[2].title, "C");
    // A (not done) keeps its timer, B and C (were done) get cleared
    assert_eq!(app.items_for_nth_list(0)[0].time_secs, 300);
    assert_eq!(app.items_for_nth_list(0)[1].time_secs, 0);
    assert_eq!(app.items_for_nth_list(0)[2].time_secs, 0);
}

#[test]
fn test_reset_daily_lists_same_day_no_op() {
    let today = chrono::Local::now().format("%Y-%m-%d").to_string();
    let mut list = TodoList::new("Daily");
    list.list_type = ListType::Daily;
    list.last_reset = Some(today);
    list.items.push(TodoItem::new("A"));
    list.items[0].done = true;

    let mut app = App::with_lists(vec![list]);
    app.reset_daily_lists();

    assert!(app.items_for_nth_list(0)[0].done);
}

#[test]
fn test_reset_daily_lists_skips_normal() {
    let mut list = TodoList::new("Normal");
    list.last_reset = Some("2020-01-01".to_string());
    list.items.push(TodoItem::new("A"));
    list.items[0].done = true;

    let mut app = App::with_lists(vec![list]);
    app.reset_daily_lists();

    assert!(app.items_for_nth_list(0)[0].done);
}

#[test]
fn test_reset_daily_preserves_order() {
    let mut list = TodoList::new("Daily");
    list.list_type = ListType::Daily;
    list.last_reset = Some("2020-01-01".to_string());
    // Items: A(not done), B(done), C(not done), D(done), E(not done)
    list.items.push(TodoItem::new("A"));
    list.items.push(TodoItem::new("B"));
    list.items[1].done = true;
    list.items.push(TodoItem::new("C"));
    list.items.push(TodoItem::new("D"));
    list.items[3].done = true;
    list.items.push(TodoItem::new("E"));

    let mut app = App::with_lists(vec![list]);
    app.reset_daily_lists();

    // Not-done items stay in place, done items (B, D) move to end in order
    assert_eq!(app.items_for_nth_list(0)[0].title, "A");
    assert_eq!(app.items_for_nth_list(0)[1].title, "C");
    assert_eq!(app.items_for_nth_list(0)[2].title, "E");
    assert_eq!(app.items_for_nth_list(0)[3].title, "B");
    assert_eq!(app.items_for_nth_list(0)[4].title, "D");
    // All should be not done
    for item in app.items_for_nth_list(0) {
        assert!(!item.done);
    }
}

#[test]
fn test_move_todo_down_repeated_with_done_items() {
    let mut list = TodoList::new("Work");
    list.items.push(TodoItem {
        title: "A".to_string(),
        done: false,
        tags: vec![],
        time_secs: 0,
    });
    list.items.push(TodoItem {
        title: "B".to_string(),
        done: true,
        tags: vec![],
        time_secs: 0,
    });
    list.items.push(TodoItem {
        title: "C".to_string(),
        done: false,
        tags: vec![],
        time_secs: 0,
    });
    list.items.push(TodoItem {
        title: "D".to_string(),
        done: false,
        tags: vec![],
        time_secs: 0,
    });
    let mut app = App::with_lists(vec![list]);
    app.active_pane = Pane::Main;
    // Visible order: A(real 0), C(real 2), D(real 3), B(real 1)
    // Cursor at visible[0] = A
    assert_eq!(app.selected_item_index, 0);

    // Move A down: should swap A with C (next visible), cursor follows A
    app.move_todo_down();
    let visible = app.visible_items();
    assert_eq!(visible[app.selected_item_index].1.title, "A");

    // Move A down again: should swap A with D (next visible), cursor follows A
    app.move_todo_down();
    let visible = app.visible_items();
    assert_eq!(visible[app.selected_item_index].1.title, "A");
}

#[test]
fn test_move_todo_up_repeated_with_done_items() {
    let mut list = TodoList::new("Work");
    list.items.push(TodoItem {
        title: "A".to_string(),
        done: false,
        tags: vec![],
        time_secs: 0,
    });
    list.items.push(TodoItem {
        title: "B".to_string(),
        done: true,
        tags: vec![],
        time_secs: 0,
    });
    list.items.push(TodoItem {
        title: "C".to_string(),
        done: false,
        tags: vec![],
        time_secs: 0,
    });
    list.items.push(TodoItem {
        title: "D".to_string(),
        done: false,
        tags: vec![],
        time_secs: 0,
    });
    let mut app = App::with_lists(vec![list]);
    app.active_pane = Pane::Main;
    // Visible order: A(real 0), C(real 2), D(real 3), B(real 1)
    // Start cursor at visible[2] = D
    app.selected_item_index = 2;

    // Move D up: should swap D with C (prev visible), cursor follows D
    app.move_todo_up();
    let visible = app.visible_items();
    assert_eq!(visible[app.selected_item_index].1.title, "D");

    // Move D up again: should swap D with A (prev visible), cursor follows D
    app.move_todo_up();
    let visible = app.visible_items();
    assert_eq!(visible[app.selected_item_index].1.title, "D");
}

#[test]
fn test_rebuild_sidebar_entries_no_tags() {
    let app = App::with_lists(vec![TodoList::new("Work"), TodoList::new("Personal")]);
    assert_eq!(app.sidebar_entries.len(), 2);
    assert_eq!(app.sidebar_entries[0], SidebarEntry::List(0));
    assert_eq!(app.sidebar_entries[1], SidebarEntry::List(1));
}

#[test]
fn test_rebuild_sidebar_entries_with_tags() {
    let mut work = TodoList::new("Work");
    work.items.push(TodoItem {
        title: "A".into(),
        done: false,
        tags: vec!["urgent".into(), "code".into()],
        time_secs: 0,
    });
    let mut personal = TodoList::new("Personal");
    personal.items.push(TodoItem {
        title: "B".into(),
        done: false,
        tags: vec!["urgent".into()],
        time_secs: 0,
    });
    let app = App::with_lists(vec![work, personal]);
    assert_eq!(app.sidebar_entries.len(), 4);
    assert_eq!(app.sidebar_entries[0], SidebarEntry::List(0));
    assert_eq!(app.sidebar_entries[1], SidebarEntry::List(1));
    assert_eq!(app.sidebar_entries[2], SidebarEntry::Tag("code".into()));
    assert_eq!(app.sidebar_entries[3], SidebarEntry::Tag("urgent".into()));
}

#[test]
fn test_is_tag_view() {
    let mut work = TodoList::new("Work");
    work.items.push(TodoItem {
        title: "A".into(),
        done: false,
        tags: vec!["code".into()],
        time_secs: 0,
    });
    let mut app = App::with_lists(vec![work]);
    assert!(!app.is_tag_view());
    app.selected_sidebar_index = 1;
    assert!(app.is_tag_view());
}

#[test]
fn test_tag_visible_items() {
    let mut work = TodoList::new("Work");
    work.items.push(TodoItem {
        title: "A".into(),
        done: false,
        tags: vec!["urgent".into()],
        time_secs: 0,
    });
    work.items.push(TodoItem {
        title: "B".into(),
        done: false,
        tags: vec![],
        time_secs: 0,
    });
    let mut personal = TodoList::new("Personal");
    personal.items.push(TodoItem {
        title: "C".into(),
        done: true,
        tags: vec!["urgent".into()],
        time_secs: 0,
    });
    let mut app = App::with_lists(vec![work, personal]);
    app.selected_sidebar_index = 2; // Tag("urgent")
    let items = app.tag_visible_items();
    assert_eq!(items.len(), 2);
    assert_eq!(items[0].1.title, "A"); // Work/A (not done)
    assert_eq!(items[1].1.title, "C"); // Personal/C (done)
}

#[test]
fn test_tag_visible_items_respects_show_done() {
    let mut work = TodoList::new("Work");
    work.items.push(TodoItem {
        title: "A".into(),
        done: false,
        tags: vec!["urgent".into()],
        time_secs: 0,
    });
    let mut personal = TodoList::new("Personal");
    personal.items.push(TodoItem {
        title: "C".into(),
        done: true,
        tags: vec!["urgent".into()],
        time_secs: 0,
    });
    let mut app = App::with_lists(vec![work, personal]);
    app.selected_sidebar_index = 2;
    app.show_done = false;
    let items = app.tag_visible_items();
    assert_eq!(items.len(), 1);
    assert_eq!(items[0].1.title, "A");
}

#[test]
fn test_resolve_selected_item_list_mode() {
    let mut app = sample_app();
    app.active_pane = Pane::Main;
    app.selected_item_index = 0;
    let loc = app.resolve_selected_item();
    assert!(loc.is_some());
}

#[test]
fn test_resolve_selected_item_tag_mode() {
    let mut work = TodoList::new("Work");
    work.items.push(TodoItem {
        title: "A".into(),
        done: false,
        tags: vec!["code".into()],
        time_secs: 0,
    });
    let mut personal = TodoList::new("Personal");
    personal.items.push(TodoItem {
        title: "B".into(),
        done: false,
        tags: vec!["code".into()],
        time_secs: 0,
    });
    let mut app = App::with_lists(vec![work, personal]);
    app.selected_sidebar_index = 2; // Tag("code")
    // Find B's index in the tag view
    let tag_items = app.tag_visible_items();
    let b_index = tag_items
        .iter()
        .position(|(_, item)| item.title == "B")
        .unwrap();
    app.selected_item_index = b_index;
    let loc = app.resolve_selected_item();
    assert!(loc.is_some());
    let id = loc.unwrap();
    assert_eq!(app.doc.get_item(&id).unwrap().title, "B");
}

#[test]
fn test_sidebar_navigation_through_tags() {
    let mut work = TodoList::new("Work");
    work.items.push(TodoItem {
        title: "A".into(),
        done: false,
        tags: vec!["code".into()],
        time_secs: 0,
    });
    let mut app = App::with_lists(vec![work, TodoList::new("Personal")]);
    app.active_pane = Pane::Sidebar;
    // sidebar_entries: [List(0), List(1), Tag("code")]
    assert_eq!(app.selected_sidebar_index, 0);

    app.move_selection_down();
    assert_eq!(app.selected_sidebar_index, 1);
    assert_eq!(app.selected_list_index, 1);
    assert!(!app.is_tag_view());

    app.move_selection_down();
    assert_eq!(app.selected_sidebar_index, 2);
    assert!(app.is_tag_view());

    app.move_selection_down(); // at end, shouldn't move
    assert_eq!(app.selected_sidebar_index, 2);

    app.move_selection_up();
    assert_eq!(app.selected_sidebar_index, 1);
    assert!(!app.is_tag_view());
    assert_eq!(app.selected_list_index, 1);
}

#[test]
fn test_sidebar_jump_to_last_includes_tags() {
    let mut work = TodoList::new("Work");
    work.items.push(TodoItem {
        title: "A".into(),
        done: false,
        tags: vec!["code".into()],
        time_secs: 0,
    });
    let mut app = App::with_lists(vec![work]);
    app.active_pane = Pane::Sidebar;
    app.jump_to_last();
    assert_eq!(app.selected_sidebar_index, 1); // Tag("code")
    assert!(app.is_tag_view());
}

#[test]
fn test_sidebar_jump_to_first_from_tag() {
    let mut work = TodoList::new("Work");
    work.items.push(TodoItem {
        title: "A".into(),
        done: false,
        tags: vec!["code".into()],
        time_secs: 0,
    });
    let mut app = App::with_lists(vec![work]);
    app.active_pane = Pane::Sidebar;
    app.selected_sidebar_index = 1;
    app.jump_to_first();
    assert_eq!(app.selected_sidebar_index, 0);
    assert!(!app.is_tag_view());
}

#[test]
fn test_toggle_done_in_tag_view() {
    let mut work = TodoList::new("Work");
    work.items.push(TodoItem {
        title: "A".into(),
        done: false,
        tags: vec!["urgent".into()],
        time_secs: 0,
    });
    let mut personal = TodoList::new("Personal");
    personal.items.push(TodoItem {
        title: "B".into(),
        done: false,
        tags: vec!["urgent".into()],
        time_secs: 0,
    });
    let mut app = App::with_lists(vec![work, personal]);
    app.active_pane = Pane::Main;
    app.selected_sidebar_index = 2; // Tag("urgent")
    app.selected_item_index = 0; // first item in tag view
    let tag_items = app.tag_visible_items();
    let first_title = tag_items[0].1.title.clone();
    drop(tag_items);
    app.toggle_done();
    // The toggled item should now be done
    let item = app
        .doc
        .items
        .iter()
        .find(|i| i.title == first_title)
        .unwrap();
    assert!(item.done);
}

#[test]
fn test_delete_in_tag_view() {
    let mut work = TodoList::new("Work");
    work.items.push(TodoItem {
        title: "A".into(),
        done: false,
        tags: vec!["urgent".into()],
        time_secs: 0,
    });
    let mut personal = TodoList::new("Personal");
    personal.items.push(TodoItem {
        title: "B".into(),
        done: false,
        tags: vec!["urgent".into()],
        time_secs: 0,
    });
    let mut app = App::with_lists(vec![work, personal]);
    assert_eq!(app.doc.items.len(), 2);
    app.active_pane = Pane::Main;
    app.selected_sidebar_index = 2;
    app.selected_item_index = 0;
    app.delete_todo();
    assert_eq!(app.doc.items.len(), 1);
}

#[test]
fn test_add_todo_in_tag_view() {
    let mut work = TodoList::new("Work");
    work.items.push(TodoItem {
        title: "A".into(),
        done: false,
        tags: vec!["code".into()],
        time_secs: 0,
    });
    let mut app = App::with_lists(vec![work]);
    app.selected_sidebar_index = 1; // Tag("code")
    app.add_todo("New item".into());
    let unassigned: Vec<_> = app
        .doc
        .items
        .iter()
        .filter(|i| i.list_id.is_none())
        .collect();
    assert_eq!(unassigned.len(), 1);
    assert_eq!(unassigned[0].title, "New item");
    assert!(unassigned[0].tags.contains(&"code".to_string()));
}

#[test]
fn test_add_todo_in_tag_view_auto_tags() {
    let mut work = TodoList::new("Work");
    work.items.push(TodoItem {
        title: "A".into(),
        done: false,
        tags: vec!["urgent".into()],
        time_secs: 0,
    });
    let mut app = App::with_lists(vec![work]);
    app.selected_sidebar_index = 1; // Tag("urgent")
    app.add_todo("Fix bug @code".into());
    let unassigned: Vec<_> = app
        .doc
        .items
        .iter()
        .filter(|i| i.list_id.is_none())
        .collect();
    assert_eq!(unassigned.len(), 1);
    assert_eq!(unassigned[0].title, "Fix bug");
    assert!(unassigned[0].tags.contains(&"code".to_string()));
    assert!(unassigned[0].tags.contains(&"urgent".to_string()));
}

#[test]
fn test_add_todo_in_unassigned_view() {
    let mut work = TodoList::new("Work");
    work.items.push(TodoItem {
        title: "A".into(),
        done: false,
        tags: vec![],
        time_secs: 0,
    });
    let mut app = App::with_lists(vec![work]);
    // Add an unassigned item to create the Unassigned sidebar entry
    let item = CrdtItem {
        id: new_id(),
        title: "Existing unassigned".into(),
        done: false,
        tags: vec![],
        time_secs: 0,
        list_id: None,
        position: 0,
        archived: false,
    };
    app.doc.items.push(item);
    app.rebuild_sidebar_entries();
    // Navigate to Unassigned entry (after the list)
    let unassigned_idx = app
        .sidebar_entries
        .iter()
        .position(|e| matches!(e, SidebarEntry::Unassigned))
        .unwrap();
    app.selected_sidebar_index = unassigned_idx;
    app.add_todo("Loose task".into());
    let unassigned: Vec<_> = app
        .doc
        .items
        .iter()
        .filter(|i| i.list_id.is_none())
        .collect();
    assert_eq!(unassigned.len(), 2);
    assert!(unassigned.iter().any(|i| i.title == "Loose task"));
}

#[test]
fn test_move_todo_disabled_in_tag_view() {
    let mut work = TodoList::new("Work");
    work.items.push(TodoItem {
        title: "A".into(),
        done: false,
        tags: vec!["code".into()],
        time_secs: 0,
    });
    work.items.push(TodoItem {
        title: "B".into(),
        done: false,
        tags: vec!["code".into()],
        time_secs: 0,
    });
    let mut app = App::with_lists(vec![work]);
    app.active_pane = Pane::Main;
    app.selected_sidebar_index = 1;
    app.selected_item_index = 0;
    app.move_todo_down();
    assert_eq!(app.items_for_nth_list(0)[0].title, "A");
    assert_eq!(app.items_for_nth_list(0)[1].title, "B");
}

#[test]
fn test_search_finds_tags() {
    let mut work = TodoList::new("Work");
    work.items.push(TodoItem {
        title: "A".into(),
        done: false,
        tags: vec!["urgent".into(), "code".into()],
        time_secs: 0,
    });
    let mut app = App::with_lists(vec![work]);
    app.start_search();
    app.input_buffer = "urg".into();
    app.input_cursor = 3;
    app.update_search_results();
    assert!(app.search_results.len() >= 2);
    assert_eq!(app.search_results[0], SearchResult::Tag("urgent".into()));
}

#[test]
fn test_search_tag_result_no_duplicates() {
    let mut work = TodoList::new("Work");
    work.items.push(TodoItem {
        title: "A".into(),
        done: false,
        tags: vec!["urgent".into()],
        time_secs: 0,
    });
    work.items.push(TodoItem {
        title: "B".into(),
        done: false,
        tags: vec!["urgent".into()],
        time_secs: 0,
    });
    let mut app = App::with_lists(vec![work]);
    app.start_search();
    app.input_buffer = "urgent".into();
    app.input_cursor = 6;
    app.update_search_results();
    let tag_results: Vec<_> = app
        .search_results
        .iter()
        .filter(|r| matches!(r, SearchResult::Tag(_)))
        .collect();
    assert_eq!(tag_results.len(), 1);
}

#[test]
fn test_select_search_result_tag() {
    let mut work = TodoList::new("Work");
    work.items.push(TodoItem {
        title: "A".into(),
        done: false,
        tags: vec!["code".into()],
        time_secs: 0,
    });
    let mut app = App::with_lists(vec![work]);
    app.start_search();
    app.input_buffer = "code".into();
    app.input_cursor = 4;
    app.update_search_results();
    app.select_search_result();
    assert!(app.is_tag_view());
    assert_eq!(app.selected_tag_name(), Some("code"));
    assert_eq!(app.active_pane, Pane::Main);
}

#[test]
fn test_start_switch_context() {
    let mut app = sample_app();
    app.start_switch_context();
    assert_eq!(app.input_mode, InputMode::SwitchingContext);
    assert_eq!(app.context_cursor, 0);
    assert!(app.context_filter.is_empty());
}

#[test]
fn test_cancel_context_switch() {
    let mut app = sample_app();
    app.start_switch_context();
    app.context_filter = "test".into();
    app.cancel_context_switch();
    assert_eq!(app.input_mode, InputMode::Normal);
    assert!(app.context_filter.is_empty());
}

#[test]
fn test_context_targets_excludes_current() {
    let mut app = sample_app();
    app.current_context = "work".into();
    let available = vec!["home".to_string(), "work".to_string()];
    let targets = app.context_targets(&available);
    assert!(!targets.contains(&"work".to_string()));
}

#[test]
fn test_context_filter_insert_delete() {
    let mut app = sample_app();
    app.start_switch_context();
    app.context_insert_char('w');
    assert_eq!(app.context_filter, "w");
    app.context_insert_char('o');
    assert_eq!(app.context_filter, "wo");
    app.context_delete_char();
    assert_eq!(app.context_filter, "w");
}

#[test]
fn test_context_move_up_down() {
    let mut app = sample_app();
    app.start_switch_context();
    assert_eq!(app.context_cursor, 0);
    // With no real contexts, only "new context" option exists at index 0
    // Can't move past it
    app.context_move_down(&vec![]);
    assert_eq!(app.context_cursor, 0);
    app.context_move_up();
    assert_eq!(app.context_cursor, 0);
}

#[test]
fn test_confirm_context_switch_new_context() {
    let mut app = sample_app();
    app.start_switch_context();
    // With no available contexts, cursor 0 = "new context" option
    let targets = app.context_targets(&vec![]);
    app.context_cursor = targets.len(); // "new context" is last
    app.confirm_context_switch(&vec![]);
    assert_eq!(app.input_mode, InputMode::CreatingContext);
}

#[test]
fn test_start_archive_sets_confirm_mode() {
    let mut list = TodoList::new("Work");
    list.items.push(TodoItem::new("Task A"));
    let mut done_item = TodoItem::new("Task B");
    done_item.done = true;
    list.items.push(done_item);
    let mut app = App::with_lists(vec![list]);
    app.active_pane = Pane::Main;

    app.start_archive();

    assert_eq!(app.input_mode, InputMode::ConfirmArchive);
}

#[test]
fn test_start_archive_noop_when_no_done_items() {
    let mut list = TodoList::new("Work");
    list.items.push(TodoItem::new("Task A"));
    let mut app = App::with_lists(vec![list]);
    app.active_pane = Pane::Main;

    app.start_archive();

    assert_eq!(app.input_mode, InputMode::Normal);
}

#[test]
fn test_archive_done_items_archives_done() {
    let mut list = TodoList::new("Work");
    list.items.push(TodoItem::new("Keep this"));
    let mut done1 = TodoItem::new("Done 1");
    done1.done = true;
    list.items.push(done1);
    let mut done2 = TodoItem::new("Done 2");
    done2.done = true;
    list.items.push(done2);
    let mut app = App::with_lists(vec![list]);
    app.active_pane = Pane::Main;
    app.selected_list_index = 0;

    app.archive_done_items();

    assert_eq!(app.items_for_nth_list(0).len(), 1);
    assert_eq!(app.items_for_nth_list(0)[0].title, "Keep this");
    assert_eq!(app.doc.items.len(), 3);
    let archived: Vec<_> = app.doc.items.iter().filter(|i| i.archived).collect();
    assert_eq!(archived.len(), 2);
}

#[test]
fn test_archive_done_items_supports_undo() {
    let mut list = TodoList::new("Work");
    list.items.push(TodoItem::new("Keep"));
    let mut done = TodoItem::new("Archive me");
    done.done = true;
    list.items.push(done);
    let mut app = App::with_lists(vec![list]);
    app.active_pane = Pane::Main;
    app.selected_list_index = 0;

    app.archive_done_items();
    assert_eq!(app.items_for_nth_list(0).len(), 1);

    app.undo();
    assert_eq!(app.items_for_nth_list(0).len(), 2);
}

#[test]
fn test_archive_count_done() {
    let mut list = TodoList::new("Work");
    list.items.push(TodoItem::new("Not done"));
    let mut d1 = TodoItem::new("Done 1");
    d1.done = true;
    list.items.push(d1);
    let mut d2 = TodoItem::new("Done 2");
    d2.done = true;
    list.items.push(d2);
    let app = App::with_lists(vec![list]);

    assert_eq!(app.done_count(), 2);
}

#[test]
fn test_toggle_tag_adds_tag() {
    let mut app = App::with_lists(vec![{
        let mut list = TodoList::new("Work");
        list.items.push(TodoItem::new("Task A"));
        list
    }]);
    app.active_pane = Pane::Main;
    app.toggle_tag("focus");
    assert_eq!(app.items_for_nth_list(0)[0].tags, vec!["focus"]);
}

#[test]
fn test_toggle_tag_removes_tag() {
    let mut app = App::with_lists(vec![{
        let mut list = TodoList::new("Work");
        list.items.push(TodoItem {
            title: "Task A".into(),
            done: false,
            tags: vec!["focus".into()],
            time_secs: 0,
        });
        list
    }]);
    app.active_pane = Pane::Main;
    app.toggle_tag("focus");
    assert!(app.items_for_nth_list(0)[0].tags.is_empty());
}

#[test]
fn test_toggle_tag_preserves_other_tags() {
    let mut app = App::with_lists(vec![{
        let mut list = TodoList::new("Work");
        list.items.push(TodoItem {
            title: "Task A".into(),
            done: false,
            tags: vec!["code".into()],
            time_secs: 0,
        });
        list
    }]);
    app.active_pane = Pane::Main;
    app.toggle_tag("focus");
    assert_eq!(app.items_for_nth_list(0)[0].tags, vec!["code", "focus"]);
}

#[test]
fn test_toggle_tag_supports_undo() {
    let mut app = App::with_lists(vec![{
        let mut list = TodoList::new("Work");
        list.items.push(TodoItem::new("Task A"));
        list
    }]);
    app.active_pane = Pane::Main;
    app.toggle_tag("focus");
    assert_eq!(app.items_for_nth_list(0)[0].tags, vec!["focus"]);
    app.undo();
    assert!(app.items_for_nth_list(0)[0].tags.is_empty());
}

#[test]
fn test_move_todo_with_duplicate_positions() {
    let mut list = TodoList::new("Work");
    list.items.push(TodoItem {
        title: "A".to_string(),
        done: false,
        tags: vec![],
        time_secs: 0,
    });
    list.items.push(TodoItem {
        title: "B".to_string(),
        done: false,
        tags: vec![],
        time_secs: 0,
    });
    list.items.push(TodoItem {
        title: "C".to_string(),
        done: false,
        tags: vec![],
        time_secs: 0,
    });
    let mut app = App::with_lists(vec![list]);
    app.active_pane = Pane::Main;

    // Give all three items the same position (simulates sync collision)
    set_item_field(&mut app, 0, 0, |item| item.position = 2);
    set_item_field(&mut app, 0, 1, |item| item.position = 2);
    set_item_field(&mut app, 0, 2, |item| item.position = 2);

    // Visible order is by position then id tiebreak
    let titles_before: Vec<_> = app
        .visible_items()
        .iter()
        .map(|(_, i)| i.title.clone())
        .collect();
    let first = titles_before[0].clone();
    let second = titles_before[1].clone();

    // Select second item and move it up
    app.selected_item_index = 1;
    app.move_todo_up();

    let titles_after: Vec<_> = app
        .visible_items()
        .iter()
        .map(|(_, i)| i.title.clone())
        .collect();
    // The first two items should have swapped
    assert_eq!(titles_after[0], second);
    assert_eq!(titles_after[1], first);
    assert_eq!(app.selected_item_index, 0);
}

#[test]
fn test_move_todo_up_three_duplicate_positions_from_bottom() {
    let mut list = TodoList::new("Work");
    list.items.push(TodoItem {
        title: "A".to_string(),
        done: false,
        tags: vec![],
        time_secs: 0,
    });
    list.items.push(TodoItem {
        title: "B".to_string(),
        done: false,
        tags: vec![],
        time_secs: 0,
    });
    list.items.push(TodoItem {
        title: "C".to_string(),
        done: false,
        tags: vec![],
        time_secs: 0,
    });
    let mut app = App::with_lists(vec![list]);
    app.active_pane = Pane::Main;

    set_item_field(&mut app, 0, 0, |item| item.position = 2);
    set_item_field(&mut app, 0, 1, |item| item.position = 2);
    set_item_field(&mut app, 0, 2, |item| item.position = 2);

    let titles_before: Vec<_> = app
        .visible_items()
        .iter()
        .map(|(_, i)| i.title.clone())
        .collect();
    let first = titles_before[0].clone();
    let second = titles_before[1].clone();
    let third = titles_before[2].clone();

    app.selected_item_index = 2;
    app.move_todo_up();

    let titles_after: Vec<_> = app
        .visible_items()
        .iter()
        .map(|(_, i)| i.title.clone())
        .collect();
    assert_eq!(titles_after[0], first);
    assert_eq!(titles_after[1], third);
    assert_eq!(titles_after[2], second);
    assert_eq!(app.selected_item_index, 1);
}

#[test]
fn test_move_todo_down_three_duplicate_positions_from_top() {
    let mut list = TodoList::new("Work");
    list.items.push(TodoItem {
        title: "A".to_string(),
        done: false,
        tags: vec![],
        time_secs: 0,
    });
    list.items.push(TodoItem {
        title: "B".to_string(),
        done: false,
        tags: vec![],
        time_secs: 0,
    });
    list.items.push(TodoItem {
        title: "C".to_string(),
        done: false,
        tags: vec![],
        time_secs: 0,
    });
    let mut app = App::with_lists(vec![list]);
    app.active_pane = Pane::Main;

    set_item_field(&mut app, 0, 0, |item| item.position = 2);
    set_item_field(&mut app, 0, 1, |item| item.position = 2);
    set_item_field(&mut app, 0, 2, |item| item.position = 2);

    let titles_before: Vec<_> = app
        .visible_items()
        .iter()
        .map(|(_, i)| i.title.clone())
        .collect();
    let first = titles_before[0].clone();
    let second = titles_before[1].clone();
    let third = titles_before[2].clone();

    app.selected_item_index = 0;
    app.move_todo_down();

    let titles_after: Vec<_> = app
        .visible_items()
        .iter()
        .map(|(_, i)| i.title.clone())
        .collect();
    assert_eq!(titles_after[0], second);
    assert_eq!(titles_after[1], first);
    assert_eq!(titles_after[2], third);
    assert_eq!(app.selected_item_index, 1);
}
