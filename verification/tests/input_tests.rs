use todui::app::App;
use todui::config::{KeyCode, KeyModifiers};
use todui::crdt::CrdtItem;
use todui::input::handle_key;
use todui::model::{InputMode, Pane, TodoItem, TodoList};

fn work_personal_app() -> App {
    let mut work = TodoList::new("Work");
    work.items.push(TodoItem { title: "Task A".to_string(), done: false, tags: vec!["code".to_string()], time_secs: 0 });
    work.items.push(TodoItem { title: "Task B".to_string(), done: true, tags: vec![], time_secs: 0 });
    work.items.push(TodoItem { title: "Task C".to_string(), done: false, tags: vec![], time_secs: 0 });
    let personal = TodoList::new("Personal");
    let mut app = App::with_lists(vec![work, personal]);
    app.active_pane = Pane::Main;
    app
}

/// A key with no modifier.
fn key(app: &mut App, code: KeyCode) {
    handle_key(app, (KeyModifiers::none(), code), None, &vec![]);
}

fn key_with_mod(app: &mut App, code: KeyCode, m: KeyModifiers) {
    handle_key(app, (m, code), None, &vec![]);
}

fn set_item_at(app: &mut App, list_n: usize, item_n: usize, f: impl FnOnce(&mut CrdtItem)) {
    let id = app.item_id_in_list(list_n, item_n);
    if let Some(item) = app.doc.items.iter_mut().find(|i| i.id == id) {
        f(item);
    }
}

fn list_len(app: &App, n: usize) -> usize {
    app.items_for_nth_list(n).len()
}

#[test]
fn test_quit_q() {
    let mut app = work_personal_app();
    assert!(app.running);
    key(&mut app, KeyCode::Char('q'));
    assert!(!app.running);
}

#[test]
fn test_quit_ctrl_c() {
    let mut app = work_personal_app();
    assert!(app.running);
    key_with_mod(&mut app, KeyCode::Char('c'), KeyModifiers::control());
    assert!(!app.running);
}

#[test]
fn input_test_toggle_pane() {
    let mut app = work_personal_app();
    assert_eq!(app.active_pane, Pane::Main);
    key(&mut app, KeyCode::Tab);
    assert_eq!(app.active_pane, Pane::Sidebar);
    key(&mut app, KeyCode::Tab);
    assert_eq!(app.active_pane, Pane::Main);
}

#[test]
fn test_navigation_keys() {
    let mut app = work_personal_app();
    assert_eq!(app.selected_item_index, 0);

    key(&mut app, KeyCode::Down);
    assert_eq!(app.selected_item_index, 1);

    key(&mut app, KeyCode::Char('j'));
    assert_eq!(app.selected_item_index, 2);

    key(&mut app, KeyCode::Up);
    assert_eq!(app.selected_item_index, 1);

    key(&mut app, KeyCode::Char('k'));
    assert_eq!(app.selected_item_index, 0);
}

#[test]
fn input_test_toggle_done() {
    let mut app = work_personal_app();
    assert!(!app.items_for_nth_list(0)[0].done);

    key(&mut app, KeyCode::Char(' '));
    assert!(app.items_for_nth_list(0)[0].done);
}

#[test]
fn test_add_item_flow() {
    let mut app = work_personal_app();
    key(&mut app, KeyCode::Char('n'));
    assert_eq!(app.input_mode, InputMode::AddingItem);

    for c in "New task".chars() {
        key(&mut app, KeyCode::Char(c));
    }
    assert_eq!(app.input_buffer, "New task");

    key(&mut app, KeyCode::Enter);
    assert_eq!(app.input_mode, InputMode::Normal);
    assert_eq!(list_len(&app, 0), 4);
    assert_eq!(app.items_for_nth_list(0)[0].title, "New task");
}

#[test]
fn test_edit_item_flow() {
    let mut app = work_personal_app();
    key(&mut app, KeyCode::Enter);
    assert_eq!(app.input_mode, InputMode::EditingItem);
    assert_eq!(app.input_buffer, "Task A");
}

#[test]
fn test_edit_tags_flow() {
    let mut app = work_personal_app();
    key(&mut app, KeyCode::Char('t'));
    assert_eq!(app.input_mode, InputMode::EditingTags);
    assert_eq!(app.input_buffer, "@code");
}

#[test]
fn input_test_delete_todo() {
    let mut app = work_personal_app();
    assert_eq!(list_len(&app, 0), 3);
    key(&mut app, KeyCode::Delete);
    assert_eq!(list_len(&app, 0), 2);
}

#[test]
fn test_move_todo_shift_keys() {
    let mut app = work_personal_app();
    // Visible order (done sorted last): Task A (real 0), Task C (real 2), Task B (real 1)
    app.selected_item_index = 1; // Task C

    key_with_mod(&mut app, KeyCode::Up, KeyModifiers::shift());
    assert_eq!(app.items_for_nth_list(0)[0].title, "Task C");
    assert_eq!(app.items_for_nth_list(0)[2].title, "Task A");
    assert_eq!(app.selected_item_index, 0);

    key_with_mod(&mut app, KeyCode::Down, KeyModifiers::shift());
    assert_eq!(app.items_for_nth_list(0)[0].title, "Task A");
    assert_eq!(app.items_for_nth_list(0)[2].title, "Task C");
    assert_eq!(app.selected_item_index, 1);
}

#[test]
fn test_move_todo_alt_keys() {
    let mut app = work_personal_app();
    app.selected_item_index = 1;

    key_with_mod(&mut app, KeyCode::Up, KeyModifiers::alt());
    assert_eq!(app.selected_item_index, 0);

    key_with_mod(&mut app, KeyCode::Down, KeyModifiers::alt());
    assert_eq!(app.selected_item_index, 1);
}

#[test]
fn test_move_todo_alt_shift_to_top() {
    let mut app = work_personal_app();
    app.selected_item_index = 2; // Task B (done, last visible)

    key_with_mod(&mut app, KeyCode::Up, KeyModifiers::alt().union(KeyModifiers::super_key()));
    assert_eq!(app.items_for_nth_list(0)[0].title, "Task B");
}

#[test]
fn test_move_todo_alt_shift_to_bottom() {
    let mut app = work_personal_app();
    app.selected_item_index = 0; // Task A

    key_with_mod(&mut app, KeyCode::Down, KeyModifiers::alt().union(KeyModifiers::super_key()));
    assert_eq!(app.items_for_nth_list(0)[2].title, "Task A");
}

#[test]
fn test_move_list_alt_keys() {
    let mut app = App::with_lists(vec![TodoList::new("Alpha"), TodoList::new("Beta")]);
    app.active_pane = Pane::Sidebar;
    app.selected_list_index = 0;

    key_with_mod(&mut app, KeyCode::Down, KeyModifiers::alt());
    assert_eq!(app.nth_list(0).unwrap().name, "Beta");
    assert_eq!(app.nth_list(1).unwrap().name, "Alpha");
    assert_eq!(app.selected_list_index, 1);

    key_with_mod(&mut app, KeyCode::Up, KeyModifiers::alt());
    assert_eq!(app.nth_list(0).unwrap().name, "Alpha");
    assert_eq!(app.selected_list_index, 0);
}

#[test]
fn test_move_list_alt_shift_to_top_bottom() {
    let mut app = App::with_lists(vec![
        TodoList::new("Alpha"),
        TodoList::new("Beta"),
        TodoList::new("Gamma"),
    ]);
    app.active_pane = Pane::Sidebar;
    app.selected_list_index = 0;

    key_with_mod(&mut app, KeyCode::Down, KeyModifiers::alt().union(KeyModifiers::super_key()));
    assert_eq!(app.nth_list(0).unwrap().name, "Beta");
    assert_eq!(app.nth_list(1).unwrap().name, "Gamma");
    assert_eq!(app.nth_list(2).unwrap().name, "Alpha");
    assert_eq!(app.selected_list_index, 2);

    key_with_mod(&mut app, KeyCode::Up, KeyModifiers::alt().union(KeyModifiers::super_key()));
    assert_eq!(app.nth_list(0).unwrap().name, "Alpha");
    assert_eq!(app.selected_list_index, 0);
}

#[test]
fn input_test_toggle_show_done() {
    let mut app = work_personal_app();
    assert!(app.show_done);
    key_with_mod(&mut app, KeyCode::Char('D'), KeyModifiers::shift());
    assert!(!app.show_done);
}

#[test]
fn test_undo_redo_keys() {
    let mut app = work_personal_app();
    assert_eq!(list_len(&app, 0), 3);

    key(&mut app, KeyCode::Delete);
    assert_eq!(list_len(&app, 0), 2);

    key(&mut app, KeyCode::Char('u'));
    assert_eq!(list_len(&app, 0), 3);

    key_with_mod(&mut app, KeyCode::Char('y'), KeyModifiers::control());
    assert_eq!(list_len(&app, 0), 2);

    key_with_mod(&mut app, KeyCode::Char('z'), KeyModifiers::control());
    assert_eq!(list_len(&app, 0), 3);
}

#[test]
fn test_sidebar_add_list() {
    let mut app = work_personal_app();
    app.active_pane = Pane::Sidebar;
    key(&mut app, KeyCode::Char('n'));
    assert_eq!(app.input_mode, InputMode::AddingList);
}

#[test]
fn test_sidebar_rename_list() {
    let mut app = work_personal_app();
    app.active_pane = Pane::Sidebar;
    key(&mut app, KeyCode::Enter);
    assert_eq!(app.input_mode, InputMode::RenamingList);
    assert_eq!(app.input_buffer, "Work");
}

#[test]
fn test_sidebar_confirm_delete() {
    let mut app = work_personal_app();
    app.active_pane = Pane::Sidebar;
    assert_eq!(app.num_lists(), 2);

    key(&mut app, KeyCode::Delete);
    assert_eq!(app.input_mode, InputMode::ConfirmDelete);

    key(&mut app, KeyCode::Char('y'));
    assert_eq!(app.input_mode, InputMode::Normal);
    assert_eq!(app.num_lists(), 1);
}

#[test]
fn test_sidebar_cancel_delete() {
    let mut app = work_personal_app();
    app.active_pane = Pane::Sidebar;
    assert_eq!(app.num_lists(), 2);

    key(&mut app, KeyCode::Delete);
    assert_eq!(app.input_mode, InputMode::ConfirmDelete);

    key(&mut app, KeyCode::Char('n'));
    assert_eq!(app.input_mode, InputMode::Normal);
    assert_eq!(app.num_lists(), 2);
}

#[test]
fn test_sidebar_move_list_up() {
    let mut app = App::with_lists(vec![TodoList::new("Alpha"), TodoList::new("Beta")]);
    app.active_pane = Pane::Sidebar;
    app.selected_list_index = 1;

    key_with_mod(&mut app, KeyCode::Char('K'), KeyModifiers::shift());
    assert_eq!(app.nth_list(0).unwrap().name, "Beta");
    assert_eq!(app.nth_list(1).unwrap().name, "Alpha");
    assert_eq!(app.selected_list_index, 0);
}

#[test]
fn test_sidebar_move_list_down() {
    let mut app = App::with_lists(vec![TodoList::new("Alpha"), TodoList::new("Beta")]);
    app.active_pane = Pane::Sidebar;
    app.selected_list_index = 0;

    key_with_mod(&mut app, KeyCode::Char('J'), KeyModifiers::shift());
    assert_eq!(app.nth_list(0).unwrap().name, "Beta");
    assert_eq!(app.nth_list(1).unwrap().name, "Alpha");
    assert_eq!(app.selected_list_index, 1);
}

#[test]
fn test_sidebar_delete_prevented_single_list() {
    let mut app = App::with_lists(vec![TodoList::new("Only")]);
    app.active_pane = Pane::Sidebar;

    key(&mut app, KeyCode::Delete);
    assert_eq!(app.input_mode, InputMode::Normal);
}

#[test]
fn test_input_mode_cancel() {
    let mut app = work_personal_app();
    key(&mut app, KeyCode::Char('n'));
    assert_eq!(app.input_mode, InputMode::AddingItem);

    key(&mut app, KeyCode::Esc);
    assert_eq!(app.input_mode, InputMode::Normal);
}

#[test]
fn test_input_mode_backspace() {
    let mut app = work_personal_app();
    key(&mut app, KeyCode::Char('n'));
    key(&mut app, KeyCode::Char('a'));
    key(&mut app, KeyCode::Char('b'));
    assert_eq!(app.input_buffer, "ab");

    key(&mut app, KeyCode::Backspace);
    assert_eq!(app.input_buffer, "a");
}

#[test]
fn test_input_mode_cursor_movement() {
    let mut app = work_personal_app();
    key(&mut app, KeyCode::Char('n'));
    key(&mut app, KeyCode::Char('a'));
    key(&mut app, KeyCode::Char('b'));
    assert_eq!(app.input_cursor, 2);

    key(&mut app, KeyCode::Left);
    assert_eq!(app.input_cursor, 1);

    key(&mut app, KeyCode::Right);
    assert_eq!(app.input_cursor, 2);
}

#[test]
fn test_search_mode_entry() {
    let mut app = work_personal_app();
    key(&mut app, KeyCode::Char('/'));
    assert_eq!(app.input_mode, InputMode::Searching);
    assert_eq!(app.input_buffer, "");
}

#[test]
fn test_search_mode_typing() {
    let mut app = work_personal_app();
    key(&mut app, KeyCode::Char('/'));
    key(&mut app, KeyCode::Char('T'));
    key(&mut app, KeyCode::Char('a'));
    assert_eq!(app.input_buffer, "Ta");
    assert!(!app.search_results.is_empty());
}

#[test]
fn test_search_mode_cancel() {
    let mut app = work_personal_app();
    key(&mut app, KeyCode::Char('/'));
    key(&mut app, KeyCode::Char('T'));
    assert_eq!(app.input_mode, InputMode::Searching);

    key(&mut app, KeyCode::Esc);
    assert_eq!(app.input_mode, InputMode::Normal);
    assert_eq!(app.input_buffer, "");
    assert!(app.search_results.is_empty());
}

#[test]
fn test_search_mode_select() {
    let mut app = work_personal_app();
    key(&mut app, KeyCode::Char('/'));
    for c in "Personal".chars() {
        key(&mut app, KeyCode::Char(c));
    }
    assert!(!app.search_results.is_empty());

    key(&mut app, KeyCode::Enter);
    assert_eq!(app.input_mode, InputMode::Normal);
    assert_eq!(app.selected_list_index, 1);
}

#[test]
fn test_focus_mode_entry() {
    let mut app = work_personal_app();
    key_with_mod(&mut app, KeyCode::Char('F'), KeyModifiers::shift());
    assert_eq!(app.input_mode, InputMode::Focused);
}

#[test]
fn test_focus_mode_stop() {
    let mut app = work_personal_app();
    key_with_mod(&mut app, KeyCode::Char('F'), KeyModifiers::shift());
    assert_eq!(app.input_mode, InputMode::Focused);
    key(&mut app, KeyCode::Esc);
    assert_eq!(app.input_mode, InputMode::Normal);
}

#[test]
fn test_focus_mode_pause() {
    let mut app = work_personal_app();
    key_with_mod(&mut app, KeyCode::Char('F'), KeyModifiers::shift());
    assert!(app.focus_start.is_some());
    key(&mut app, KeyCode::Char(' '));
    assert!(app.focus_start.is_none());
    key(&mut app, KeyCode::Char(' '));
    assert!(app.focus_start.is_some());
}

#[test]
fn test_edit_time_entry() {
    let mut app = work_personal_app();
    set_item_at(&mut app, 0, 0, |item| item.time_secs = 3600);
    key_with_mod(&mut app, KeyCode::Char('T'), KeyModifiers::shift());
    assert_eq!(app.input_mode, InputMode::EditingTime);
    assert_eq!(app.input_buffer, "1h");
}

#[test]
fn test_filter_mode_entry() {
    let mut app = work_personal_app();
    key(&mut app, KeyCode::Char('f'));
    assert_eq!(app.input_mode, InputMode::FilteringTags);
}

#[test]
fn test_filter_mode_toggle_and_confirm() {
    let mut app = work_personal_app();
    key(&mut app, KeyCode::Char('f'));
    assert_eq!(app.input_mode, InputMode::FilteringTags);

    key(&mut app, KeyCode::Char(' '));
    assert_eq!(app.filter_selected, vec![true]);

    key(&mut app, KeyCode::Enter);
    assert_eq!(app.input_mode, InputMode::Normal);
    assert_eq!(app.filter_tags, vec!["code"]);
}

#[test]
fn test_filter_mode_cancel() {
    let mut app = work_personal_app();
    key(&mut app, KeyCode::Char('f'));
    key(&mut app, KeyCode::Char(' '));
    key(&mut app, KeyCode::Esc);
    assert_eq!(app.input_mode, InputMode::Normal);
    assert!(app.filter_tags.is_empty());
}

#[test]
fn test_filter_mode_navigation() {
    let mut app = work_personal_app();
    set_item_at(&mut app, 0, 1, |item| item.tags = vec!["review".to_string()]);
    key(&mut app, KeyCode::Char('f'));
    assert_eq!(app.filter_cursor, 0);

    key(&mut app, KeyCode::Char('j'));
    assert_eq!(app.filter_cursor, 1);

    key(&mut app, KeyCode::Char('k'));
    assert_eq!(app.filter_cursor, 0);
}

#[test]
fn test_autocomplete_tab_accepts() {
    let mut app = work_personal_app();
    key(&mut app, KeyCode::Char('n'));
    key(&mut app, KeyCode::Char('@'));
    assert!(app.autocomplete_active);

    key(&mut app, KeyCode::Tab);
    assert!(!app.autocomplete_active);
    assert!(app.input_buffer.starts_with("@code"));
}

#[test]
fn test_autocomplete_esc_dismisses() {
    let mut app = work_personal_app();
    key(&mut app, KeyCode::Char('n'));
    key(&mut app, KeyCode::Char('@'));
    assert!(app.autocomplete_active);

    key(&mut app, KeyCode::Esc);
    assert!(!app.autocomplete_active);
    assert_eq!(app.input_mode, InputMode::AddingItem);
}

#[test]
fn test_gg_jumps_to_first_main() {
    let mut app = work_personal_app();
    app.selected_item_index = 2;
    key(&mut app, KeyCode::Char('g'));
    assert!(app.pending_g);
    key(&mut app, KeyCode::Char('g'));
    assert!(!app.pending_g);
    assert_eq!(app.selected_item_index, 0);
}

#[test]
fn test_shift_g_jumps_to_last_main() {
    let mut app = work_personal_app();
    assert_eq!(app.selected_item_index, 0);
    key_with_mod(&mut app, KeyCode::Char('G'), KeyModifiers::shift());
    assert_eq!(app.selected_item_index, 2);
}

#[test]
fn test_gg_jumps_to_first_sidebar() {
    let mut app = App::with_lists(vec![
        TodoList::new("Alpha"),
        TodoList::new("Beta"),
        TodoList::new("Gamma"),
    ]);
    app.active_pane = Pane::Sidebar;
    app.selected_sidebar_index = 2;
    app.selected_list_index = 2;
    key(&mut app, KeyCode::Char('g'));
    key(&mut app, KeyCode::Char('g'));
    assert_eq!(app.selected_sidebar_index, 0);
    assert_eq!(app.selected_list_index, 0);
}

#[test]
fn test_shift_g_jumps_to_last_sidebar() {
    let mut app = App::with_lists(vec![
        TodoList::new("Alpha"),
        TodoList::new("Beta"),
        TodoList::new("Gamma"),
    ]);
    app.active_pane = Pane::Sidebar;
    assert_eq!(app.selected_list_index, 0);
    key_with_mod(&mut app, KeyCode::Char('G'), KeyModifiers::shift());
    assert_eq!(app.selected_list_index, 2);
}

#[test]
fn test_pending_g_cleared_by_other_key() {
    let mut app = work_personal_app();
    app.selected_item_index = 2;
    key(&mut app, KeyCode::Char('g'));
    assert!(app.pending_g);
    key(&mut app, KeyCode::Char('k'));
    assert!(!app.pending_g);
    assert_eq!(app.selected_item_index, 1);
}

#[test]
fn test_ctrl_d_page_down() {
    let mut app = work_personal_app();
    app.selected_item_index = 0;
    app.page_down(2);
    assert_eq!(app.selected_item_index, 2);
}

#[test]
fn test_ctrl_u_page_up() {
    let mut app = work_personal_app();
    app.selected_item_index = 2;
    app.page_up(2);
    assert_eq!(app.selected_item_index, 0);
}

#[test]
fn test_ctrl_d_dispatches() {
    let mut app = work_personal_app();
    app.selected_item_index = 0;
    key_with_mod(&mut app, KeyCode::Char('d'), KeyModifiers::control());
    assert_eq!(app.input_mode, InputMode::Normal);
}

#[test]
fn test_ctrl_u_dispatches() {
    let mut app = work_personal_app();
    app.selected_item_index = 2;
    key_with_mod(&mut app, KeyCode::Char('u'), KeyModifiers::control());
    assert_eq!(app.input_mode, InputMode::Normal);
}

#[test]
fn test_autocomplete_up_down_navigates() {
    let mut app = work_personal_app();
    set_item_at(&mut app, 0, 1, |item| item.tags = vec!["cooking".to_string()]);
    key(&mut app, KeyCode::Char('n'));
    key(&mut app, KeyCode::Char('@'));
    key(&mut app, KeyCode::Char('c'));
    assert!(app.autocomplete_active);
    assert_eq!(app.autocomplete_cursor, 0);

    key(&mut app, KeyCode::Down);
    assert_eq!(app.autocomplete_cursor, 1);

    key(&mut app, KeyCode::Up);
    assert_eq!(app.autocomplete_cursor, 0);
}

#[test]
fn test_x_toggles_selection_in_main() {
    let mut app = work_personal_app();
    key(&mut app, KeyCode::Char('x'));
    assert!(!app.selected_items.is_empty());
    key(&mut app, KeyCode::Char('x'));
    assert!(app.selected_items.is_empty());
}

#[test]
fn test_delete_key_deletes_in_main() {
    let mut app = work_personal_app();
    assert_eq!(list_len(&app, 0), 3);
    key(&mut app, KeyCode::Delete);
    assert_eq!(list_len(&app, 0), 2);
}

#[test]
fn test_delete_key_in_sidebar_deletes_list() {
    let mut app = work_personal_app();
    app.active_pane = Pane::Sidebar;
    assert_eq!(app.num_lists(), 2);
    key(&mut app, KeyCode::Delete);
    assert_eq!(app.input_mode, InputMode::ConfirmDelete);
}

#[test]
fn test_m_starts_move_to_list() {
    let mut app = work_personal_app();
    key(&mut app, KeyCode::Char('m'));
    assert_eq!(app.input_mode, InputMode::MovingToList);
}

#[test]
fn test_move_to_list_mode_enter_confirms() {
    let mut app = work_personal_app();
    key(&mut app, KeyCode::Char('m'));
    assert_eq!(app.input_mode, InputMode::MovingToList);
    key(&mut app, KeyCode::Enter);
    assert_eq!(app.input_mode, InputMode::Normal);
    assert_eq!(list_len(&app, 1), 1);
}

#[test]
fn test_move_to_list_mode_esc_cancels() {
    let mut app = work_personal_app();
    key(&mut app, KeyCode::Char('m'));
    assert_eq!(app.input_mode, InputMode::MovingToList);
    key(&mut app, KeyCode::Esc);
    assert_eq!(app.input_mode, InputMode::Normal);
    assert_eq!(list_len(&app, 0), 3);
}

#[test]
fn test_esc_clears_selection_in_main() {
    let mut app = work_personal_app();
    key(&mut app, KeyCode::Char('x'));
    assert!(!app.selected_items.is_empty());
    key(&mut app, KeyCode::Esc);
    assert!(app.selected_items.is_empty());
}

#[test]
fn test_sidebar_d_toggles_list_type() {
    let mut app = work_personal_app();
    app.active_pane = Pane::Sidebar;
    assert_eq!(app.nth_list(0).unwrap().list_type, "normal");
    key(&mut app, KeyCode::Char('d'));
    assert_eq!(app.nth_list(0).unwrap().list_type, "daily");
    key(&mut app, KeyCode::Char('d'));
    assert_eq!(app.nth_list(0).unwrap().list_type, "normal");
}

#[test]
fn test_sidebar_no_rename_on_tag() {
    let mut work = TodoList::new("Work");
    work.items.push(TodoItem {
        title: "A".into(),
        done: false,
        tags: vec!["code".into()],
        time_secs: 0,
    });
    let mut app = App::with_lists(vec![work]);
    app.active_pane = Pane::Sidebar;
    app.selected_sidebar_index = 1;
    key(&mut app, KeyCode::Enter);
    assert_eq!(app.input_mode, InputMode::Normal);
}

#[test]
fn test_sidebar_no_delete_on_tag() {
    let mut work = TodoList::new("Work");
    work.items.push(TodoItem {
        title: "A".into(),
        done: false,
        tags: vec!["code".into()],
        time_secs: 0,
    });
    let mut app = App::with_lists(vec![work]);
    app.active_pane = Pane::Sidebar;
    app.selected_sidebar_index = 1;
    key(&mut app, KeyCode::Delete);
    assert_eq!(app.input_mode, InputMode::Normal);
}

#[test]
fn test_main_no_add_in_tag_view() {
    let mut work = TodoList::new("Work");
    work.items.push(TodoItem {
        title: "A".into(),
        done: false,
        tags: vec!["code".into()],
        time_secs: 0,
    });
    let mut app = App::with_lists(vec![work]);
    app.active_pane = Pane::Main;
    app.selected_sidebar_index = 1;
    key(&mut app, KeyCode::Char('n'));
    assert_eq!(app.input_mode, InputMode::Normal);
}

#[test]
fn test_main_toggle_done_works_in_tag_view() {
    let mut work = TodoList::new("Work");
    work.items.push(TodoItem {
        title: "A".into(),
        done: false,
        tags: vec!["code".into()],
        time_secs: 0,
    });
    let mut app = App::with_lists(vec![work]);
    app.active_pane = Pane::Main;
    app.selected_sidebar_index = 1;
    key(&mut app, KeyCode::Char(' '));
    assert!(app.items_for_nth_list(0)[0].done);
}

#[test]
fn test_main_edit_works_in_tag_view() {
    let mut work = TodoList::new("Work");
    work.items.push(TodoItem {
        title: "A".into(),
        done: false,
        tags: vec!["code".into()],
        time_secs: 0,
    });
    let mut app = App::with_lists(vec![work]);
    app.active_pane = Pane::Main;
    app.selected_sidebar_index = 1;
    key(&mut app, KeyCode::Enter);
    assert_eq!(app.input_mode, InputMode::EditingItem);
    assert_eq!(app.input_buffer, "A");
}

#[test]
fn test_main_delete_works_in_tag_view() {
    let mut work = TodoList::new("Work");
    work.items.push(TodoItem {
        title: "A".into(),
        done: false,
        tags: vec!["code".into()],
        time_secs: 0,
    });
    let mut app = App::with_lists(vec![work]);
    app.active_pane = Pane::Main;
    app.selected_sidebar_index = 1;
    key(&mut app, KeyCode::Delete);
    assert_eq!(list_len(&app, 0), 0);
}
