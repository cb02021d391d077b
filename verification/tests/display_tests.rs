use todui::app::App;
use todui::config::{Action, KeyCode, KeyConfig, KeyMap, KeyModifiers};
use todui::display::{empty_hint, focus_text, item_rows, search_hint, search_rows};
use todui::input::handle_key;
use todui::model::{InputMode, Pane, TodoItem, TodoList};
use todui::storage::{content_fits, line_fits};

fn display_app() -> App {
    let mut work = TodoList::new("Work");
    work.items.push(TodoItem { title: "Task A".to_string(), done: false, tags: vec!["code".to_string()], time_secs: 2700 });
    work.items.push(TodoItem { title: "Task B".to_string(), done: true, tags: vec![], time_secs: 0 });
    let mut app = App::with_lists(vec![work, TodoList::new("Personal")]);
    app.active_pane = Pane::Main;
    app
}

#[test]
fn rows_show_marks_titles_times_and_tags() {
    let app = display_app();
    let rows = item_rows(&app, 10);
    assert_eq!(rows.len(), 2);
    assert_eq!(rows[0].text, "  \u{2751} Task A");
    assert_eq!(rows[0].time, "  45m");
    assert_eq!(rows[0].tags, "  @code");
    assert!(rows[0].selected && !rows[0].done);
    assert_eq!(rows[1].text, "  \u{2714} Task B");
    assert_eq!(rows[1].time, "");
    assert_eq!(rows[1].tags, "");
    assert!(rows[1].done && !rows[1].selected);
}

#[test]
fn rows_in_ascii_mode() {
    let mut app = display_app();
    app.ascii_mode = true;
    let rows = item_rows(&app, 10);
    assert_eq!(rows[0].text, "  [ ] Task A");
    assert_eq!(rows[1].text, "  [x] Task B");
}

#[test]
fn rows_window_follows_the_selection() {
    let mut app = display_app();
    app.selected_item_index = 1;
    let rows = item_rows(&app, 1);
    assert_eq!(rows.len(), 1);
    assert_eq!(rows[0].text, "  \u{2714} Task B");
    assert!(rows[0].selected);
    assert!(item_rows(&app, 0).is_empty());
}

#[test]
fn hints_for_empty_lists() {
    let mut app = display_app();
    assert_eq!(empty_hint(&app), None);
    app.selected_list_index = 1;
    app.selected_sidebar_index = 1;
    assert_eq!(empty_hint(&app), Some("No items. Press n to add one.".to_string()));
    app.show_done = false;
    assert_eq!(empty_hint(&app), Some("All items completed. Press Shift+D to show.".to_string()));
    app.input_mode = InputMode::AddingItem;
    assert_eq!(empty_hint(&app), None);
}

#[test]
fn search_rows_list_hits() {
    let mut app = display_app();
    app.start_search();
    assert_eq!(search_hint(&app), Some("Type to search...".to_string()));
    for c in "Task A".chars() {
        app.input_insert_char(c);
    }
    app.update_search_results();
    assert_eq!(search_hint(&app), None);
    let rows = search_rows(&app, 10);
    assert!(rows.contains(&"  \u{2751} Task A  45m  \u{2014} Work".to_string()));
    app.input_insert_char('z');
    app.update_search_results();
    assert_eq!(search_hint(&app), Some("No matches".to_string()));
}

#[test]
fn focus_screen_text() {
    let mut app = display_app();
    app.selected_item_index = 0;
    app.start_focus_at(1000);
    let f = focus_text(&app, 1000 + 3725).unwrap();
    assert_eq!(f.title, "Task A");
    assert_eq!(f.clock, "01:02:05");
    assert_eq!(f.total, "Total: 1h47m5s");
    assert_eq!(f.hint, "Esc: stop  Space: pause");
    app.toggle_pause_focus_at(1005);
    let g = focus_text(&app, 2000).unwrap();
    assert_eq!(g.clock, "00:00:05  PAUSED");
    assert_eq!(g.hint, "Esc: stop  Space: resume");
}

#[test]
fn fitting_contents() {
    assert!(line_fits("- [ ] Walk [30m] @health"));
    assert!(!line_fits("- [ ] Walk [6000000000000000h]"));
    assert!(line_fits("no checkbox [6000000000000000h]"));
    assert!(content_fits("# Work\n\n- [ ] A [1h]\n"));
    assert!(!content_fits("# Work\n\n- [ ] A [6000000000000000h]\n"));
}

#[test]
fn configuration_text_overrides_keys() {
    let config = KeyConfig::from_toml("[keys.normal]\n\"alt+s\" = \"quit\"\n");
    assert!(config.normal.get(&(KeyModifiers::alt(), KeyCode::Char('s'))).is_some());
    assert_eq!(KeyConfig::from_toml("not { toml"), KeyConfig::default());
    assert_eq!(KeyConfig::from_toml_doc(&None), KeyConfig::default());
}

#[test]
fn configured_keys_still_work_behind_fixed_ones() {
    let mut app = display_app();
    app.active_pane = Pane::Main;
    handle_key(&mut app, (KeyModifiers::alt(), KeyCode::Char('c')), None, &vec![]);
    assert_eq!(app.input_mode, InputMode::SwitchingContext);
}

#[test]
fn slash_opens_search_and_g_waits() {
    let mut app = display_app();
    handle_key(&mut app, (KeyModifiers::none(), KeyCode::Char('g')), None, &vec![]);
    assert!(app.pending_g);
    handle_key(&mut app, (KeyModifiers::none(), KeyCode::Char('/')), None, &vec![]);
    assert!(!app.pending_g);
    assert_eq!(app.input_mode, InputMode::Searching);
}

#[test]
fn key_maps_equal_whatever_the_order() {
    let none = KeyModifiers::none();
    let mut a = KeyMap::new();
    a.insert((none, KeyCode::Char('a')), Action::Quit);
    a.insert((none, KeyCode::Char('b')), Action::Undo);
    let mut b = KeyMap::new();
    b.insert((none, KeyCode::Char('b')), Action::Undo);
    b.insert((none, KeyCode::Char('a')), Action::Quit);
    assert_eq!(a, b);
    b.insert((none, KeyCode::Char('a')), Action::Redo);
    assert_ne!(a, b);
    b.insert((none, KeyCode::Char('a')), Action::Quit);
    b.insert((none, KeyCode::Char('c')), Action::Quit);
    assert_ne!(a, b);
}

#[test]
fn the_clock_counts_from_its_origin() {
    let mut app = display_app();
    let start = app.clock_now();
    app.clock_base = app.clock_base.checked_sub(std::time::Duration::from_secs(30)).unwrap();
    assert!(app.clock_now() >= start + 30);
}
