use todui::app::{context_slug, App};
use todui::config::{KeyCode, KeyModifiers};
use todui::model::{InputMode, ListType, Pane, TodoItem, TodoList};
use todui::session::{help_step, login_field, login_step, login_url, poll_timeout_ms, poll_url, HelpStep, LoginStep};
use todui::storage::{
    archive_text, context_names, format_time, last_context_of, lock_held, order_files, order_lines, order_text,
    parse_list, parse_time_str, parse_todo_line, save_all, serialize_item, serialize_list,
};
use todui::sync_transport::{
    bearer_header, command_step, frame_step, next_backoff, sync_url, to_ws_url, Frame, SessionStep, SyncCommand,
};

fn work_app() -> App {
    let mut work = TodoList::new("Work");
    work.items.push(TodoItem { title: "Task A".to_string(), done: false, tags: vec!["code".to_string()], time_secs: 0 });
    work.items.push(TodoItem { title: "Task B".to_string(), done: true, tags: vec![], time_secs: 0 });
    let mut app = App::with_lists(vec![work, TodoList::new("Personal")]);
    app.active_pane = Pane::Main;
    app
}

fn titles(app: &App, n: usize) -> Vec<String> {
    app.items_for_nth_list(n).iter().map(|i| i.title.clone()).collect()
}

#[test]
fn time_round_trip_on_values() {
    for secs in [1u64, 30, 59, 60, 90, 2700, 3600, 3661, 5400, 86399, 1_000_000] {
        assert_eq!(parse_time_str(&format_time(secs)), Some(secs));
    }
    assert_eq!(format_time(0), "");
    assert_eq!(parse_time_str(&format_time(0)), None);
}

#[test]
fn item_round_trip_on_values() {
    let items = vec![
        TodoItem { title: "Plain".to_string(), done: false, tags: vec![], time_secs: 0 },
        TodoItem { title: "Tagged".to_string(), done: true, tags: vec!["a".to_string(), "b".to_string()], time_secs: 0 },
        TodoItem { title: "Timed".to_string(), done: false, tags: vec!["x".to_string()], time_secs: 3661 },
    ];
    for item in items {
        let text = serialize_item(&item);
        assert!(text.ends_with('\n'));
        assert_eq!(parse_todo_line(text.trim_end_matches('\n')), Some(item));
    }
}

#[test]
fn list_round_trip_on_values() {
    let mut list = TodoList::new("Habits");
    list.list_type = ListType::Daily;
    list.last_reset = Some("2026-01-02".to_string());
    list.items.push(TodoItem { title: "Walk".to_string(), done: true, tags: vec!["health".to_string()], time_secs: 600 });
    list.items.push(TodoItem { title: "Read".to_string(), done: false, tags: vec![], time_secs: 0 });
    assert_eq!(parse_list(&serialize_list(&list)), list);
}

#[test]
fn undo_reverts_add_and_redo_restores_it() {
    let mut app = work_app();
    let before = titles(&app, 0);
    app.add_todo("New @tag".to_string());
    let after = titles(&app, 0);
    assert_eq!(after.len(), before.len() + 1);
    app.undo();
    assert_eq!(titles(&app, 0), before);
    app.redo();
    assert_eq!(titles(&app, 0), after);
}

#[test]
fn undo_with_empty_history_changes_nothing() {
    let mut app = work_app();
    let before = titles(&app, 0);
    app.undo();
    assert_eq!(titles(&app, 0), before);
    app.redo();
    assert_eq!(titles(&app, 0), before);
}

#[test]
fn with_lists_starts_in_default_context() {
    let app = work_app();
    assert_eq!(app.current_context, "default");
    assert_eq!(app.num_lists(), 2);
    assert_eq!(app.nth_list(0).unwrap().name, "Work");
    assert!(app.nth_list(2).is_none());
    assert!(app.items_for_nth_list(5).is_empty());
}

#[test]
fn context_slug_lowercases_and_dashes() {
    assert_eq!(context_slug("My Work"), "my-work");
    assert_eq!(context_slug("ABC"), "abc");
    assert_eq!(context_slug(""), "");
}

#[test]
fn creating_context_with_blank_name_closes_input() {
    let mut app = work_app();
    app.start_input(InputMode::CreatingContext, "");
    assert_eq!(app.confirm_input(), None);
    assert_eq!(app.input_mode, InputMode::Normal);
    app.start_input(InputMode::CreatingContext, "Side Project");
    assert_eq!(app.confirm_input(), Some("side-project".to_string()));
}

fn chrono_today() -> String {
    chrono::Local::now().format("%Y-%m-%d").to_string()
}

#[test]
fn focus_starts_at_the_clock() {
    let mut app = work_app();
    let before = app.clock_now();
    app.start_focus();
    let after = app.clock_now();
    let started = app.focus_start.unwrap();
    assert!(before <= started && started <= after);
}

#[test]
fn daily_list_is_stamped_with_todays_date() {
    let mut app = work_app();
    app.active_pane = Pane::Sidebar;
    app.toggle_list_type();
    let today = chrono_today();
    assert_eq!(app.nth_list(0).unwrap().last_reset, Some(today));
}

#[test]
fn reset_twice_on_one_day_is_reset_once() {
    let mut list = TodoList::new("Habits");
    list.list_type = ListType::Daily;
    list.last_reset = Some("2020-01-01".to_string());
    list.items.push(TodoItem { title: "Walk".to_string(), done: true, tags: vec![], time_secs: 5 });
    list.items.push(TodoItem { title: "Read".to_string(), done: false, tags: vec![], time_secs: 0 });
    let mut app = App::with_lists(vec![list]);
    app.reset_daily_lists();
    let once: Vec<(String, bool, u64, i64)> =
        app.items_for_nth_list(0).iter().map(|i| (i.title.clone(), i.done, i.time_secs, i.position)).collect();
    assert_eq!(app.nth_list(0).unwrap().last_reset, Some(chrono_today()));
    app.reset_daily_lists();
    let twice: Vec<(String, bool, u64, i64)> =
        app.items_for_nth_list(0).iter().map(|i| (i.title.clone(), i.done, i.time_secs, i.position)).collect();
    assert_eq!(once, twice);
    assert!(twice.iter().all(|(_, done, _, _)| !done));
}

#[test]
fn reset_daily_lists_on_a_new_day_unchecks_items() {
    let mut list = TodoList::new("Habits");
    list.list_type = ListType::Daily;
    list.last_reset = Some("2020-01-01".to_string());
    list.items.push(TodoItem { title: "Walk".to_string(), done: true, tags: vec![], time_secs: 0 });
    let mut app = App::with_lists(vec![list]);
    app.reset_daily_lists_on("2020-01-02");
    assert!(!app.items_for_nth_list(0)[0].done);
    assert_eq!(app.nth_list(0).unwrap().last_reset, Some("2020-01-02".to_string()));
}

#[test]
fn poll_timeouts() {
    assert_eq!(poll_timeout_ms(InputMode::Focused, false, false, false), 250);
    assert_eq!(poll_timeout_ms(InputMode::Normal, true, false, false), 500);
    assert_eq!(poll_timeout_ms(InputMode::Normal, false, false, true), 500);
    assert_eq!(poll_timeout_ms(InputMode::Normal, false, false, false), 60000);
}

#[test]
fn help_keys() {
    assert!(matches!(help_step(KeyCode::Char('?'), InputMode::Normal, false), HelpStep::Toggle));
    assert!(matches!(help_step(KeyCode::Char('?'), InputMode::Searching, true), HelpStep::Close));
    assert!(matches!(help_step(KeyCode::Char('a'), InputMode::Normal, false), HelpStep::Pass));
}

#[test]
fn login_values() {
    assert_eq!(login_field("  me@x.org \n"), Some("me@x.org".to_string()));
    assert_eq!(login_field("   \n"), None);
    assert_eq!(login_url("https://s.io"), "https://s.io/auth/login");
    assert_eq!(poll_url("https://s.io", "p1"), "https://s.io/auth/poll?poll_id=p1");
    assert!(matches!(login_step(Some("verified"), Some("tok")), LoginStep::Verified(t) if t == "tok"));
    assert!(matches!(login_step(Some("verified"), None), LoginStep::MissingToken));
    assert!(matches!(login_step(Some("expired"), None), LoginStep::Expired));
    assert!(matches!(login_step(Some("pending"), None), LoginStep::Pending));
    assert!(matches!(login_step(None, None), LoginStep::Pending));
}

#[test]
fn sync_addresses() {
    assert_eq!(to_ws_url("https://a.b"), "wss://a.b");
    assert_eq!(to_ws_url("http://a.b"), "ws://a.b");
    assert_eq!(to_ws_url("ws://a.b"), "ws://a.b");
    assert_eq!(sync_url("wss://a.b", "work"), "wss://a.b/sync/work");
    assert_eq!(bearer_header("tok"), "Bearer tok");
}

#[test]
fn backoff_doubles_up_to_a_minute() {
    assert_eq!(next_backoff(1), 2);
    assert_eq!(next_backoff(16), 32);
    assert_eq!(next_backoff(32), 60);
    assert_eq!(next_backoff(60), 60);
}

#[test]
fn session_steps() {
    assert!(matches!(frame_step(Frame::Binary(vec![1, 2])), SessionStep::Deliver(b) if b == vec![1, 2]));
    assert!(matches!(frame_step(Frame::Close), SessionStep::End(false)));
    assert!(matches!(frame_step(Frame::Error), SessionStep::End(false)));
    assert!(matches!(frame_step(Frame::End), SessionStep::End(false)));
    assert!(matches!(frame_step(Frame::Other), SessionStep::Continue));
    assert!(matches!(command_step(Some(SyncCommand::SendMessage(vec![3]))), SessionStep::Send(b) if b == vec![3]));
    assert!(matches!(command_step(Some(SyncCommand::Shutdown)), SessionStep::CloseAndStop));
    assert!(matches!(command_step(None), SessionStep::End(true)));
}

#[test]
fn files_of_a_context() {
    let mut work = TodoList::new("My Work");
    work.items.push(TodoItem { title: "A".to_string(), done: false, tags: vec![], time_secs: 0 });
    let lists = vec![work, TodoList::new("Home")];
    let files = save_all(&lists);
    assert_eq!(files.len(), 2);
    assert_eq!(files[0].0, "my-work.md");
    assert_eq!(files[0].1, "# My Work\n\n- [ ] A\n");
    assert_eq!(order_text(&lists), "my-work.md\nhome.md");
    assert_eq!(order_lines("a.md\n\nb.md\n"), vec!["a.md", "b.md"]);
    assert_eq!(last_context_of("  work \n"), Some("work".to_string()));
    assert_eq!(last_context_of(" \n"), None);
    assert!(lock_held("1234\n", true));
    assert!(!lock_held("1234\n", false));
    assert!(!lock_held("  ", true));
    let items = vec![TodoItem { title: "Done".to_string(), done: true, tags: vec!["t".to_string()], time_secs: 60 }];
    assert_eq!(archive_text(&items), "- [x] Done [1m] @t\n");
    let names = vec!["work".to_string(), ".git".to_string(), "default".to_string()];
    assert_eq!(context_names(&names), vec!["default", "work"]);
    let files = vec!["c.md".to_string(), "a.md".to_string(), "b.md".to_string()];
    let order = vec!["b.md".to_string(), "x.md".to_string()];
    assert_eq!(order_files(&files, &order), vec!["b.md", "c.md", "a.md"]);
    assert_eq!(order_files(&files, &vec![]), vec!["a.md", "b.md", "c.md"]);
}

#[test]
fn key_modifiers_union() {
    let m = KeyModifiers::alt().union(KeyModifiers::shift());
    assert!(m.alt && m.shift && !m.control);
}

#[test]
fn durations_take_the_last_run_of_each_unit() {
    assert_eq!(parse_time_str("1h2m1h"), Some(3720));
    assert_eq!(parse_time_str("90m1m"), Some(60));
    assert_eq!(parse_time_str("5s0h"), Some(5));
    assert_eq!(parse_time_str("0h0m"), None);
    assert_eq!(parse_time_str("1hm"), None);
    assert_eq!(parse_time_str("12"), None);
    assert_eq!(parse_time_str("1x"), None);
}

#[test]
fn clamping_twice_changes_nothing() {
    let mut app = work_app();
    app.selected_sidebar_index = 1;
    app.selected_list_index = 7;
    app.selected_item_index = 42;
    app.clamp_selection();
    let once = (app.selected_sidebar_index, app.selected_list_index, app.selected_item_index);
    app.clamp_selection();
    assert_eq!((app.selected_sidebar_index, app.selected_list_index, app.selected_item_index), once);
    assert_eq!(once, (1, 1, 0));
}

#[test]
fn a_new_item_lands_above_a_selected_done_row() {
    let mut app = work_app();
    app.selected_sidebar_index = 0;
    app.selected_list_index = 0;
    app.selected_item_index = 1;
    let before = app.resolve_selected_item().unwrap();
    app.add_todo("New".to_string());
    assert_eq!(app.selected_item_index, 2);
    assert_eq!(app.resolve_selected_item().unwrap(), before);
    let rows: Vec<String> = app.visible_items().iter().map(|(_, i)| i.title.clone()).collect();
    assert_eq!(rows, vec!["Task A".to_string(), "New".to_string(), "Task B".to_string()]);
}
