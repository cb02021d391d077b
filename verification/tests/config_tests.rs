use todui::config::{format_key_display, parse_action, parse_key, Action, KeyCode, KeyConfig, KeyModifiers, TomlValue};

fn from_table(t: &toml::Table) -> TomlValue {
    TomlValue::Table(t.iter().map(|(k, v)| (k.clone(), from_value(v))).collect())
}

fn from_value(v: &toml::Value) -> TomlValue {
    match v {
        toml::Value::String(s) => TomlValue::String(s.clone()),
        toml::Value::Table(t) => from_table(t),
        _ => TomlValue::Other,
    }
}

#[test]
fn parse_key_simple_named_keys() {
    assert_eq!(
        parse_key("enter"),
        Some((KeyModifiers::none(), KeyCode::Enter))
    );
    assert_eq!(
        parse_key("space"),
        Some((KeyModifiers::none(), KeyCode::Char(' ')))
    );
    assert_eq!(parse_key("tab"), Some((KeyModifiers::none(), KeyCode::Tab)));
    assert_eq!(parse_key("esc"), Some((KeyModifiers::none(), KeyCode::Esc)));
    assert_eq!(parse_key("up"), Some((KeyModifiers::none(), KeyCode::Up)));
    assert_eq!(parse_key("down"), Some((KeyModifiers::none(), KeyCode::Down)));
    assert_eq!(parse_key("left"), Some((KeyModifiers::none(), KeyCode::Left)));
    assert_eq!(
        parse_key("right"),
        Some((KeyModifiers::none(), KeyCode::Right))
    );
    assert_eq!(parse_key("home"), Some((KeyModifiers::none(), KeyCode::Home)));
    assert_eq!(parse_key("end"), Some((KeyModifiers::none(), KeyCode::End)));
    assert_eq!(
        parse_key("delete"),
        Some((KeyModifiers::none(), KeyCode::Delete))
    );
    assert_eq!(
        parse_key("backspace"),
        Some((KeyModifiers::none(), KeyCode::Backspace))
    );
}

#[test]
fn parse_key_char_keys() {
    assert_eq!(
        parse_key("a"),
        Some((KeyModifiers::none(), KeyCode::Char('a')))
    );
    assert_eq!(
        parse_key("z"),
        Some((KeyModifiers::none(), KeyCode::Char('z')))
    );
    assert_eq!(
        parse_key("0"),
        Some((KeyModifiers::none(), KeyCode::Char('0')))
    );
    assert_eq!(
        parse_key("9"),
        Some((KeyModifiers::none(), KeyCode::Char('9')))
    );
}

#[test]
fn parse_key_uppercase_chars() {
    assert_eq!(
        parse_key("A"),
        Some((KeyModifiers::none(), KeyCode::Char('A')))
    );
    assert_eq!(
        parse_key("Z"),
        Some((KeyModifiers::none(), KeyCode::Char('Z')))
    );
    assert_eq!(
        parse_key("D"),
        Some((KeyModifiers::none(), KeyCode::Char('D')))
    );
}

#[test]
fn parse_key_single_modifier() {
    assert_eq!(
        parse_key("alt+q"),
        Some((KeyModifiers::alt(), KeyCode::Char('q')))
    );
    assert_eq!(
        parse_key("ctrl+c"),
        Some((KeyModifiers::control(), KeyCode::Char('c')))
    );
    assert_eq!(
        parse_key("shift+up"),
        Some((KeyModifiers::shift(), KeyCode::Up))
    );
    assert_eq!(
        parse_key("super+a"),
        Some((KeyModifiers::super_key(), KeyCode::Char('a')))
    );
}

#[test]
fn parse_key_combined_modifiers() {
    assert_eq!(
        parse_key("alt+shift+up"),
        Some((KeyModifiers::alt().union(KeyModifiers::shift()), KeyCode::Up))
    );
    assert_eq!(
        parse_key("alt+super+down"),
        Some((KeyModifiers::alt().union(KeyModifiers::super_key()), KeyCode::Down))
    );
    assert_eq!(
        parse_key("ctrl+shift+a"),
        Some((
            KeyModifiers::control().union(KeyModifiers::shift()),
            KeyCode::Char('a')
        ))
    );
}

#[test]
fn parse_key_case_insensitive_modifiers() {
    assert_eq!(
        parse_key("Alt+q"),
        Some((KeyModifiers::alt(), KeyCode::Char('q')))
    );
    assert_eq!(
        parse_key("ALT+q"),
        Some((KeyModifiers::alt(), KeyCode::Char('q')))
    );
    assert_eq!(
        parse_key("Ctrl+c"),
        Some((KeyModifiers::control(), KeyCode::Char('c')))
    );
    assert_eq!(
        parse_key("SHIFT+up"),
        Some((KeyModifiers::shift(), KeyCode::Up))
    );
}

#[test]
fn parse_key_case_sensitive_letter_keys() {
    assert_eq!(
        parse_key("alt+q"),
        Some((KeyModifiers::alt(), KeyCode::Char('q')))
    );
    assert_eq!(
        parse_key("alt+Q"),
        Some((KeyModifiers::alt(), KeyCode::Char('Q')))
    );
    assert_ne!(parse_key("alt+q"), parse_key("alt+Q"));
}

#[test]
fn parse_key_named_keys_case_variants() {
    assert_eq!(
        parse_key("Enter"),
        Some((KeyModifiers::none(), KeyCode::Enter))
    );
    assert_eq!(
        parse_key("Space"),
        Some((KeyModifiers::none(), KeyCode::Char(' ')))
    );
    assert_eq!(parse_key("Tab"), Some((KeyModifiers::none(), KeyCode::Tab)));
    assert_eq!(parse_key("Esc"), Some((KeyModifiers::none(), KeyCode::Esc)));
    assert_eq!(parse_key("Up"), Some((KeyModifiers::none(), KeyCode::Up)));
    assert_eq!(parse_key("Down"), Some((KeyModifiers::none(), KeyCode::Down)));
    assert_eq!(parse_key("Home"), Some((KeyModifiers::none(), KeyCode::Home)));
    assert_eq!(parse_key("End"), Some((KeyModifiers::none(), KeyCode::End)));
    assert_eq!(
        parse_key("Delete"),
        Some((KeyModifiers::none(), KeyCode::Delete))
    );
    assert_eq!(
        parse_key("Backspace"),
        Some((KeyModifiers::none(), KeyCode::Backspace))
    );
}

#[test]
fn parse_key_invalid_input() {
    assert_eq!(parse_key(""), None);
    assert_eq!(parse_key("foo"), None);
    assert_eq!(parse_key("alt+"), None);
    assert_eq!(parse_key("notamod+a"), None);
    assert_eq!(parse_key("alt+foo"), None);
    assert_eq!(parse_key("alt+ab"), None);
}

#[test]
fn default_normal_quit_keys() {
    let config = KeyConfig::default();
    assert_eq!(
        config.normal.get(&(KeyModifiers::alt(), KeyCode::Char('q'))),
        Some(&Action::Quit)
    );
    assert_eq!(
        config.normal.get(&(KeyModifiers::alt(), KeyCode::Char('Q'))),
        Some(&Action::Quit)
    );
    assert_eq!(
        config
            .normal
            .get(&(KeyModifiers::control(), KeyCode::Char('c'))),
        Some(&Action::Quit)
    );
}

#[test]
fn default_normal_navigation_keys() {
    let config = KeyConfig::default();
    assert_eq!(
        config.normal.get(&(KeyModifiers::none(), KeyCode::Tab)),
        Some(&Action::TogglePane)
    );
    assert_eq!(
        config.normal.get(&(KeyModifiers::none(), KeyCode::Up)),
        Some(&Action::MoveUp)
    );
    assert_eq!(
        config.normal.get(&(KeyModifiers::none(), KeyCode::Down)),
        Some(&Action::MoveDown)
    );
    assert_eq!(
        config.normal.get(&(KeyModifiers::none(), KeyCode::Home)),
        Some(&Action::JumpToFirst)
    );
    assert_eq!(
        config.normal.get(&(KeyModifiers::none(), KeyCode::End)),
        Some(&Action::JumpToLast)
    );
}

#[test]
fn default_normal_undo_redo_keys() {
    let config = KeyConfig::default();
    assert_eq!(
        config.normal.get(&(KeyModifiers::alt(), KeyCode::Char('u'))),
        Some(&Action::Undo)
    );
    assert_eq!(
        config.normal.get(&(KeyModifiers::alt(), KeyCode::Char('U'))),
        Some(&Action::Undo)
    );
    assert_eq!(
        config
            .normal
            .get(&(KeyModifiers::control(), KeyCode::Char('z'))),
        Some(&Action::Undo)
    );
    assert_eq!(
        config
            .normal
            .get(&(KeyModifiers::control(), KeyCode::Char('y'))),
        Some(&Action::Redo)
    );
}

#[test]
fn default_normal_page_and_context_keys() {
    let config = KeyConfig::default();
    assert_eq!(
        config
            .normal
            .get(&(KeyModifiers::control(), KeyCode::Char('d'))),
        Some(&Action::PageDown)
    );
    assert_eq!(
        config
            .normal
            .get(&(KeyModifiers::control(), KeyCode::Char('u'))),
        Some(&Action::PageUp)
    );
    assert_eq!(
        config.normal.get(&(KeyModifiers::alt(), KeyCode::Char('c'))),
        Some(&Action::SwitchContext)
    );
}

#[test]
fn default_normal_main_basic_keys() {
    let config = KeyConfig::default();
    assert_eq!(
        config.normal_main.get(&(KeyModifiers::alt(), KeyCode::Enter)),
        Some(&Action::ToggleDone)
    );
    assert_eq!(
        config
            .normal_main
            .get(&(KeyModifiers::none(), KeyCode::Enter)),
        Some(&Action::EditItem)
    );
    assert_eq!(
        config
            .normal_main
            .get(&(KeyModifiers::alt(), KeyCode::Char('t'))),
        Some(&Action::EditTags)
    );
    assert_eq!(
        config
            .normal_main
            .get(&(KeyModifiers::none(), KeyCode::Char(' '))),
        Some(&Action::AddItem)
    );
}

#[test]
fn default_normal_main_select_delete_move() {
    let config = KeyConfig::default();
    assert_eq!(
        config
            .normal_main
            .get(&(KeyModifiers::alt(), KeyCode::Char('x'))),
        Some(&Action::ToggleSelect)
    );
    assert_eq!(
        config
            .normal_main
            .get(&(KeyModifiers::alt(), KeyCode::Char('X'))),
        Some(&Action::ToggleSelect)
    );
    assert_eq!(
        config
            .normal_main
            .get(&(KeyModifiers::none(), KeyCode::Delete)),
        Some(&Action::Delete)
    );
    assert_eq!(
        config
            .normal_main
            .get(&(KeyModifiers::none(), KeyCode::Backspace)),
        Some(&Action::Delete)
    );
    assert_eq!(
        config
            .normal_main
            .get(&(KeyModifiers::alt(), KeyCode::Char('m'))),
        Some(&Action::MoveToList)
    );
    assert_eq!(
        config
            .normal_main
            .get(&(KeyModifiers::alt(), KeyCode::Char('M'))),
        Some(&Action::MoveToList)
    );
}

#[test]
fn default_normal_main_reorder_keys() {
    let config = KeyConfig::default();
    assert_eq!(
        config.normal_main.get(&(KeyModifiers::shift(), KeyCode::Up)),
        Some(&Action::MoveItemUp)
    );
    assert_eq!(
        config.normal_main.get(&(KeyModifiers::alt(), KeyCode::Up)),
        Some(&Action::MoveItemUp)
    );
    assert_eq!(
        config
            .normal_main
            .get(&(KeyModifiers::shift(), KeyCode::Down)),
        Some(&Action::MoveItemDown)
    );
    assert_eq!(
        config.normal_main.get(&(KeyModifiers::alt(), KeyCode::Down)),
        Some(&Action::MoveItemDown)
    );
    assert_eq!(
        config
            .normal_main
            .get(&(KeyModifiers::alt().union(KeyModifiers::super_key()), KeyCode::Up)),
        Some(&Action::MoveItemToTop)
    );
    assert_eq!(
        config
            .normal_main
            .get(&(KeyModifiers::alt().union(KeyModifiers::super_key()), KeyCode::Down)),
        Some(&Action::MoveItemToBottom)
    );
}

#[test]
fn default_normal_main_toggle_show_done_both_modifiers() {
    let config = KeyConfig::default();
    assert_eq!(
        config
            .normal_main
            .get(&(KeyModifiers::alt(), KeyCode::Char('D'))),
        Some(&Action::ToggleShowDone)
    );
    assert_eq!(
        config
            .normal_main
            .get(&(KeyModifiers::alt().union(KeyModifiers::shift()), KeyCode::Char('D'))),
        Some(&Action::ToggleShowDone)
    );
}

#[test]
fn default_normal_main_focus_filter_time_archive() {
    let config = KeyConfig::default();
    assert_eq!(
        config
            .normal_main
            .get(&(KeyModifiers::alt(), KeyCode::Char('f'))),
        Some(&Action::StartFocus)
    );
    assert_eq!(
        config
            .normal_main
            .get(&(KeyModifiers::alt(), KeyCode::Char('F'))),
        Some(&Action::StartFilter)
    );
    assert_eq!(
        config
            .normal_main
            .get(&(KeyModifiers::alt().union(KeyModifiers::shift()), KeyCode::Char('F'))),
        Some(&Action::StartFilter)
    );
    assert_eq!(
        config
            .normal_main
            .get(&(KeyModifiers::alt(), KeyCode::Char('T'))),
        Some(&Action::EditTime)
    );
    assert_eq!(
        config
            .normal_main
            .get(&(KeyModifiers::alt().union(KeyModifiers::shift()), KeyCode::Char('T'))),
        Some(&Action::EditTime)
    );
    assert_eq!(
        config
            .normal_main
            .get(&(KeyModifiers::alt(), KeyCode::Char('a'))),
        Some(&Action::StartArchive)
    );
}

#[test]
fn default_normal_sidebar_keys() {
    let config = KeyConfig::default();
    assert_eq!(
        config
            .normal_sidebar
            .get(&(KeyModifiers::alt(), KeyCode::Char('d'))),
        Some(&Action::ToggleListType)
    );
    assert_eq!(
        config
            .normal_sidebar
            .get(&(KeyModifiers::alt(), KeyCode::Char('D'))),
        Some(&Action::ToggleListType)
    );
    assert_eq!(
        config
            .normal_sidebar
            .get(&(KeyModifiers::alt(), KeyCode::Char('n'))),
        Some(&Action::AddList)
    );
    assert_eq!(
        config
            .normal_sidebar
            .get(&(KeyModifiers::alt(), KeyCode::Char('N'))),
        Some(&Action::AddList)
    );
    assert_eq!(
        config
            .normal_sidebar
            .get(&(KeyModifiers::none(), KeyCode::Enter)),
        Some(&Action::RenameList)
    );
    assert_eq!(
        config
            .normal_sidebar
            .get(&(KeyModifiers::none(), KeyCode::Delete)),
        Some(&Action::DeleteList)
    );
    assert_eq!(
        config
            .normal_sidebar
            .get(&(KeyModifiers::none(), KeyCode::Backspace)),
        Some(&Action::DeleteList)
    );
}

#[test]
fn default_normal_sidebar_reorder_keys() {
    let config = KeyConfig::default();
    assert_eq!(
        config
            .normal_sidebar
            .get(&(KeyModifiers::shift(), KeyCode::Up)),
        Some(&Action::MoveListUp)
    );
    assert_eq!(
        config.normal_sidebar.get(&(KeyModifiers::alt(), KeyCode::Up)),
        Some(&Action::MoveListUp)
    );
    assert_eq!(
        config
            .normal_sidebar
            .get(&(KeyModifiers::shift(), KeyCode::Down)),
        Some(&Action::MoveListDown)
    );
    assert_eq!(
        config
            .normal_sidebar
            .get(&(KeyModifiers::alt(), KeyCode::Down)),
        Some(&Action::MoveListDown)
    );
    assert_eq!(
        config
            .normal_sidebar
            .get(&(KeyModifiers::alt().union(KeyModifiers::super_key()), KeyCode::Up)),
        Some(&Action::MoveListToTop)
    );
    assert_eq!(
        config
            .normal_sidebar
            .get(&(KeyModifiers::alt().union(KeyModifiers::super_key()), KeyCode::Down)),
        Some(&Action::MoveListToBottom)
    );
}

#[test]
fn default_search_keys() {
    let config = KeyConfig::default();
    assert_eq!(
        config.search.get(&(KeyModifiers::none(), KeyCode::Enter)),
        Some(&Action::Confirm)
    );
    assert_eq!(
        config.search.get(&(KeyModifiers::none(), KeyCode::Esc)),
        Some(&Action::Cancel)
    );
    assert_eq!(
        config.search.get(&(KeyModifiers::none(), KeyCode::Up)),
        Some(&Action::PrevResult)
    );
    assert_eq!(
        config.search.get(&(KeyModifiers::none(), KeyCode::Down)),
        Some(&Action::NextResult)
    );
}

#[test]
fn default_focus_keys() {
    let config = KeyConfig::default();
    assert_eq!(
        config.focus.get(&(KeyModifiers::none(), KeyCode::Esc)),
        Some(&Action::Stop)
    );
    assert_eq!(
        config.focus.get(&(KeyModifiers::none(), KeyCode::Char(' '))),
        Some(&Action::TogglePause)
    );
}

#[test]
fn default_filter_keys() {
    let config = KeyConfig::default();
    assert_eq!(
        config.filter.get(&(KeyModifiers::none(), KeyCode::Enter)),
        Some(&Action::Confirm)
    );
    assert_eq!(
        config.filter.get(&(KeyModifiers::none(), KeyCode::Esc)),
        Some(&Action::Cancel)
    );
    assert_eq!(
        config.filter.get(&(KeyModifiers::none(), KeyCode::Char(' '))),
        Some(&Action::Toggle)
    );
    assert_eq!(
        config.filter.get(&(KeyModifiers::none(), KeyCode::Up)),
        Some(&Action::MoveUp)
    );
    assert_eq!(
        config.filter.get(&(KeyModifiers::none(), KeyCode::Down)),
        Some(&Action::MoveDown)
    );
}

#[test]
fn default_input_keys() {
    let config = KeyConfig::default();
    assert_eq!(
        config.input.get(&(KeyModifiers::none(), KeyCode::Enter)),
        Some(&Action::Confirm)
    );
    assert_eq!(
        config.input.get(&(KeyModifiers::none(), KeyCode::Esc)),
        Some(&Action::Cancel)
    );
    assert_eq!(
        config.input.get(&(KeyModifiers::none(), KeyCode::Tab)),
        Some(&Action::Autocomplete)
    );
}

#[test]
fn default_confirm_keys() {
    let config = KeyConfig::default();
    assert_eq!(
        config
            .confirm
            .get(&(KeyModifiers::none(), KeyCode::Char('y'))),
        Some(&Action::Yes)
    );
    assert_eq!(
        config
            .confirm
            .get(&(KeyModifiers::none(), KeyCode::Char('n'))),
        Some(&Action::No)
    );
    assert_eq!(
        config.confirm.get(&(KeyModifiers::none(), KeyCode::Esc)),
        Some(&Action::No)
    );
}

#[test]
fn default_move_to_list_keys() {
    let config = KeyConfig::default();
    assert_eq!(
        config
            .move_to_list
            .get(&(KeyModifiers::none(), KeyCode::Enter)),
        Some(&Action::Confirm)
    );
    assert_eq!(
        config.move_to_list.get(&(KeyModifiers::none(), KeyCode::Esc)),
        Some(&Action::Cancel)
    );
    assert_eq!(
        config.move_to_list.get(&(KeyModifiers::none(), KeyCode::Up)),
        Some(&Action::MoveUp)
    );
    assert_eq!(
        config
            .move_to_list
            .get(&(KeyModifiers::none(), KeyCode::Down)),
        Some(&Action::MoveDown)
    );
}

#[test]
fn default_context_switch_keys() {
    let config = KeyConfig::default();
    assert_eq!(
        config
            .context_switch
            .get(&(KeyModifiers::none(), KeyCode::Enter)),
        Some(&Action::Confirm)
    );
    assert_eq!(
        config
            .context_switch
            .get(&(KeyModifiers::none(), KeyCode::Esc)),
        Some(&Action::Cancel)
    );
    assert_eq!(
        config
            .context_switch
            .get(&(KeyModifiers::none(), KeyCode::Up)),
        Some(&Action::MoveUp)
    );
    assert_eq!(
        config
            .context_switch
            .get(&(KeyModifiers::none(), KeyCode::Down)),
        Some(&Action::MoveDown)
    );
}

#[test]
fn parse_action_simple_strings() {
    let val = toml::Value::String("quit".into());
    assert_eq!(parse_action(&from_value(&val)), Some(Action::Quit));

    let val = toml::Value::String("move_up".into());
    assert_eq!(parse_action(&from_value(&val)), Some(Action::MoveUp));

    let val = toml::Value::String("toggle_done".into());
    assert_eq!(parse_action(&from_value(&val)), Some(Action::ToggleDone));
}

#[test]
fn parse_action_invalid_string() {
    let val = toml::Value::String("nonexistent".into());
    assert_eq!(parse_action(&from_value(&val)), None);
}

#[test]
fn parse_action_toggle_tag_table() {
    let mut table = toml::value::Table::new();
    table.insert("action".into(), toml::Value::String("toggle_tag".into()));
    table.insert("tag".into(), toml::Value::String("starred".into()));
    let val = toml::Value::Table(table);
    assert_eq!(
        parse_action(&from_value(&val)),
        Some(Action::ToggleTag("starred".into()))
    );
}

#[test]
fn parse_action_table_missing_tag() {
    let mut table = toml::value::Table::new();
    table.insert("action".into(), toml::Value::String("toggle_tag".into()));
    let val = toml::Value::Table(table);
    assert_eq!(parse_action(&from_value(&val)), None);
}

#[test]
fn parse_action_unknown_table_action() {
    let mut table = toml::value::Table::new();
    table.insert("action".into(), toml::Value::String("unknown".into()));
    let val = toml::Value::Table(table);
    assert_eq!(parse_action(&from_value(&val)), None);
}

#[test]
fn from_toml_empty_returns_defaults() {
    let config = KeyConfig::from_toml("");
    let defaults = KeyConfig::default();
    assert_eq!(config, defaults);
}

#[test]
fn from_toml_override_single_key() {
    let toml_str = r#"
[keys.normal]
"alt+s" = "quit"
"#;
    let config = KeyConfig::from_toml(toml_str);
    assert_eq!(
        config.normal.get(&(KeyModifiers::alt(), KeyCode::Char('s'))),
        Some(&Action::Quit)
    );
    assert_eq!(
        config.normal.get(&(KeyModifiers::alt(), KeyCode::Char('q'))),
        Some(&Action::Quit)
    );
}

#[test]
fn from_toml_toggle_tag_inline_table() {
    let toml_str = r#"
[keys.normal_main]
"alt+s" = { action = "toggle_tag", tag = "starred" }
"#;
    let config = KeyConfig::from_toml(toml_str);
    assert_eq!(
        config
            .normal_main
            .get(&(KeyModifiers::alt(), KeyCode::Char('s'))),
        Some(&Action::ToggleTag("starred".into()))
    );
}

#[test]
fn from_toml_multiple_sections() {
    let toml_str = r#"
[keys.normal]
"alt+s" = "quit"

[keys.focus]
"alt+s" = "stop"
"#;
    let config = KeyConfig::from_toml(toml_str);
    assert_eq!(
        config.normal.get(&(KeyModifiers::alt(), KeyCode::Char('s'))),
        Some(&Action::Quit)
    );
    assert_eq!(
        config.focus.get(&(KeyModifiers::alt(), KeyCode::Char('s'))),
        Some(&Action::Stop)
    );
}

#[test]
fn from_toml_preserves_unmodified_defaults() {
    let toml_str = r#"
[keys.normal]
"alt+s" = "quit"
"#;
    let config = KeyConfig::from_toml(toml_str);
    let defaults = KeyConfig::default();
    assert_eq!(config.normal_main, defaults.normal_main);
    assert_eq!(config.normal_sidebar, defaults.normal_sidebar);
    assert_eq!(config.search, defaults.search);
    assert_eq!(config.focus, defaults.focus);
    assert_eq!(config.filter, defaults.filter);
    assert_eq!(config.input, defaults.input);
    assert_eq!(config.confirm, defaults.confirm);
    assert_eq!(config.move_to_list, defaults.move_to_list);
    assert_eq!(config.context_switch, defaults.context_switch);
}

#[test]
fn from_toml_invalid_toml_returns_defaults() {
    let config = KeyConfig::from_toml("not valid { toml");
    let defaults = KeyConfig::default();
    assert_eq!(config, defaults);
}

#[test]
fn format_key_display_simple_keys() {
    assert_eq!(format_key_display(KeyModifiers::none(), KeyCode::Tab), "Tab");
    assert_eq!(
        format_key_display(KeyModifiers::none(), KeyCode::Enter),
        "Enter"
    );
    assert_eq!(format_key_display(KeyModifiers::none(), KeyCode::Esc), "Esc");
    assert_eq!(
        format_key_display(KeyModifiers::none(), KeyCode::Char(' ')),
        "Space"
    );
    assert_eq!(
        format_key_display(KeyModifiers::none(), KeyCode::Home),
        "Home"
    );
    assert_eq!(format_key_display(KeyModifiers::none(), KeyCode::End), "End");
    assert_eq!(
        format_key_display(KeyModifiers::none(), KeyCode::Delete),
        "Del"
    );
    assert_eq!(
        format_key_display(KeyModifiers::none(), KeyCode::Backspace),
        "Backspace"
    );
}

#[test]
fn format_key_display_arrows() {
    assert_eq!(
        format_key_display(KeyModifiers::none(), KeyCode::Up),
        "\u{2191}"
    );
    assert_eq!(
        format_key_display(KeyModifiers::none(), KeyCode::Down),
        "\u{2193}"
    );
    assert_eq!(
        format_key_display(KeyModifiers::shift(), KeyCode::Up),
        "Shift+\u{2191}"
    );
}

#[test]
fn format_key_display_modifiers() {
    assert_eq!(
        format_key_display(KeyModifiers::alt(), KeyCode::Char('q')),
        "Alt+Q"
    );
    assert_eq!(
        format_key_display(KeyModifiers::control(), KeyCode::Char('c')),
        "Ctrl+C"
    );
    assert_eq!(
        format_key_display(KeyModifiers::alt(), KeyCode::Char('Q')),
        "Alt+Shift+Q"
    );
    assert_eq!(
        format_key_display(KeyModifiers::alt(), KeyCode::Enter),
        "Alt+Enter"
    );
    assert_eq!(
        format_key_display(KeyModifiers::alt().union(KeyModifiers::super_key()), KeyCode::Up),
        "Alt+Super+\u{2191}"
    );
}

#[test]
fn action_keys_finds_bindings() {
    let config = KeyConfig::default();
    let keys = config.action_keys(&[&config.normal], &Action::TogglePane);
    assert_eq!(keys, Some("Tab".into()));
}

#[test]
fn action_keys_returns_none_when_unbound() {
    let config = KeyConfig::default();
    let keys = config.action_keys(&[&config.normal], &Action::AddItem);
    assert_eq!(keys, None);
}

#[test]
fn action_keys_multiple_bindings() {
    let config = KeyConfig::default();
    let keys = config
        .action_keys(&[&config.normal], &Action::Quit)
        .unwrap();
    assert!(keys.contains("Alt+Q"));
    assert!(keys.contains(" / "));
}

#[test]
fn action_keys_custom_config() {
    let toml_str = r#"
[keys.normal_main]
"ctrl+d" = "delete"
"#;
    let config = KeyConfig::from_toml(toml_str);
    let keys = config
        .action_keys(&[&config.normal_main], &Action::Delete)
        .unwrap();
    assert!(keys.contains("Ctrl+D"));
}

#[test]
fn toggle_tag_entries_from_config() {
    let toml_str = r#"
[keys.normal_main]
"alt+s" = { action = "toggle_tag", tag = "starred" }
"#;
    let config = KeyConfig::from_toml(toml_str);
    let entries = config.toggle_tag_entries();
    assert_eq!(entries.len(), 1);
    assert_eq!(entries[0].0, "Alt+S");
    assert_eq!(entries[0].1, "starred");
}

