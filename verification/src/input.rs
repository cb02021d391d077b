use vstd::prelude::*;

use crate::app::{
    char_deleted, char_inserted, completion_accepted, completion_dismissed, completion_down, completion_up,
    completion_updated, context_offer, cursor_left, cursor_right, done_archived, filter_cancelled,
    filter_confirmed, filter_down, filter_ticked, filter_up, focus_paused, focus_stopped, hit_next, hit_prev,
    input_cancelled, input_confirmed, list_deleted, moved_to_list, picker_cancelled, picker_down, picker_erased,
    picker_typed, picker_up, search_hit_selected, search_updated, switcher_cancelled, switcher_down,
    switcher_erased, switcher_typed, switcher_up,
    archive_started, filter_started, in_tag_view, item_moved_down, item_moved_to_bottom, item_moved_to_top,
    item_moved_up, jumped_first, jumped_last, list_moved, list_moved_to_bottom, list_moved_to_top,
    list_type_toggled, lists_of, move_started, paged_down, paged_up, redone, select_toggled, selected_deleted,
    selected_done_toggled, selected_item_spec, selected_list_spec, selection_down, selection_up,
    show_done_toggled, start_focus_spec, tag_toggled, todo_deleted, undone, cursor_bytes, App,
};
use crate::config::{Action, ActionV, KeyCode, KeyMap, KeyModifiers};
use crate::crdt::opt_view;
use crate::model::{strings_view, InputMode, Pane};

verus! {

/// What a key asks of the caller beyond the state change: to switch to a
/// context, or to create one and switch to it.
pub enum Request {
    Nothing,
    SwitchContext(String),
    CreateContext(String),
}

/// The action bound to `key`, if any.
pub open spec fn bound(m: Map<(KeyModifiers, KeyCode), ActionV>, key: (KeyModifiers, KeyCode)) -> Option<ActionV> {
    if m.contains_key(key) {
        Some(m[key])
    } else {
        None
    }
}

fn lookup(m: &KeyMap, key: (KeyModifiers, KeyCode)) -> (r: Option<Action>)
    requires
        m.wf(),
    ensures
        match r {
            Some(a) => bound(m@, key) == Some(a@),
            None => bound(m@, key).is_none(),
        },
{
    match m.get(&key) {
        Some(a) => Some(a.copy()),
        None => None,
    }
}

/// The rows a page moves by: the terminal's height less four, if it is
/// known.
pub open spec fn page_of(rows: Option<u16>) -> Option<usize> {
    match rows {
        Some(r) => Some((if r >= 4 { r - 4 } else { 0 }) as usize),
        None => None,
    }
}

/// `b` is `a` with the active pane switched and the moment noted.
pub open spec fn pane_toggled(a: App, b: App) -> bool {
    &&& b.active_pane == (match a.active_pane {
        Pane::Sidebar => Pane::Main,
        Pane::Main => Pane::Sidebar,
    })
    &&& b.selected_items@.len() == 0
    &&& b == (App {
        active_pane: b.active_pane,
        selected_items: b.selected_items,
        pane_switch_at: b.pane_switch_at,
        ..a
    })
}

/// What a key does in normal mode before the pane's own bindings.
pub open spec fn global_key(a: App, b: App, act: ActionV, rows: Option<u16>) -> bool {
    match act {
        ActionV::Quit => b == (App { running: false, ..a }),
        ActionV::TogglePane => pane_toggled(a, b),
        ActionV::MoveUp => selection_up(a, b),
        ActionV::MoveDown => selection_down(a, b),
        ActionV::Undo => undone(a, b),
        ActionV::Redo => redone(a, b),
        ActionV::PageDown => match page_of(rows) {
            Some(p) => paged_down(a, b, p),
            None => b == a,
        },
        ActionV::PageUp => match page_of(rows) {
            Some(p) => paged_up(a, b, p),
            None => b == a,
        },
        ActionV::JumpToFirst => jumped_first(a, b),
        ActionV::JumpToLast => jumped_last(a, b),
        ActionV::SwitchContext => b.context_filter@.len() == 0 && b == (App {
            context_cursor: 0,
            context_filter: b.context_filter,
            input_mode: InputMode::SwitchingContext,
            ..a
        }),
        _ => b == a,
    }
}

/// The actions handled before the pane's own bindings.
pub open spec fn is_global(act: ActionV) -> bool {
    match act {
        ActionV::Quit | ActionV::TogglePane | ActionV::MoveUp | ActionV::MoveDown | ActionV::Undo | ActionV::Redo
        | ActionV::PageDown | ActionV::PageUp | ActionV::JumpToFirst | ActionV::JumpToLast | ActionV::SwitchContext => true,
        _ => false,
    }
}

/// `b` is `a` with the input line opened in `mode`, holding `text`.
pub open spec fn opened(a: App, b: App, mode: InputMode, text: Seq<char>) -> bool {
    b.input_buffer@ == text && b == (App {
        input_mode: mode,
        input_buffer: b.input_buffer,
        input_pos: text.len() as usize,
        input_cursor: cursor_bytes(text, text.len() as int),
        ..a
    })
}

/// The tags of an item as the tag editor shows them: each with `@`,
/// separated by spaces.
pub open spec fn tags_line(tags: Seq<Seq<char>>) -> Seq<char> {
    crate::text::join(tags.map_values(|t: Seq<char>| seq!['@'] + t), seq![' '])
}

/// The time of an item as the time editor shows it; `0m` for none.
pub open spec fn time_line(secs: u64) -> Seq<char> {
    let t = crate::storage::time_text(secs as nat);
    if t.len() == 0 {
        seq!['0', 'm']
    } else {
        t
    }
}

/// What a key bound to `act` does in the main pane.
pub open spec fn main_key(a: App, b: App, act: ActionV) -> bool {
    let tag_view = in_tag_view(a);
    let sel = selected_item_spec(a);
    match act {
        ActionV::ToggleDone => selected_done_toggled(a, b),
        ActionV::AddItem => if tag_view { b == a } else { opened(a, b, InputMode::AddingItem, Seq::empty()) },
        ActionV::EditItem => match sel {
            Some(id) => opened(a, b, InputMode::EditingItem, a.doc@.items[id].title),
            None => b == a,
        },
        ActionV::EditTags => match sel {
            Some(id) => opened(a, b, InputMode::EditingTags, tags_line(a.doc@.items[id].tags)),
            None => b == a,
        },
        ActionV::ToggleSelect => if tag_view { b == a } else { select_toggled(a, b) },
        ActionV::Delete => if tag_view { todo_deleted(a, b) } else { selected_deleted(a, b) },
        ActionV::MoveToList => if tag_view { b == a } else { move_started(a, b) },
        ActionV::ClearSelection => b.selected_items@.len() == 0 && b == (App { selected_items: b.selected_items, ..a }),
        ActionV::MoveItemUp => if tag_view { b == a } else { item_moved_up(a, b) },
        ActionV::MoveItemDown => if tag_view { b == a } else { item_moved_down(a, b) },
        ActionV::MoveItemToTop => if tag_view { b == a } else { item_moved_to_top(a, b) },
        ActionV::MoveItemToBottom => if tag_view { b == a } else { item_moved_to_bottom(a, b) },
        ActionV::ToggleShowDone => show_done_toggled(a, b),
        ActionV::StartFocus => exists|now: u64| #[trigger] start_focus_spec(a, b, now),
        ActionV::StartFilter => if tag_view { b == a } else { filter_started(a, b) },
        ActionV::EditTime => match sel {
            Some(id) => opened(a, b, InputMode::EditingTime, time_line(a.doc@.items[id].time_secs)),
            None => b == a,
        },
        ActionV::StartArchive => archive_started(a, b),
        ActionV::ToggleTag(t) => tag_toggled(a, b, t),
        _ => b == a,
    }
}

/// What a key bound to `act` does in the sidebar; nothing in a tag view.
pub open spec fn sidebar_key(a: App, b: App, act: ActionV) -> bool {
    if in_tag_view(a) {
        b == a
    } else {
        match act {
            ActionV::ToggleListType => exists|today: Seq<char>| #[trigger] list_type_toggled(a, b, today),
            ActionV::AddList => opened(a, b, InputMode::AddingList, Seq::empty()),
            ActionV::RenameList => match selected_list_spec(a) {
                Some(l) => opened(a, b, InputMode::RenamingList, a.doc@.lists[l].name),
                None => b == a,
            },
            ActionV::DeleteList => if lists_of(a).len() > 1 {
                b == (App { input_mode: InputMode::ConfirmDelete, ..a })
            } else {
                b == a
            },
            ActionV::MoveListUp => list_moved(a, b, true),
            ActionV::MoveListDown => list_moved(a, b, false),
            ActionV::MoveListToTop => list_moved_to_top(a, b),
            ActionV::MoveListToBottom => list_moved_to_bottom(a, b),
            _ => b == a,
        }
    }
}

/// Alt and Super held together, and nothing else.
pub open spec fn alt_super() -> KeyModifiers {
    KeyModifiers { shift: false, control: false, alt: true, super_: true, hyper: false, meta: false }
}

/// The keys that normal mode reads first, whatever the configuration: `q`
/// (with any modifier) and Ctrl+C quit, Tab (with any modifier) switches
/// pane, Up/`k` and Down/`j` move, Shift+G jumps to the last row, `u` and
/// Ctrl+Z undo, Ctrl+Y redoes, Ctrl+D and Ctrl+U page.
pub open spec fn fixed_global(key: (KeyModifiers, KeyCode)) -> Option<ActionV> {
    let (m, c) = key;
    if c == KeyCode::Char('q') {
        Some(ActionV::Quit)
    } else if m == KeyModifiers::spec_control() && c == KeyCode::Char('c') {
        Some(ActionV::Quit)
    } else if c == KeyCode::Tab {
        Some(ActionV::TogglePane)
    } else if m == KeyModifiers::spec_none() && (c == KeyCode::Up || c == KeyCode::Char('k')) {
        Some(ActionV::MoveUp)
    } else if m == KeyModifiers::spec_none() && (c == KeyCode::Down || c == KeyCode::Char('j')) {
        Some(ActionV::MoveDown)
    } else if m == KeyModifiers::spec_shift() && c == KeyCode::Char('G') {
        Some(ActionV::JumpToLast)
    } else if m == KeyModifiers::spec_none() && c == KeyCode::Char('u') {
        Some(ActionV::Undo)
    } else if m == KeyModifiers::spec_control() && c == KeyCode::Char('z') {
        Some(ActionV::Undo)
    } else if m == KeyModifiers::spec_control() && c == KeyCode::Char('y') {
        Some(ActionV::Redo)
    } else if m == KeyModifiers::spec_control() && c == KeyCode::Char('d') {
        Some(ActionV::PageDown)
    } else if m == KeyModifiers::spec_control() && c == KeyCode::Char('u') {
        Some(ActionV::PageUp)
    } else {
        None
    }
}

/// Shift+K or Shift+Up or Alt+Up: moving up by one; likewise down.
pub open spec fn up_key(key: (KeyModifiers, KeyCode)) -> bool {
    (key.0 == KeyModifiers::spec_shift() && (key.1 == KeyCode::Up || key.1 == KeyCode::Char('K')))
        || (key.0 == KeyModifiers::spec_alt() && key.1 == KeyCode::Up)
}

pub open spec fn down_key(key: (KeyModifiers, KeyCode)) -> bool {
    (key.0 == KeyModifiers::spec_shift() && (key.1 == KeyCode::Down || key.1 == KeyCode::Char('J')))
        || (key.0 == KeyModifiers::spec_alt() && key.1 == KeyCode::Down)
}

/// The keys of the main pane read before the configured ones: Space (with
/// any modifier) toggles done, `n` adds, Enter (with any modifier) edits the
/// title, `t` the tags, `x` marks, Delete and Backspace delete, `m` moves to
/// another list, Esc clears the marks, Shift/Alt arrows and Shift+K/J move
/// by one, Alt+Super arrows to the top or bottom, Shift+D shows or hides
/// done items, Shift+F focuses, `f` filters, Shift+T edits the time.
pub open spec fn fixed_main(key: (KeyModifiers, KeyCode)) -> Option<ActionV> {
    let (m, c) = key;
    let none = KeyModifiers::spec_none();
    let shift = KeyModifiers::spec_shift();
    if c == KeyCode::Char(' ') {
        Some(ActionV::ToggleDone)
    } else if m == none && c == KeyCode::Char('n') {
        Some(ActionV::AddItem)
    } else if c == KeyCode::Enter {
        Some(ActionV::EditItem)
    } else if m == none && c == KeyCode::Char('t') {
        Some(ActionV::EditTags)
    } else if m == none && c == KeyCode::Char('x') {
        Some(ActionV::ToggleSelect)
    } else if c == KeyCode::Delete || c == KeyCode::Backspace {
        Some(ActionV::Delete)
    } else if m == none && c == KeyCode::Char('m') {
        Some(ActionV::MoveToList)
    } else if m == none && c == KeyCode::Esc {
        Some(ActionV::ClearSelection)
    } else if up_key(key) {
        Some(ActionV::MoveItemUp)
    } else if down_key(key) {
        Some(ActionV::MoveItemDown)
    } else if m == alt_super() && c == KeyCode::Up {
        Some(ActionV::MoveItemToTop)
    } else if m == alt_super() && c == KeyCode::Down {
        Some(ActionV::MoveItemToBottom)
    } else if m == shift && c == KeyCode::Char('D') {
        Some(ActionV::ToggleShowDone)
    } else if m == shift && c == KeyCode::Char('F') {
        Some(ActionV::StartFocus)
    } else if m == none && c == KeyCode::Char('f') {
        Some(ActionV::StartFilter)
    } else if m == shift && c == KeyCode::Char('T') {
        Some(ActionV::EditTime)
    } else {
        None
    }
}

/// The keys of the sidebar read before the configured ones: `d` switches
/// between daily and normal, `n` adds a list, Enter (with any modifier)
/// renames, Delete and Backspace ask to delete, Shift/Alt arrows and
/// Shift+K/J move by one, Alt+Super arrows to the top or bottom.
pub open spec fn fixed_sidebar(key: (KeyModifiers, KeyCode)) -> Option<ActionV> {
    let (m, c) = key;
    let none = KeyModifiers::spec_none();
    if m == none && c == KeyCode::Char('d') {
        Some(ActionV::ToggleListType)
    } else if m == none && c == KeyCode::Char('n') {
        Some(ActionV::AddList)
    } else if c == KeyCode::Enter {
        Some(ActionV::RenameList)
    } else if c == KeyCode::Delete || c == KeyCode::Backspace {
        Some(ActionV::DeleteList)
    } else if up_key(key) {
        Some(ActionV::MoveListUp)
    } else if down_key(key) {
        Some(ActionV::MoveListDown)
    } else if m == alt_super() && c == KeyCode::Up {
        Some(ActionV::MoveListToTop)
    } else if m == alt_super() && c == KeyCode::Down {
        Some(ActionV::MoveListToBottom)
    } else {
        None
    }
}

/// The binding of a main-pane key: the fixed one, else the configured one.
pub open spec fn main_binding(a: App, key: (KeyModifiers, KeyCode)) -> Option<ActionV> {
    match fixed_main(key) {
        Some(act) => Some(act),
        None => bound(a.key_config.normal_main@, key),
    }
}

/// The binding of a sidebar key: the fixed one, else the configured one.
pub open spec fn sidebar_binding(a: App, key: (KeyModifiers, KeyCode)) -> Option<ActionV> {
    match fixed_sidebar(key) {
        Some(act) => Some(act),
        None => bound(a.key_config.normal_sidebar@, key),
    }
}

pub open spec fn g_key() -> (KeyModifiers, KeyCode) {
    (KeyModifiers::spec_none(), KeyCode::Char('g'))
}

pub open spec fn slash_key() -> (KeyModifiers, KeyCode) {
    (KeyModifiers::spec_none(), KeyCode::Char('/'))
}

/// `b` is `a` with the search box opened, empty.
pub open spec fn search_opened(a: App, b: App) -> bool {
    &&& b.input_buffer@.len() == 0
    &&& b.search_results@.len() == 0
    &&& b == (App {
        input_mode: InputMode::Searching,
        input_buffer: b.input_buffer,
        input_pos: 0,
        input_cursor: 0,
        search_results: b.search_results,
        search_selected: 0,
        ..a
    })
}

/// What a configured key does in normal mode: a global binding, else the
/// configured binding of the active pane.
pub open spec fn configured_key(a: App, b: App, key: (KeyModifiers, KeyCode), rows: Option<u16>) -> bool {
    match bound(a.key_config.normal@, key) {
        Some(act) => if is_global(act) {
            global_key(a, b, act, rows)
        } else {
            b == a
        },
        None => match a.active_pane {
            Pane::Main => match bound(a.key_config.normal_main@, key) {
                Some(act) => main_key(a, b, act),
                None => b == a,
            },
            Pane::Sidebar => match bound(a.key_config.normal_sidebar@, key) {
                Some(act) => sidebar_key(a, b, act),
                None => b == a,
            },
        },
    }
}

/// What a key does in normal mode, once a pending `g` is cleared: a second
/// `g` jumps to the first row; then the fixed global keys; then `g` (which
/// waits for a second one) and `/` (which opens the search); then the fixed
/// keys of the active pane; then the configured keys.
pub open spec fn normal_key(a: App, b: App, key: (KeyModifiers, KeyCode), rows: Option<u16>) -> bool {
    let a0 = App { pending_g: false, ..a };
    if a.pending_g && key == g_key() {
        jumped_first(a0, b)
    } else {
        match fixed_global(key) {
            Some(act) => global_key(a0, b, act, rows),
            None => if key == g_key() {
                b == (App { pending_g: true, ..a0 })
            } else if key == slash_key() {
                search_opened(a0, b)
            } else {
                match a0.active_pane {
                    Pane::Main => match fixed_main(key) {
                        Some(act) => main_key(a0, b, act),
                        None => configured_key(a0, b, key, rows),
                    },
                    Pane::Sidebar => match fixed_sidebar(key) {
                        Some(act) => sidebar_key(a0, b, act),
                        None => configured_key(a0, b, key, rows),
                    },
                }
            },
        }
    }
}

pub(crate) fn prefill_tags(tags: &Vec<String>) -> (r: String)
    ensures
        r@ == tags_line(strings_view(tags@)),
{
    let mut words: Vec<Vec<char>> = Vec::new();
    let mut k: usize = 0;
    while k < tags.len()
        invariant
            k <= tags.len(),
            crate::text::views(words@) == strings_view(tags@).take(k as int).map_values(|t: Seq<char>| seq!['@'] + t),
        decreases tags.len() - k,
    {
        let mut w: Vec<char> = Vec::new();
        w.push('@');
        crate::text::push_str(&mut w, tags[k].as_str());
        let ghost before = words@;
        words.push(w);
        assert(strings_view(tags@).take(k + 1) == strings_view(tags@).take(k as int).push(tags@[k as int]@));
        assert(crate::text::views(words@) =~= crate::text::views(before).push(seq!['@'] + tags@[k as int]@));
        k = k + 1;
    }
    assert(strings_view(tags@).take(tags.len() as int) == strings_view(tags@));
    let mut sep: Vec<char> = Vec::new();
    sep.push(' ');
    assert(sep@ == seq![' ']);
    let out = crate::text::join_chars(&words, &sep);
    crate::text::string_of(out.as_slice())
}

fn prefill_time(secs: u64) -> (r: String)
    ensures
        r@ == time_line(secs),
{
    let t = crate::storage::format_time(secs);
    if crate::text::chars_of(t.as_str()).len() == 0 {
        let mut v: Vec<char> = Vec::new();
        v.push('0');
        v.push('m');
        assert(v@ == seq!['0', 'm']);
        crate::text::string_of(v.as_slice())
    } else {
        t
    }
}

/// The main-pane actions that open the input line.
pub open spec fn is_editing(act: ActionV) -> bool {
    act is AddItem || act is EditItem || act is EditTags || act is EditTime
}

/// The main-pane actions that move, mark or delete items.
pub open spec fn is_reordering(act: ActionV) -> bool {
    act is ToggleSelect || act is Delete || act is MoveToList || act is MoveItemUp || act is MoveItemDown
        || act is MoveItemToTop || act is MoveItemToBottom
}

#[verifier::spinoff_prover]
#[verifier::rlimit(40)]
fn main_pane_edit(app: &mut App, act: Action)
    requires
        old(app).wf(),
        is_editing(act@),
    ensures
        final(app).wf(),
        main_key(*old(app), *final(app), act@),
{
    let tag_view = app.is_tag_view();
    match act {
        Action::AddItem => {
            if !tag_view {
                let empty = "";
                proof {
                    reveal_strlit("");
                }
                assert(empty@ =~= Seq::<char>::empty());
                app.start_input(InputMode::AddingItem, empty);
            }
        },
        Action::EditItem => {
            match app.resolve_selected_item() {
                Some(id) => {
                    let title = match app.doc.get_item(id.as_str()) {
                        Some(it) => it.title.clone(),
                        None => {
                            return;
                        },
                    };
                    app.start_input(InputMode::EditingItem, title.as_str());
                },
                None => {},
            }
        },
        Action::EditTags => {
            match app.resolve_selected_item() {
                Some(id) => {
                    let line = match app.doc.get_item(id.as_str()) {
                        Some(it) => prefill_tags(&it.tags),
                        None => {
                            return;
                        },
                    };
                    app.start_input(InputMode::EditingTags, line.as_str());
                },
                None => {},
            }
        },
        Action::EditTime => {
            match app.resolve_selected_item() {
                Some(id) => {
                    let line = match app.doc.get_item(id.as_str()) {
                        Some(it) => prefill_time(it.time_secs),
                        None => {
                            return;
                        },
                    };
                    app.start_input(InputMode::EditingTime, line.as_str());
                },
                None => {},
            }
        },
        _ => {},
    }
}

#[verifier::spinoff_prover]
#[verifier::rlimit(40)]
fn main_pane_move(app: &mut App, act: Action)
    requires
        old(app).wf(),
        act@ is MoveItemUp || act@ is MoveItemDown || act@ is MoveItemToTop || act@ is MoveItemToBottom,
    ensures
        final(app).wf(),
        main_key(*old(app), *final(app), act@),
{
    let tag_view = app.is_tag_view();
    if tag_view {
        return;
    }
    match act {
        Action::MoveItemUp => {
            app.move_todo_up();
        },
        Action::MoveItemDown => {
            app.move_todo_down();
        },
        Action::MoveItemToTop => {
            app.move_todo_to_top();
        },
        _ => {
            app.move_todo_to_bottom();
        },
    }
}

#[verifier::spinoff_prover]
#[verifier::rlimit(40)]
fn main_pane_reorder(app: &mut App, act: Action)
    requires
        old(app).wf(),
        is_reordering(act@),
    ensures
        final(app).wf(),
        main_key(*old(app), *final(app), act@),
{
    let tag_view = app.is_tag_view();
    match act {
        Action::ToggleSelect => {
            if !tag_view {
                app.toggle_select_current();
            }
        },
        Action::Delete => {
            if tag_view {
                app.delete_todo();
            } else {
                app.delete_selected();
            }
        },
        Action::MoveToList => {
            if !tag_view {
                app.start_move_to_list();
            }
        },
        _ => {
            main_pane_move(app, act);
        },
    }
}

#[verifier::spinoff_prover]
#[verifier::rlimit(40)]
fn main_pane_other(app: &mut App, act: Action)
    requires
        old(app).wf(),
        !is_editing(act@),
        !is_reordering(act@),
    ensures
        final(app).wf(),
        main_key(*old(app), *final(app), act@),
{
    let tag_view = app.is_tag_view();
    match act {
        Action::ToggleDone => {
            app.toggle_done_selected();
        },
        Action::ClearSelection => {
            app.clear_selection();
        },
        Action::ToggleShowDone => {
            app.toggle_show_done();
        },
        Action::StartFocus => {
            app.start_focus();
        },
        Action::StartFilter => {
            if !tag_view {
                app.start_filter();
            }
        },
        Action::StartArchive => {
            app.start_archive();
        },
        Action::ToggleTag(t) => {
            app.toggle_tag(t.as_str());
        },
        _ => {},
    }
}

/// The abstract value of an optional action.
pub open spec fn act_opt(r: Option<Action>) -> Option<ActionV> {
    match r {
        Some(a) => Some(a@),
        None => None,
    }
}

fn alt_super_exec() -> (r: KeyModifiers)
    ensures
        r == alt_super(),
{
    KeyModifiers { shift: false, control: false, alt: true, super_: true, hyper: false, meta: false }
}

fn is_up_key(key: (KeyModifiers, KeyCode)) -> (r: bool)
    ensures
        r == up_key(key),
{
    let (m, c) = key;
    (m == KeyModifiers::shift() && (c == KeyCode::Up || c == KeyCode::Char('K'))) || (m == KeyModifiers::alt()
        && c == KeyCode::Up)
}

fn is_down_key(key: (KeyModifiers, KeyCode)) -> (r: bool)
    ensures
        r == down_key(key),
{
    let (m, c) = key;
    (m == KeyModifiers::shift() && (c == KeyCode::Down || c == KeyCode::Char('J'))) || (m == KeyModifiers::alt()
        && c == KeyCode::Down)
}

fn fixed_global_exec(key: (KeyModifiers, KeyCode)) -> (r: Option<Action>)
    ensures
        act_opt(r) == fixed_global(key),
{
    let (m, c) = key;
    let none = KeyModifiers::none();
    let control = KeyModifiers::control();
    if c == KeyCode::Char('q') {
        Some(Action::Quit)
    } else if m == control && c == KeyCode::Char('c') {
        Some(Action::Quit)
    } else if c == KeyCode::Tab {
        Some(Action::TogglePane)
    } else if m == none && (c == KeyCode::Up || c == KeyCode::Char('k')) {
        Some(Action::MoveUp)
    } else if m == none && (c == KeyCode::Down || c == KeyCode::Char('j')) {
        Some(Action::MoveDown)
    } else if m == KeyModifiers::shift() && c == KeyCode::Char('G') {
        Some(Action::JumpToLast)
    } else if m == none && c == KeyCode::Char('u') {
        Some(Action::Undo)
    } else if m == control && c == KeyCode::Char('z') {
        Some(Action::Undo)
    } else if m == control && c == KeyCode::Char('y') {
        Some(Action::Redo)
    } else if m == control && c == KeyCode::Char('d') {
        Some(Action::PageDown)
    } else if m == control && c == KeyCode::Char('u') {
        Some(Action::PageUp)
    } else {
        None
    }
}

fn fixed_main_exec(key: (KeyModifiers, KeyCode)) -> (r: Option<Action>)
    ensures
        act_opt(r) == fixed_main(key),
{
    let (m, c) = key;
    let none = KeyModifiers::none();
    let shift = KeyModifiers::shift();
    if c == KeyCode::Char(' ') {
        Some(Action::ToggleDone)
    } else if m == none && c == KeyCode::Char('n') {
        Some(Action::AddItem)
    } else if c == KeyCode::Enter {
        Some(Action::EditItem)
    } else if m == none && c == KeyCode::Char('t') {
        Some(Action::EditTags)
    } else if m == none && c == KeyCode::Char('x') {
        Some(Action::ToggleSelect)
    } else if c == KeyCode::Delete || c == KeyCode::Backspace {
        Some(Action::Delete)
    } else if m == none && c == KeyCode::Char('m') {
        Some(Action::MoveToList)
    } else if m == none && c == KeyCode::Esc {
        Some(Action::ClearSelection)
    } else if is_up_key(key) {
        Some(Action::MoveItemUp)
    } else if is_down_key(key) {
        Some(Action::MoveItemDown)
    } else if m == alt_super_exec() && c == KeyCode::Up {
        Some(Action::MoveItemToTop)
    } else if m == alt_super_exec() && c == KeyCode::Down {
        Some(Action::MoveItemToBottom)
    } else if m == shift && c == KeyCode::Char('D') {
        Some(Action::ToggleShowDone)
    } else if m == shift && c == KeyCode::Char('F') {
        Some(Action::StartFocus)
    } else if m == none && c == KeyCode::Char('f') {
        Some(Action::StartFilter)
    } else if m == shift && c == KeyCode::Char('T') {
        Some(Action::EditTime)
    } else {
        None
    }
}

fn fixed_sidebar_exec(key: (KeyModifiers, KeyCode)) -> (r: Option<Action>)
    ensures
        act_opt(r) == fixed_sidebar(key),
{
    let (m, c) = key;
    let none = KeyModifiers::none();
    if m == none && c == KeyCode::Char('d') {
        Some(Action::ToggleListType)
    } else if m == none && c == KeyCode::Char('n') {
        Some(Action::AddList)
    } else if c == KeyCode::Enter {
        Some(Action::RenameList)
    } else if c == KeyCode::Delete || c == KeyCode::Backspace {
        Some(Action::DeleteList)
    } else if is_up_key(key) {
        Some(Action::MoveListUp)
    } else if is_down_key(key) {
        Some(Action::MoveListDown)
    } else if m == alt_super_exec() && c == KeyCode::Up {
        Some(Action::MoveListToTop)
    } else if m == alt_super_exec() && c == KeyCode::Down {
        Some(Action::MoveListToBottom)
    } else {
        None
    }
}

/// Does what `act` does in the main pane.
fn main_action(app: &mut App, act: Action)
    requires
        old(app).wf(),
    ensures
        final(app).wf(),
        main_key(*old(app), *final(app), act@),
{
    let editing = match act {
        Action::AddItem | Action::EditItem | Action::EditTags | Action::EditTime => true,
        _ => false,
    };
    let reordering = match act {
        Action::ToggleSelect | Action::Delete | Action::MoveToList | Action::MoveItemUp | Action::MoveItemDown
        | Action::MoveItemToTop | Action::MoveItemToBottom => true,
        _ => false,
    };
    if editing {
        main_pane_edit(app, act);
    } else if reordering {
        main_pane_reorder(app, act);
    } else {
        main_pane_other(app, act);
    }
}

/// Does what `act` does in the sidebar.
#[verifier::spinoff_prover]
#[verifier::rlimit(40)]
fn sidebar_action(app: &mut App, act: Action)
    requires
        old(app).wf(),
    ensures
        final(app).wf(),
        sidebar_key(*old(app), *final(app), act@),
{
    if app.is_tag_view() {
        return;
    }
    match act {
        Action::ToggleListType => {
            app.toggle_list_type();
        },
        Action::AddList => {
            let empty = "";
            proof {
                reveal_strlit("");
            }
            assert(empty@ =~= Seq::<char>::empty());
            app.start_input(InputMode::AddingList, empty);
            assert(opened(*old(app), *app, InputMode::AddingList, Seq::empty()));
        },
        Action::RenameList => {
            let name = match app.selected_list_id() {
                Some(id) => match app.doc.get_list(id.as_str()) {
                    Some(l) => l.name.clone(),
                    None => {
                        return;
                    },
                },
                None => {
                    return;
                },
            };
            app.start_input(InputMode::RenamingList, name.as_str());
        },
        Action::DeleteList => {
            let n = app.num_lists();
            if n > 1 {
                app.input_mode = InputMode::ConfirmDelete;
            }
        },
        Action::MoveListUp => {
            app.move_list_up();
        },
        Action::MoveListDown => {
            app.move_list_down();
        },
        Action::MoveListToTop => {
            app.move_list_to_top();
        },
        Action::MoveListToBottom => {
            app.move_list_to_bottom();
        },
        _ => {},
    }
}

/// Handles a key in the main pane: its fixed binding, else its configured
/// one.
pub fn handle_main_pane(app: &mut App, key: (KeyModifiers, KeyCode))
    requires
        old(app).wf(),
    ensures
        final(app).wf(),
        match main_binding(*old(app), key) {
            Some(act) => main_key(*old(app), *final(app), act),
            None => *final(app) == *old(app),
        },
{
    let act = match fixed_main_exec(key) {
        Some(a) => a,
        None => match lookup(&app.key_config.normal_main, key) {
            Some(a) => a,
            None => {
                return;
            },
        },
    };
    main_action(app, act);
}

/// Handles a key in the sidebar: its fixed binding, else its configured
/// one.
pub fn handle_sidebar(app: &mut App, key: (KeyModifiers, KeyCode))
    requires
        old(app).wf(),
    ensures
        final(app).wf(),
        match sidebar_binding(*old(app), key) {
            Some(act) => sidebar_key(*old(app), *final(app), act),
            None => *final(app) == *old(app),
        },
{
    let act = match fixed_sidebar_exec(key) {
        Some(a) => a,
        None => match lookup(&app.key_config.normal_sidebar, key) {
            Some(a) => a,
            None => {
                return;
            },
        },
    };
    sidebar_action(app, act);
}

/// Does what a global action does.
#[verifier::spinoff_prover]
#[verifier::rlimit(40)]
fn global_action(app: &mut App, act: Action, rows: Option<u16>)
    requires
        old(app).wf(),
    ensures
        final(app).wf(),
        global_key(*old(app), *final(app), act@, rows),
{
    match act {
        Action::Quit => {
            app.quit();
        },
        Action::TogglePane => {
            app.toggle_pane();
        },
        Action::MoveUp => {
            app.move_selection_up();
        },
        Action::MoveDown => {
            app.move_selection_down();
        },
        Action::Undo => {
            app.undo();
        },
        Action::Redo => {
            app.redo();
        },
        Action::PageDown => {
            match rows {
                Some(r) => {
                    let page: usize = (if r >= 4 { r - 4 } else { 0 }) as usize;
                    app.page_down(page);
                },
                None => {},
            }
        },
        Action::PageUp => {
            match rows {
                Some(r) => {
                    let page: usize = (if r >= 4 { r - 4 } else { 0 }) as usize;
                    app.page_up(page);
                },
                None => {},
            }
        },
        Action::JumpToFirst => {
            app.jump_to_first();
        },
        Action::JumpToLast => {
            app.jump_to_last();
        },
        Action::SwitchContext => {
            app.start_switch_context();
        },
        _ => {},
    }
}

/// Handles a key through the configured bindings of normal mode.
fn handle_configured(app: &mut App, key: (KeyModifiers, KeyCode), rows: Option<u16>)
    requires
        old(app).wf(),
    ensures
        final(app).wf(),
        configured_key(*old(app), *final(app), key, rows),
{
    match lookup(&app.key_config.normal, key) {
        Some(act) => {
            let global = match act {
                Action::Quit | Action::TogglePane | Action::MoveUp | Action::MoveDown | Action::Undo
                | Action::Redo | Action::PageDown | Action::PageUp | Action::JumpToFirst | Action::JumpToLast
                | Action::SwitchContext => true,
                _ => false,
            };
            if global {
                global_action(app, act, rows);
            }
        },
        None => {
            match app.active_pane {
                Pane::Main => match lookup(&app.key_config.normal_main, key) {
                    Some(act) => main_action(app, act),
                    None => {},
                },
                Pane::Sidebar => match lookup(&app.key_config.normal_sidebar, key) {
                    Some(act) => sidebar_action(app, act),
                    None => {},
                },
            }
        },
    }
}

/// Handles a key in normal mode; `rows` is the terminal's height, if known.
pub fn handle_normal_mode(app: &mut App, key: (KeyModifiers, KeyCode), rows: Option<u16>)
    requires
        old(app).wf(),
    ensures
        final(app).wf(),
        normal_key(*old(app), *final(app), key, rows),
{
    let is_g = key.0 == KeyModifiers::none() && key.1 == KeyCode::Char('g');
    let is_slash = key.0 == KeyModifiers::none() && key.1 == KeyCode::Char('/');
    if app.pending_g {
        app.pending_g = false;
        if is_g {
            app.jump_to_first();
            return;
        }
    }
    match fixed_global_exec(key) {
        Some(act) => {
            global_action(app, act, rows);
        },
        None => {
            if is_g {
                app.pending_g = true;
            } else if is_slash {
                app.start_search();
            } else {
                match app.active_pane {
                    Pane::Main => match fixed_main_exec(key) {
                        Some(act) => main_action(app, act),
                        None => handle_configured(app, key, rows),
                    },
                    Pane::Sidebar => match fixed_sidebar_exec(key) {
                        Some(act) => sidebar_action(app, act),
                        None => handle_configured(app, key, rows),
                    },
                }
            }
        },
    }
}

} // verus!

verus! {

/// The context a request names for creation, if any.
pub open spec fn created_name(r: Request) -> Option<String> {
    match r {
        Request::CreateContext(s) => Some(s),
        _ => None,
    }
}

/// What a key does in the search box.
pub open spec fn search_key(a: App, b: App, key: (KeyModifiers, KeyCode)) -> bool {
    match bound(a.key_config.search@, key) {
        Some(ActionV::Confirm) => search_hit_selected(a, b),
        Some(ActionV::Cancel) => input_cancelled(a, b),
        Some(ActionV::PrevResult) => hit_prev(a, b),
        Some(ActionV::NextResult) => hit_next(a, b),
        Some(_) => b == a,
        None => match key.1 {
            KeyCode::Backspace => exists|m: App| #[trigger] char_deleted(a, m) && search_updated(m, b),
            KeyCode::Left => cursor_left(a, b),
            KeyCode::Right => cursor_right(a, b),
            KeyCode::Char(c) => exists|m: App| #[trigger] char_inserted(a, m, c) && search_updated(m, b),
            _ => b == a,
        },
    }
}

/// What a key does on the input line; `r` is what it asks of the caller.
pub open spec fn input_key(a: App, b: App, key: (KeyModifiers, KeyCode), r: Request) -> bool {
    let act = bound(a.key_config.input@, key);
    if a.autocomplete_active && (act == Some(ActionV::Autocomplete) || key.1 == KeyCode::Up || key.1 == KeyCode::Down
        || act == Some(ActionV::Cancel)) {
        &&& r is Nothing
        &&& if act == Some(ActionV::Autocomplete) {
            completion_accepted(a, b)
        } else if key.1 == KeyCode::Up {
            completion_up(a, b)
        } else if key.1 == KeyCode::Down {
            completion_down(a, b)
        } else {
            completion_dismissed(a, b)
        }
    } else {
        match act {
            Some(ActionV::Confirm) => input_confirmed(a, b, created_name(r)) && !(r is SwitchContext),
            Some(ActionV::Cancel) => r is Nothing && input_cancelled(a, b),
            Some(_) => r is Nothing && b == a,
            None => r is Nothing && match key.1 {
                KeyCode::Backspace => exists|m: App| #[trigger] char_deleted(a, m) && completion_updated(m, b),
                KeyCode::Left => exists|m: App| #[trigger] cursor_left(a, m) && completion_updated(m, b),
                KeyCode::Right => exists|m: App| #[trigger] cursor_right(a, m) && completion_updated(m, b),
                KeyCode::Char(c) => exists|m: App| #[trigger] char_inserted(a, m, c) && completion_updated(m, b),
                _ => b == a,
            },
        }
    }
}

/// What a key does during a focus session.
pub open spec fn focus_key(a: App, b: App, key: (KeyModifiers, KeyCode)) -> bool {
    match bound(a.key_config.focus@, key) {
        Some(ActionV::Stop) => exists|now: u64| #[trigger] focus_stopped(a, b, now),
        Some(ActionV::TogglePause) => exists|now: u64| #[trigger] focus_paused(a, b, now),
        _ => b == a,
    }
}

/// The keys of the tag filter picker read before the configured ones,
/// whatever the modifiers: Enter applies, Esc cancels, Space ticks, Up/`k`
/// and Down/`j` move.
pub open spec fn fixed_filter(c: KeyCode) -> Option<ActionV> {
    if c == KeyCode::Enter {
        Some(ActionV::Confirm)
    } else if c == KeyCode::Esc {
        Some(ActionV::Cancel)
    } else if c == KeyCode::Char(' ') {
        Some(ActionV::Toggle)
    } else if c == KeyCode::Up || c == KeyCode::Char('k') {
        Some(ActionV::MoveUp)
    } else if c == KeyCode::Down || c == KeyCode::Char('j') {
        Some(ActionV::MoveDown)
    } else {
        None
    }
}

/// What a key does in the tag filter picker.
pub open spec fn filter_key(a: App, b: App, key: (KeyModifiers, KeyCode)) -> bool {
    match (match fixed_filter(key.1) {
        Some(act) => Some(act),
        None => bound(a.key_config.filter@, key),
    }) {
        Some(ActionV::Confirm) => filter_confirmed(a, b),
        Some(ActionV::Cancel) => filter_cancelled(a, b),
        Some(ActionV::Toggle) => filter_ticked(a, b),
        Some(ActionV::MoveUp) => filter_up(a, b),
        Some(ActionV::MoveDown) => filter_down(a, b),
        _ => b == a,
    }
}

/// What a key does in the list picker.
pub open spec fn picker_key(a: App, b: App, key: (KeyModifiers, KeyCode)) -> bool {
    match bound(a.key_config.move_to_list@, key) {
        Some(ActionV::Confirm) => moved_to_list(a, b),
        Some(ActionV::Cancel) => picker_cancelled(a, b),
        Some(ActionV::MoveUp) => picker_up(a, b),
        Some(ActionV::MoveDown) => picker_down(a, b),
        Some(_) => b == a,
        None => match key.1 {
            KeyCode::Backspace => picker_erased(a, b),
            KeyCode::Char(c) => picker_typed(a, b, c),
            _ => b == a,
        },
    }
}

/// What a key does when asked to confirm deleting a list.
pub open spec fn delete_confirm_key(a: App, b: App, key: (KeyModifiers, KeyCode)) -> bool {
    match bound(a.key_config.confirm@, key) {
        Some(ActionV::Yes) => list_deleted(App { input_mode: InputMode::Normal, ..a }, b),
        Some(ActionV::No) => b == (App { input_mode: InputMode::Normal, ..a }),
        _ => b == a,
    }
}

/// What a key does when asked to confirm archiving.
pub open spec fn archive_confirm_key(a: App, b: App, key: (KeyModifiers, KeyCode)) -> bool {
    match bound(a.key_config.confirm@, key) {
        Some(ActionV::Yes) => done_archived(App { input_mode: InputMode::Normal, ..a }, b),
        Some(ActionV::No) => b == (App { input_mode: InputMode::Normal, ..a }),
        _ => b == a,
    }
}

/// What a key does in the context switcher, given the contexts that
/// exist; `r` is what it asks of the caller.
pub open spec fn switcher_key(a: App, b: App, key: (KeyModifiers, KeyCode), avail: Seq<String>, r: Request) -> bool {
    match bound(a.key_config.context_switch@, key) {
        Some(ActionV::Confirm) => {
            let offer = context_offer(a, strings_view(avail));
            if a.context_cursor < offer.len() {
                r matches Request::SwitchContext(n) && n@ == offer[a.context_cursor as int] && b == a
            } else {
                &&& r is Nothing
                &&& b.context_filter@.len() == 0
                &&& b.input_buffer@.len() == 0
                &&& b == (App {
                    context_filter: b.context_filter,
                    input_mode: InputMode::CreatingContext,
                    input_buffer: b.input_buffer,
                    input_pos: 0,
                    input_cursor: 0,
                    ..a
                })
            }
        },
        Some(ActionV::Cancel) => r is Nothing && switcher_cancelled(a, b),
        Some(ActionV::MoveUp) => r is Nothing && switcher_up(a, b),
        Some(ActionV::MoveDown) => r is Nothing && switcher_down(a, b, avail),
        Some(_) => r is Nothing && b == a,
        None => r is Nothing && match key.1 {
            KeyCode::Backspace => switcher_erased(a, b),
            KeyCode::Char(c) => switcher_typed(a, b, c),
            _ => b == a,
        },
    }
}

/// What a key does, by the input mode; `rows` is the terminal's height if
/// known, `avail` the contexts that exist, `r` what the key asks of the
/// caller.
pub open spec fn key_handled(a: App, b: App, key: (KeyModifiers, KeyCode), rows: Option<u16>, avail: Seq<String>, r: Request) -> bool {
    match a.input_mode {
        InputMode::Normal => r is Nothing && normal_key(a, b, key, rows),
        InputMode::ConfirmDelete => r is Nothing && delete_confirm_key(a, b, key),
        InputMode::ConfirmArchive => r is Nothing && archive_confirm_key(a, b, key),
        InputMode::Searching => r is Nothing && search_key(a, b, key),
        InputMode::Focused => r is Nothing && focus_key(a, b, key),
        InputMode::FilteringTags => r is Nothing && filter_key(a, b, key),
        InputMode::MovingToList => r is Nothing && picker_key(a, b, key),
        InputMode::SwitchingContext => switcher_key(a, b, key, avail, r),
        _ => input_key(a, b, key, r),
    }
}

#[verifier::spinoff_prover]
#[verifier::rlimit(40)]
fn handle_search_mode(app: &mut App, key: (KeyModifiers, KeyCode))
    requires
        old(app).wf(),
    ensures
        final(app).wf(),
        search_key(*old(app), *final(app), key),
{
    match lookup(&app.key_config.search, key) {
        Some(Action::Confirm) => {
            app.select_search_result();
        },
        Some(Action::Cancel) => {
            app.cancel_input();
        },
        Some(Action::PrevResult) => {
            app.search_select_prev();
        },
        Some(Action::NextResult) => {
            app.search_select_next();
        },
        Some(_) => {},
        None => {
            match key.1 {
                KeyCode::Backspace => {
                    app.input_delete_char();
                    let ghost m = *app;
                    app.update_search_results();
                    assert(char_deleted(*old(app), m));
                },
                KeyCode::Left => {
                    app.input_move_cursor_left();
                },
                KeyCode::Right => {
                    app.input_move_cursor_right();
                },
                KeyCode::Char(c) => {
                    app.input_insert_char(c);
                    let ghost m = *app;
                    app.update_search_results();
                    assert(char_inserted(*old(app), m, c));
                },
                _ => {},
            }
        },
    }
}

#[verifier::spinoff_prover]
#[verifier::rlimit(40)]
fn handle_input_mode(app: &mut App, key: (KeyModifiers, KeyCode)) -> (r: Request)
    requires
        old(app).wf(),
    ensures
        final(app).wf(),
        input_key(*old(app), *final(app), key, r),
{
    let act = lookup(&app.key_config.input, key);
    let is_complete = match &act {
        Some(Action::Autocomplete) => true,
        _ => false,
    };
    let is_cancel = match &act {
        Some(Action::Cancel) => true,
        _ => false,
    };
    let is_confirm = match &act {
        Some(Action::Confirm) => true,
        _ => false,
    };
    if app.autocomplete_active && (is_complete || key.1 == KeyCode::Up || key.1 == KeyCode::Down || is_cancel) {
        if is_complete {
            app.accept_autocomplete();
        } else if key.1 == KeyCode::Up {
            app.autocomplete_move_up();
        } else if key.1 == KeyCode::Down {
            app.autocomplete_move_down();
        } else {
            app.dismiss_autocomplete();
        }
        return Request::Nothing;
    }
    if is_confirm {
        return match app.confirm_input() {
            Some(name) => Request::CreateContext(name),
            None => Request::Nothing,
        };
    }
    if is_cancel {
        app.cancel_input();
        return Request::Nothing;
    }
    if act.is_some() {
        return Request::Nothing;
    }
    match key.1 {
        KeyCode::Backspace => {
            app.input_delete_char();
            let ghost m = *app;
            app.update_autocomplete();
            assert(char_deleted(*old(app), m));
        },
        KeyCode::Left => {
            app.input_move_cursor_left();
            let ghost m = *app;
            app.update_autocomplete();
            assert(cursor_left(*old(app), m));
        },
        KeyCode::Right => {
            app.input_move_cursor_right();
            let ghost m = *app;
            app.update_autocomplete();
            assert(cursor_right(*old(app), m));
        },
        KeyCode::Char(c) => {
            app.input_insert_char(c);
            let ghost m = *app;
            app.update_autocomplete();
            assert(char_inserted(*old(app), m, c));
        },
        _ => {},
    }
    Request::Nothing
}

fn handle_focus_mode(app: &mut App, key: (KeyModifiers, KeyCode))
    requires
        old(app).wf(),
    ensures
        final(app).wf(),
        focus_key(*old(app), *final(app), key),
{
    match lookup(&app.key_config.focus, key) {
        Some(Action::Stop) => {
            app.stop_focus();
        },
        Some(Action::TogglePause) => {
            app.toggle_pause_focus();
        },
        _ => {},
    }
}

fn handle_filter_mode(app: &mut App, key: (KeyModifiers, KeyCode))
    requires
        old(app).wf(),
    ensures
        final(app).wf(),
        filter_key(*old(app), *final(app), key),
{
    let c = key.1;
    let act = if c == KeyCode::Enter {
        Some(Action::Confirm)
    } else if c == KeyCode::Esc {
        Some(Action::Cancel)
    } else if c == KeyCode::Char(' ') {
        Some(Action::Toggle)
    } else if c == KeyCode::Up || c == KeyCode::Char('k') {
        Some(Action::MoveUp)
    } else if c == KeyCode::Down || c == KeyCode::Char('j') {
        Some(Action::MoveDown)
    } else {
        lookup(&app.key_config.filter, key)
    };
    match act {
        Some(Action::Confirm) => {
            app.confirm_filter();
        },
        Some(Action::Cancel) => {
            app.cancel_filter();
        },
        Some(Action::Toggle) => {
            app.toggle_filter_tag();
        },
        Some(Action::MoveUp) => {
            app.filter_move_up();
        },
        Some(Action::MoveDown) => {
            app.filter_move_down();
        },
        _ => {},
    }
}

fn handle_move_to_list_mode(app: &mut App, key: (KeyModifiers, KeyCode))
    requires
        old(app).wf(),
    ensures
        final(app).wf(),
        picker_key(*old(app), *final(app), key),
{
    match lookup(&app.key_config.move_to_list, key) {
        Some(Action::Confirm) => {
            app.confirm_move_to_list();
        },
        Some(Action::Cancel) => {
            app.cancel_move_to_list();
        },
        Some(Action::MoveUp) => {
            app.move_to_list_move_up();
        },
        Some(Action::MoveDown) => {
            app.move_to_list_move_down();
        },
        Some(_) => {},
        None => {
            match key.1 {
                KeyCode::Backspace => {
                    app.move_to_list_delete_char();
                },
                KeyCode::Char(c) => {
                    app.move_to_list_insert_char(c);
                },
                _ => {},
            }
        },
    }
}

fn handle_confirm_delete(app: &mut App, key: (KeyModifiers, KeyCode))
    requires
        old(app).wf(),
    ensures
        final(app).wf(),
        delete_confirm_key(*old(app), *final(app), key),
{
    match lookup(&app.key_config.confirm, key) {
        Some(Action::Yes) => {
            app.input_mode = InputMode::Normal;
            app.delete_list();
        },
        Some(Action::No) => {
            app.input_mode = InputMode::Normal;
        },
        _ => {},
    }
}

fn handle_confirm_archive(app: &mut App, key: (KeyModifiers, KeyCode))
    requires
        old(app).wf(),
    ensures
        final(app).wf(),
        archive_confirm_key(*old(app), *final(app), key),
{
    match lookup(&app.key_config.confirm, key) {
        Some(Action::Yes) => {
            app.input_mode = InputMode::Normal;
            app.archive_done_items();
        },
        Some(Action::No) => {
            app.input_mode = InputMode::Normal;
        },
        _ => {},
    }
}

fn handle_context_switch_mode(app: &mut App, key: (KeyModifiers, KeyCode), available: &Vec<String>) -> (r: Request)
    requires
        old(app).wf(),
    ensures
        final(app).wf(),
        switcher_key(*old(app), *final(app), key, available@, r),
{
    match lookup(&app.key_config.context_switch, key) {
        Some(Action::Confirm) => match app.confirm_context_switch(available) {
            Some(name) => Request::SwitchContext(name),
            None => Request::Nothing,
        },
        Some(Action::Cancel) => {
            app.cancel_context_switch();
            Request::Nothing
        },
        Some(Action::MoveUp) => {
            app.context_move_up();
            Request::Nothing
        },
        Some(Action::MoveDown) => {
            app.context_move_down(available);
            Request::Nothing
        },
        Some(_) => Request::Nothing,
        None => {
            match key.1 {
                KeyCode::Backspace => {
                    app.context_delete_char();
                },
                KeyCode::Char(c) => {
                    app.context_insert_char(c);
                },
                _ => {},
            }
            Request::Nothing
        },
    }
}

/// Handles a key: `rows` is the terminal's height, if known, `available`
/// the contexts that exist; returns what the key asks of the caller.
pub fn handle_key(app: &mut App, key: (KeyModifiers, KeyCode), rows: Option<u16>, available: &Vec<String>) -> (r: Request)
    requires
        old(app).wf(),
    ensures
        final(app).wf(),
        key_handled(*old(app), *final(app), key, rows, available@, r),
{
    match app.input_mode {
        InputMode::Normal => {
            handle_normal_mode(app, key, rows);
            Request::Nothing
        },
        InputMode::ConfirmDelete => {
            handle_confirm_delete(app, key);
            Request::Nothing
        },
        InputMode::ConfirmArchive => {
            handle_confirm_archive(app, key);
            Request::Nothing
        },
        InputMode::Searching => {
            handle_search_mode(app, key);
            Request::Nothing
        },
        InputMode::Focused => {
            handle_focus_mode(app, key);
            Request::Nothing
        },
        InputMode::FilteringTags => {
            handle_filter_mode(app, key);
            Request::Nothing
        },
        InputMode::MovingToList => {
            handle_move_to_list_mode(app, key);
            Request::Nothing
        },
        InputMode::SwitchingContext => handle_context_switch_mode(app, key, available),
        _ => handle_input_mode(app, key),
    }
}

} // verus!
