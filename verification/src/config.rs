use vstd::prelude::*;


use crate::text::{
    chars_eq_str, chars_of, decimal, decimal_chars, join, join_chars, push_all, push_str,
    string_of, is_ascii_alnum, lowercase, lowercase_chars, split_chars, split_on,
    str_eq, views, sort_shorter_first, string_views, strings_sorted, shorter_first_less, shorter_first_lt,
    lemma_shorter_first_strict,
};

verus! {

/// Which modifier keys are held with a key.
#[derive(Debug, Clone, Copy, PartialEq, Eq, Hash, Structural)]
pub struct KeyModifiers {
    pub shift: bool,
    pub control: bool,
    pub alt: bool,
    pub super_: bool,
    pub hyper: bool,
    pub meta: bool,
}

impl KeyModifiers {
    pub open spec fn spec_none() -> KeyModifiers {
        KeyModifiers {
            shift: false,
            control: false,
            alt: false,
            super_: false,
            hyper: false,
            meta: false,
        }
    }

    #[verifier::when_used_as_spec(spec_none)]
    pub fn none() -> (r: KeyModifiers)
        ensures
            r == Self::spec_none(),
    {
        KeyModifiers {
            shift: false,
            control: false,
            alt: false,
            super_: false,
            hyper: false,
            meta: false,
        }
    }

    pub open spec fn spec_shift() -> KeyModifiers {
        KeyModifiers {
            shift: true,
            control: false,
            alt: false,
            super_: false,
            hyper: false,
            meta: false,
        }
    }

    #[verifier::when_used_as_spec(spec_shift)]
    pub fn shift() -> (r: KeyModifiers)
        ensures
            r == Self::spec_shift(),
    {
        KeyModifiers {
            shift: true,
            control: false,
            alt: false,
            super_: false,
            hyper: false,
            meta: false,
        }
    }

    pub open spec fn spec_control() -> KeyModifiers {
        KeyModifiers {
            shift: false,
            control: true,
            alt: false,
            super_: false,
            hyper: false,
            meta: false,
        }
    }

    #[verifier::when_used_as_spec(spec_control)]
    pub fn control() -> (r: KeyModifiers)
        ensures
            r == Self::spec_control(),
    {
        KeyModifiers {
            shift: false,
            control: true,
            alt: false,
            super_: false,
            hyper: false,
            meta: false,
        }
    }

    pub open spec fn spec_alt() -> KeyModifiers {
        KeyModifiers {
            shift: false,
            control: false,
            alt: true,
            super_: false,
            hyper: false,
            meta: false,
        }
    }

    #[verifier::when_used_as_spec(spec_alt)]
    pub fn alt() -> (r: KeyModifiers)
        ensures
            r == Self::spec_alt(),
    {
        KeyModifiers {
            shift: false,
            control: false,
            alt: true,
            super_: false,
            hyper: false,
            meta: false,
        }
    }

    pub open spec fn spec_super_key() -> KeyModifiers {
        KeyModifiers {
            shift: false,
            control: false,
            alt: false,
            super_: true,
            hyper: false,
            meta: false,
        }
    }

    #[verifier::when_used_as_spec(spec_super_key)]
    pub fn super_key() -> (r: KeyModifiers)
        ensures
            r == Self::spec_super_key(),
    {
        KeyModifiers {
            shift: false,
            control: false,
            alt: false,
            super_: true,
            hyper: false,
            meta: false,
        }
    }

    pub open spec fn spec_union(self, other: KeyModifiers) -> KeyModifiers {
        KeyModifiers {
            shift: self.shift || other.shift,
            control: self.control || other.control,
            alt: self.alt || other.alt,
            super_: self.super_ || other.super_,
            hyper: self.hyper || other.hyper,
            meta: self.meta || other.meta,
        }
    }

    /// The modifiers held in either `self` or `other`.
    pub fn union(self, other: KeyModifiers) -> (r: KeyModifiers)
        ensures
            r == self.spec_union(other),
    {
        KeyModifiers {
            shift: self.shift || other.shift,
            control: self.control || other.control,
            alt: self.alt || other.alt,
            super_: self.super_ || other.super_,
            hyper: self.hyper || other.hyper,
            meta: self.meta || other.meta,
        }
    }
}

/// A key, apart from its modifiers.
#[derive(Debug, Clone, Copy, PartialEq, Eq, Hash, Structural)]
pub enum KeyCode {
    Backspace,
    Enter,
    Left,
    Right,
    Up,
    Down,
    Home,
    End,
    PageUp,
    PageDown,
    Tab,
    BackTab,
    Delete,
    Insert,
    F(u8),
    Char(char),
    Null,
    Esc,
    Other,
}


/// A command that a key can be bound to.
#[derive(Debug, Clone, PartialEq)]
pub enum Action {
    Quit,
    TogglePane,
    MoveUp,
    MoveDown,
    Undo,
    Redo,
    PageDown,
    PageUp,
    JumpToFirst,
    JumpToLast,
    SwitchContext,
    ToggleDone,
    EditItem,
    EditTags,
    ToggleSelect,
    Delete,
    MoveToList,
    MoveItemUp,
    MoveItemDown,
    MoveItemToTop,
    MoveItemToBottom,
    ToggleShowDone,
    StartFocus,
    StartFilter,
    EditTime,
    StartArchive,
    AddItem,
    ClearSelection,
    ToggleTag(String),
    ToggleListType,
    AddList,
    RenameList,
    DeleteList,
    MoveListUp,
    MoveListDown,
    MoveListToTop,
    MoveListToBottom,
    Confirm,
    Cancel,
    Toggle,
    Stop,
    TogglePause,
    PrevResult,
    NextResult,
    Autocomplete,
    Yes,
    No,
}

/// The abstract value of an action.
pub enum ActionV {
    Quit,
    TogglePane,
    MoveUp,
    MoveDown,
    Undo,
    Redo,
    PageDown,
    PageUp,
    JumpToFirst,
    JumpToLast,
    SwitchContext,
    ToggleDone,
    EditItem,
    EditTags,
    ToggleSelect,
    Delete,
    MoveToList,
    MoveItemUp,
    MoveItemDown,
    MoveItemToTop,
    MoveItemToBottom,
    ToggleShowDone,
    StartFocus,
    StartFilter,
    EditTime,
    StartArchive,
    AddItem,
    ClearSelection,
    ToggleTag(Seq<char>),
    ToggleListType,
    AddList,
    RenameList,
    DeleteList,
    MoveListUp,
    MoveListDown,
    MoveListToTop,
    MoveListToBottom,
    Confirm,
    Cancel,
    Toggle,
    Stop,
    TogglePause,
    PrevResult,
    NextResult,
    Autocomplete,
    Yes,
    No,
}

impl View for Action {
    type V = ActionV;

    open spec fn view(&self) -> ActionV {
        match self {
            Action::Quit => ActionV::Quit,
            Action::TogglePane => ActionV::TogglePane,
            Action::MoveUp => ActionV::MoveUp,
            Action::MoveDown => ActionV::MoveDown,
            Action::Undo => ActionV::Undo,
            Action::Redo => ActionV::Redo,
            Action::PageDown => ActionV::PageDown,
            Action::PageUp => ActionV::PageUp,
            Action::JumpToFirst => ActionV::JumpToFirst,
            Action::JumpToLast => ActionV::JumpToLast,
            Action::SwitchContext => ActionV::SwitchContext,
            Action::ToggleDone => ActionV::ToggleDone,
            Action::EditItem => ActionV::EditItem,
            Action::EditTags => ActionV::EditTags,
            Action::ToggleSelect => ActionV::ToggleSelect,
            Action::Delete => ActionV::Delete,
            Action::MoveToList => ActionV::MoveToList,
            Action::MoveItemUp => ActionV::MoveItemUp,
            Action::MoveItemDown => ActionV::MoveItemDown,
            Action::MoveItemToTop => ActionV::MoveItemToTop,
            Action::MoveItemToBottom => ActionV::MoveItemToBottom,
            Action::ToggleShowDone => ActionV::ToggleShowDone,
            Action::StartFocus => ActionV::StartFocus,
            Action::StartFilter => ActionV::StartFilter,
            Action::EditTime => ActionV::EditTime,
            Action::StartArchive => ActionV::StartArchive,
            Action::AddItem => ActionV::AddItem,
            Action::ClearSelection => ActionV::ClearSelection,
            Action::ToggleTag(t) => ActionV::ToggleTag(t@),
            Action::ToggleListType => ActionV::ToggleListType,
            Action::AddList => ActionV::AddList,
            Action::RenameList => ActionV::RenameList,
            Action::DeleteList => ActionV::DeleteList,
            Action::MoveListUp => ActionV::MoveListUp,
            Action::MoveListDown => ActionV::MoveListDown,
            Action::MoveListToTop => ActionV::MoveListToTop,
            Action::MoveListToBottom => ActionV::MoveListToBottom,
            Action::Confirm => ActionV::Confirm,
            Action::Cancel => ActionV::Cancel,
            Action::Toggle => ActionV::Toggle,
            Action::Stop => ActionV::Stop,
            Action::TogglePause => ActionV::TogglePause,
            Action::PrevResult => ActionV::PrevResult,
            Action::NextResult => ActionV::NextResult,
            Action::Autocomplete => ActionV::Autocomplete,
            Action::Yes => ActionV::Yes,
            Action::No => ActionV::No,
        }
    }
}

impl Action {
    /// A copy of this action.
    pub fn copy(&self) -> (r: Action)
        ensures
            r@ == self@,
    {
        match self {
            Action::Quit => Action::Quit,
            Action::TogglePane => Action::TogglePane,
            Action::MoveUp => Action::MoveUp,
            Action::MoveDown => Action::MoveDown,
            Action::Undo => Action::Undo,
            Action::Redo => Action::Redo,
            Action::PageDown => Action::PageDown,
            Action::PageUp => Action::PageUp,
            Action::JumpToFirst => Action::JumpToFirst,
            Action::JumpToLast => Action::JumpToLast,
            Action::SwitchContext => Action::SwitchContext,
            Action::ToggleDone => Action::ToggleDone,
            Action::EditItem => Action::EditItem,
            Action::EditTags => Action::EditTags,
            Action::ToggleSelect => Action::ToggleSelect,
            Action::Delete => Action::Delete,
            Action::MoveToList => Action::MoveToList,
            Action::MoveItemUp => Action::MoveItemUp,
            Action::MoveItemDown => Action::MoveItemDown,
            Action::MoveItemToTop => Action::MoveItemToTop,
            Action::MoveItemToBottom => Action::MoveItemToBottom,
            Action::ToggleShowDone => Action::ToggleShowDone,
            Action::StartFocus => Action::StartFocus,
            Action::StartFilter => Action::StartFilter,
            Action::EditTime => Action::EditTime,
            Action::StartArchive => Action::StartArchive,
            Action::AddItem => Action::AddItem,
            Action::ClearSelection => Action::ClearSelection,
            Action::ToggleTag(t) => Action::ToggleTag(t.clone()),
            Action::ToggleListType => Action::ToggleListType,
            Action::AddList => Action::AddList,
            Action::RenameList => Action::RenameList,
            Action::DeleteList => Action::DeleteList,
            Action::MoveListUp => Action::MoveListUp,
            Action::MoveListDown => Action::MoveListDown,
            Action::MoveListToTop => Action::MoveListToTop,
            Action::MoveListToBottom => Action::MoveListToBottom,
            Action::Confirm => Action::Confirm,
            Action::Cancel => Action::Cancel,
            Action::Toggle => Action::Toggle,
            Action::Stop => Action::Stop,
            Action::TogglePause => Action::TogglePause,
            Action::PrevResult => Action::PrevResult,
            Action::NextResult => Action::NextResult,
            Action::Autocomplete => Action::Autocomplete,
            Action::Yes => Action::Yes,
            Action::No => Action::No,
        }
    }

    /// Whether this action and `other` are the same command.
    pub fn same_as(&self, other: &Action) -> (r: bool)
        ensures
            r == (self@ == other@),
    {
        match self {
            Action::Quit => matches!(other, Action::Quit),
            Action::TogglePane => matches!(other, Action::TogglePane),
            Action::MoveUp => matches!(other, Action::MoveUp),
            Action::MoveDown => matches!(other, Action::MoveDown),
            Action::Undo => matches!(other, Action::Undo),
            Action::Redo => matches!(other, Action::Redo),
            Action::PageDown => matches!(other, Action::PageDown),
            Action::PageUp => matches!(other, Action::PageUp),
            Action::JumpToFirst => matches!(other, Action::JumpToFirst),
            Action::JumpToLast => matches!(other, Action::JumpToLast),
            Action::SwitchContext => matches!(other, Action::SwitchContext),
            Action::ToggleDone => matches!(other, Action::ToggleDone),
            Action::EditItem => matches!(other, Action::EditItem),
            Action::EditTags => matches!(other, Action::EditTags),
            Action::ToggleSelect => matches!(other, Action::ToggleSelect),
            Action::Delete => matches!(other, Action::Delete),
            Action::MoveToList => matches!(other, Action::MoveToList),
            Action::MoveItemUp => matches!(other, Action::MoveItemUp),
            Action::MoveItemDown => matches!(other, Action::MoveItemDown),
            Action::MoveItemToTop => matches!(other, Action::MoveItemToTop),
            Action::MoveItemToBottom => matches!(other, Action::MoveItemToBottom),
            Action::ToggleShowDone => matches!(other, Action::ToggleShowDone),
            Action::StartFocus => matches!(other, Action::StartFocus),
            Action::StartFilter => matches!(other, Action::StartFilter),
            Action::EditTime => matches!(other, Action::EditTime),
            Action::StartArchive => matches!(other, Action::StartArchive),
            Action::AddItem => matches!(other, Action::AddItem),
            Action::ClearSelection => matches!(other, Action::ClearSelection),
            Action::ToggleTag(t) => match other {
                Action::ToggleTag(u) => str_eq(t.as_str(), u.as_str()),
                _ => false,
            },
            Action::ToggleListType => matches!(other, Action::ToggleListType),
            Action::AddList => matches!(other, Action::AddList),
            Action::RenameList => matches!(other, Action::RenameList),
            Action::DeleteList => matches!(other, Action::DeleteList),
            Action::MoveListUp => matches!(other, Action::MoveListUp),
            Action::MoveListDown => matches!(other, Action::MoveListDown),
            Action::MoveListToTop => matches!(other, Action::MoveListToTop),
            Action::MoveListToBottom => matches!(other, Action::MoveListToBottom),
            Action::Confirm => matches!(other, Action::Confirm),
            Action::Cancel => matches!(other, Action::Cancel),
            Action::Toggle => matches!(other, Action::Toggle),
            Action::Stop => matches!(other, Action::Stop),
            Action::TogglePause => matches!(other, Action::TogglePause),
            Action::PrevResult => matches!(other, Action::PrevResult),
            Action::NextResult => matches!(other, Action::NextResult),
            Action::Autocomplete => matches!(other, Action::Autocomplete),
            Action::Yes => matches!(other, Action::Yes),
            Action::No => matches!(other, Action::No),
        }
    }
}

/// The action that a configuration file names, such as `move_up`.
pub open spec fn action_named(name: Seq<char>) -> Option<ActionV> {
    if name == "quit"@ {
        Some(ActionV::Quit)
    } else if name == "toggle_pane"@ {
        Some(ActionV::TogglePane)
    } else if name == "move_up"@ {
        Some(ActionV::MoveUp)
    } else if name == "move_down"@ {
        Some(ActionV::MoveDown)
    } else if name == "undo"@ {
        Some(ActionV::Undo)
    } else if name == "redo"@ {
        Some(ActionV::Redo)
    } else if name == "page_down"@ {
        Some(ActionV::PageDown)
    } else if name == "page_up"@ {
        Some(ActionV::PageUp)
    } else if name == "jump_to_first"@ {
        Some(ActionV::JumpToFirst)
    } else if name == "jump_to_last"@ {
        Some(ActionV::JumpToLast)
    } else if name == "switch_context"@ {
        Some(ActionV::SwitchContext)
    } else if name == "toggle_done"@ {
        Some(ActionV::ToggleDone)
    } else if name == "edit_item"@ {
        Some(ActionV::EditItem)
    } else if name == "edit_tags"@ {
        Some(ActionV::EditTags)
    } else if name == "toggle_select"@ {
        Some(ActionV::ToggleSelect)
    } else if name == "delete"@ {
        Some(ActionV::Delete)
    } else if name == "move_to_list"@ {
        Some(ActionV::MoveToList)
    } else if name == "move_item_up"@ {
        Some(ActionV::MoveItemUp)
    } else if name == "move_item_down"@ {
        Some(ActionV::MoveItemDown)
    } else if name == "move_item_to_top"@ {
        Some(ActionV::MoveItemToTop)
    } else if name == "move_item_to_bottom"@ {
        Some(ActionV::MoveItemToBottom)
    } else if name == "toggle_show_done"@ {
        Some(ActionV::ToggleShowDone)
    } else if name == "start_focus"@ {
        Some(ActionV::StartFocus)
    } else if name == "start_filter"@ {
        Some(ActionV::StartFilter)
    } else if name == "edit_time"@ {
        Some(ActionV::EditTime)
    } else if name == "start_archive"@ {
        Some(ActionV::StartArchive)
    } else if name == "add_item"@ {
        Some(ActionV::AddItem)
    } else if name == "clear_selection"@ {
        Some(ActionV::ClearSelection)
    } else if name == "toggle_list_type"@ {
        Some(ActionV::ToggleListType)
    } else if name == "add_list"@ {
        Some(ActionV::AddList)
    } else if name == "rename_list"@ {
        Some(ActionV::RenameList)
    } else if name == "delete_list"@ {
        Some(ActionV::DeleteList)
    } else if name == "move_list_up"@ {
        Some(ActionV::MoveListUp)
    } else if name == "move_list_down"@ {
        Some(ActionV::MoveListDown)
    } else if name == "move_list_to_top"@ {
        Some(ActionV::MoveListToTop)
    } else if name == "move_list_to_bottom"@ {
        Some(ActionV::MoveListToBottom)
    } else if name == "confirm"@ {
        Some(ActionV::Confirm)
    } else if name == "cancel"@ {
        Some(ActionV::Cancel)
    } else if name == "toggle"@ {
        Some(ActionV::Toggle)
    } else if name == "stop"@ {
        Some(ActionV::Stop)
    } else if name == "toggle_pause"@ {
        Some(ActionV::TogglePause)
    } else if name == "prev_result"@ {
        Some(ActionV::PrevResult)
    } else if name == "next_result"@ {
        Some(ActionV::NextResult)
    } else if name == "autocomplete"@ {
        Some(ActionV::Autocomplete)
    } else if name == "yes"@ {
        Some(ActionV::Yes)
    } else if name == "no"@ {
        Some(ActionV::No)
    } else {
        None
    }
}

fn action_from_name(name: &str) -> (r: Option<Action>)
    ensures
        opt_action_view(r) == action_named(name@),
{
    if str_eq(name, "quit") {
        Some(Action::Quit)
    } else if str_eq(name, "toggle_pane") {
        Some(Action::TogglePane)
    } else if str_eq(name, "move_up") {
        Some(Action::MoveUp)
    } else if str_eq(name, "move_down") {
        Some(Action::MoveDown)
    } else if str_eq(name, "undo") {
        Some(Action::Undo)
    } else if str_eq(name, "redo") {
        Some(Action::Redo)
    } else if str_eq(name, "page_down") {
        Some(Action::PageDown)
    } else if str_eq(name, "page_up") {
        Some(Action::PageUp)
    } else if str_eq(name, "jump_to_first") {
        Some(Action::JumpToFirst)
    } else if str_eq(name, "jump_to_last") {
        Some(Action::JumpToLast)
    } else if str_eq(name, "switch_context") {
        Some(Action::SwitchContext)
    } else if str_eq(name, "toggle_done") {
        Some(Action::ToggleDone)
    } else if str_eq(name, "edit_item") {
        Some(Action::EditItem)
    } else if str_eq(name, "edit_tags") {
        Some(Action::EditTags)
    } else if str_eq(name, "toggle_select") {
        Some(Action::ToggleSelect)
    } else if str_eq(name, "delete") {
        Some(Action::Delete)
    } else if str_eq(name, "move_to_list") {
        Some(Action::MoveToList)
    } else if str_eq(name, "move_item_up") {
        Some(Action::MoveItemUp)
    } else if str_eq(name, "move_item_down") {
        Some(Action::MoveItemDown)
    } else if str_eq(name, "move_item_to_top") {
        Some(Action::MoveItemToTop)
    } else if str_eq(name, "move_item_to_bottom") {
        Some(Action::MoveItemToBottom)
    } else if str_eq(name, "toggle_show_done") {
        Some(Action::ToggleShowDone)
    } else if str_eq(name, "start_focus") {
        Some(Action::StartFocus)
    } else if str_eq(name, "start_filter") {
        Some(Action::StartFilter)
    } else if str_eq(name, "edit_time") {
        Some(Action::EditTime)
    } else if str_eq(name, "start_archive") {
        Some(Action::StartArchive)
    } else if str_eq(name, "add_item") {
        Some(Action::AddItem)
    } else if str_eq(name, "clear_selection") {
        Some(Action::ClearSelection)
    } else if str_eq(name, "toggle_list_type") {
        Some(Action::ToggleListType)
    } else if str_eq(name, "add_list") {
        Some(Action::AddList)
    } else if str_eq(name, "rename_list") {
        Some(Action::RenameList)
    } else if str_eq(name, "delete_list") {
        Some(Action::DeleteList)
    } else if str_eq(name, "move_list_up") {
        Some(Action::MoveListUp)
    } else if str_eq(name, "move_list_down") {
        Some(Action::MoveListDown)
    } else if str_eq(name, "move_list_to_top") {
        Some(Action::MoveListToTop)
    } else if str_eq(name, "move_list_to_bottom") {
        Some(Action::MoveListToBottom)
    } else if str_eq(name, "confirm") {
        Some(Action::Confirm)
    } else if str_eq(name, "cancel") {
        Some(Action::Cancel)
    } else if str_eq(name, "toggle") {
        Some(Action::Toggle)
    } else if str_eq(name, "stop") {
        Some(Action::Stop)
    } else if str_eq(name, "toggle_pause") {
        Some(Action::TogglePause)
    } else if str_eq(name, "prev_result") {
        Some(Action::PrevResult)
    } else if str_eq(name, "next_result") {
        Some(Action::NextResult)
    } else if str_eq(name, "autocomplete") {
        Some(Action::Autocomplete)
    } else if str_eq(name, "yes") {
        Some(Action::Yes)
    } else if str_eq(name, "no") {
        Some(Action::No)
    } else {
        None
    }
}

pub open spec fn opt_action_view(o: Option<Action>) -> Option<ActionV> {
    match o {
        Some(a) => Some(a@),
        None => None,
    }
}

// ---------------------------------------------------------------------------
// Key maps
// ---------------------------------------------------------------------------

pub open spec fn entry_key(e: (KeyModifiers, KeyCode, Action)) -> (KeyModifiers, KeyCode) {
    (e.0, e.1)
}

/// The bindings that a sequence of entries makes, a later entry for a key
/// replacing an earlier one.
pub open spec fn map_of(es: Seq<(KeyModifiers, KeyCode, Action)>) -> Map<(KeyModifiers, KeyCode), ActionV>
    decreases es.len(),
{
    if es.len() == 0 {
        Map::empty()
    } else {
        map_of(es.drop_last()).insert(entry_key(es.last()), es.last().2@)
    }
}

pub open spec fn keys_unique(es: Seq<(KeyModifiers, KeyCode, Action)>) -> bool {
    forall|i: int, j: int|
        0 <= i < j < es.len() ==> entry_key(#[trigger] es[i]) != entry_key(#[trigger] es[j])
}

/// Bindings from keys (with their modifiers) to actions.
#[derive(Debug)]
pub struct KeyMap {
    entries: Vec<(KeyModifiers, KeyCode, Action)>,
}

impl View for KeyMap {
    type V = Map<(KeyModifiers, KeyCode), ActionV>;

    closed spec fn view(&self) -> Map<(KeyModifiers, KeyCode), ActionV> {
        map_of(self.entries@)
    }
}

proof fn lemma_map_of_entry(es: Seq<(KeyModifiers, KeyCode, Action)>, i: int)
    requires
        keys_unique(es),
        0 <= i < es.len(),
    ensures
        map_of(es).contains_key(entry_key(es[i])),
        map_of(es)[entry_key(es[i])] == es[i].2@,
    decreases es.len(),
{
    if i < es.len() - 1 {
        let d = es.drop_last();
        assert(d[i] == es[i]);
        assert(keys_unique(d)) by {
            assert forall|a: int, b: int| 0 <= a < b < d.len() implies entry_key(#[trigger] d[a]) != entry_key(#[trigger] d[b]) by {
                assert(d[a] == es[a] && d[b] == es[b]);
            }
        }
        lemma_map_of_entry(d, i);
        assert(entry_key(es[i]) != entry_key(es[es.len() - 1]));
    }
}

proof fn lemma_map_of_key(es: Seq<(KeyModifiers, KeyCode, Action)>, k: (KeyModifiers, KeyCode))
    requires
        map_of(es).contains_key(k),
    ensures
        exists|i: int| 0 <= i < es.len() && entry_key(#[trigger] es[i]) == k,
    decreases es.len(),
{
    let d = es.drop_last();
    if entry_key(es.last()) != k {
        lemma_map_of_key(d, k);
        let i = choose|i: int| 0 <= i < d.len() && entry_key(#[trigger] d[i]) == k;
        assert(es[i] == d[i]);
    } else {
        assert(entry_key(es[es.len() - 1]) == k);
    }
}

proof fn lemma_map_of_update(es: Seq<(KeyModifiers, KeyCode, Action)>, i: int, e: (KeyModifiers, KeyCode, Action))
    requires
        keys_unique(es),
        0 <= i < es.len(),
        entry_key(e) == entry_key(es[i]),
    ensures
        map_of(es.update(i, e)) == map_of(es).insert(entry_key(e), e.2@),
        keys_unique(es.update(i, e)),
    decreases es.len(),
{
    let u = es.update(i, e);
    assert(keys_unique(u)) by {
        assert forall|a: int, b: int| 0 <= a < b < u.len() implies entry_key(#[trigger] u[a]) != entry_key(#[trigger] u[b]) by {
            assert(entry_key(u[a]) == entry_key(es[a]));
            assert(entry_key(u[b]) == entry_key(es[b]));
        }
    }
    let d = es.drop_last();
    assert(keys_unique(d)) by {
        assert forall|a: int, b: int| 0 <= a < b < d.len() implies entry_key(#[trigger] d[a]) != entry_key(#[trigger] d[b]) by {
            assert(d[a] == es[a] && d[b] == es[b]);
        }
    }
    if i == es.len() - 1 {
        assert(u.drop_last() == d);
        assert(u.last() == e);
        assert(map_of(u) == map_of(d).insert(entry_key(e), e.2@));
        assert(map_of(es) == map_of(d).insert(entry_key(e), es[i].2@));
        assert(map_of(d).insert(entry_key(e), es[i].2@).insert(entry_key(e), e.2@) =~= map_of(d).insert(entry_key(e), e.2@));
    } else {
        assert(d[i] == es[i]);
        lemma_map_of_update(d, i, e);
        assert(u.drop_last() == d.update(i, e));
        assert(u.last() == es.last());
        assert(entry_key(es[i]) != entry_key(es[es.len() - 1]));
        let k = entry_key(e);
        let kl = entry_key(es.last());
        assert(map_of(u) == map_of(d).insert(k, e.2@).insert(kl, es.last().2@));
        assert(map_of(u) =~= map_of(d).insert(kl, es.last().2@).insert(k, e.2@));
    }
}

impl KeyMap {
    /// The bindings hold at most one entry per key.
    pub closed spec fn wf(&self) -> bool {
        keys_unique(self.entries@)
    }

    /// An empty key map.
    pub fn new() -> (r: KeyMap)
        ensures
            r.wf(),
            r@ == Map::<(KeyModifiers, KeyCode), ActionV>::empty(),
    {
        KeyMap { entries: Vec::new() }
    }

    /// Binds `key` to `action`, replacing an earlier binding of `key`.
    pub fn insert(&mut self, key: (KeyModifiers, KeyCode), action: Action)
        requires
            old(self).wf(),
        ensures
            final(self).wf(),
            final(self)@ == old(self)@.insert(key, action@),
    {
        let mut i: usize = 0;
        while i < self.entries.len()
            invariant
                i <= self.entries.len(),
                self.entries@ == old(self).entries@,
                keys_unique(self.entries@),
                forall|j: int| 0 <= j < i ==> entry_key(#[trigger] self.entries@[j]) != key,
            decreases self.entries.len() - i,
        {
            let e = &self.entries[i];
            if e.0 == key.0 && e.1 == key.1 {
                let ghost es = self.entries@;
                proof {
                    lemma_map_of_update(es, i as int, (key.0, key.1, action));
                }
                self.entries.set(i, (key.0, key.1, action));
                return;
            }
            i = i + 1;
        }
        let ghost es = self.entries@;
        self.entries.push((key.0, key.1, action));
        assert(self.entries@.drop_last() == es);
        assert(keys_unique(self.entries@)) by {
            assert forall|a: int, b: int| 0 <= a < b < self.entries@.len() implies entry_key(#[trigger] self.entries@[a]) != entry_key(#[trigger] self.entries@[b]) by {
                if b < es.len() {
                    assert(self.entries@[a] == es[a] && self.entries@[b] == es[b]);
                } else {
                    assert(self.entries@[a] == es[a]);
                }
            }
        }
    }

    /// The action bound to `key`, if any.
    pub fn get(&self, key: &(KeyModifiers, KeyCode)) -> (r: Option<&Action>)
        requires
            self.wf(),
        ensures
            match r {
                Some(a) => self@.contains_key(*key) && self@[*key] == a@,
                None => !self@.contains_key(*key),
            },
    {
        let mut i: usize = 0;
        while i < self.entries.len()
            invariant
                i <= self.entries.len(),
                keys_unique(self.entries@),
                forall|j: int| 0 <= j < i ==> entry_key(#[trigger] self.entries@[j]) != *key,
            decreases self.entries.len() - i,
        {
            let e = &self.entries[i];
            if e.0 == key.0 && e.1 == key.1 {
                proof {
                    lemma_map_of_entry(self.entries@, i as int);
                }
                return Some(&e.2);
            }
            i = i + 1;
        }
        proof {
            if self@.contains_key(*key) {
                lemma_map_of_key(self.entries@, *key);
            }
        }
        None
    }

    /// The number of bindings.
    pub fn len(&self) -> (r: usize)
        requires
            self.wf(),
        ensures
            r == self@.len(),
    {
        proof {
            lemma_map_of_len(self.entries@);
        }
        self.entries.len()
    }
}

proof fn lemma_map_of_has(es: Seq<(KeyModifiers, KeyCode, Action)>, i: int)
    requires
        0 <= i < es.len(),
    ensures
        map_of(es).contains_key(entry_key(es[i])),
    decreases es.len(),
{
    if i < es.len() - 1 {
        let d = es.drop_last();
        assert(d[i] == es[i]);
        lemma_map_of_has(d, i);
    }
}

/// Where no entry from `n` on has key `k`, the bindings of all entries and
/// those of the first `n` agree on `k`.
proof fn lemma_map_of_tail(es: Seq<(KeyModifiers, KeyCode, Action)>, n: int, k: (KeyModifiers, KeyCode))
    requires
        0 <= n <= es.len(),
        forall|j: int| n <= j < es.len() ==> entry_key(#[trigger] es[j]) != k,
    ensures
        map_of(es).contains_key(k) == map_of(es.take(n)).contains_key(k),
        map_of(es).contains_key(k) ==> map_of(es)[k] == map_of(es.take(n))[k],
    decreases es.len() - n,
{
    if n < es.len() {
        let d = es.drop_last();
        assert(entry_key(es[es.len() - 1]) != k);
        assert forall|j: int| n <= j < d.len() implies entry_key(#[trigger] d[j]) != k by {
            assert(d[j] == es[j]);
        }
        lemma_map_of_tail(d, n, k);
        assert(d.take(n) == es.take(n));
    } else {
        assert(es.take(n) == es);
    }
}

/// The action that the entries bind `key` to (the last entry with that key).
fn find_binding(es: &Vec<(KeyModifiers, KeyCode, Action)>, key: (KeyModifiers, KeyCode)) -> (r: Option<&Action>)
    ensures
        match r {
            Some(a) => map_of(es@).contains_key(key) && map_of(es@)[key] == a@,
            None => !map_of(es@).contains_key(key),
        },
{
    let mut i = es.len();
    while i > 0
        invariant
            i <= es@.len(),
            forall|j: int| i <= j < es@.len() ==> entry_key(#[trigger] es@[j]) != key,
        decreases i,
    {
        let e = &es[i - 1];
        if e.0 == key.0 && e.1 == key.1 {
            proof {
                lemma_map_of_tail(es@, i as int, key);
                let t = es@.take(i as int);
                assert(t.drop_last() == es@.take(i - 1));
                assert(t.last() == es@[i - 1]);
            }
            return Some(&e.2);
        }
        i = i - 1;
    }
    proof {
        lemma_map_of_tail(es@, 0, key);
        assert(es@.take(0) == Seq::<(KeyModifiers, KeyCode, Action)>::empty());
    }
    None
}

/// `m2` binds `k` as `m1` does.
pub open spec fn agrees_at(m1: Map<(KeyModifiers, KeyCode), ActionV>, m2: Map<(KeyModifiers, KeyCode), ActionV>, k: (KeyModifiers, KeyCode)) -> bool {
    m2.contains_key(k) && m2[k] == m1[k]
}

/// Whether two lists of entries bind the same keys to the same actions.
fn same_entries(a: &Vec<(KeyModifiers, KeyCode, Action)>, b: &Vec<(KeyModifiers, KeyCode, Action)>) -> (r: bool)
    ensures
        r == (map_of(a@) == map_of(b@)),
{
    let mut i: usize = 0;
    while i < a.len()
        invariant
            i <= a@.len(),
            forall|q: int| 0 <= q < i ==> agrees_at(map_of(a@), map_of(b@), #[trigger] entry_key(a@[q])),
        decreases a.len() - i,
    {
        let key = (a[i].0, a[i].1);
        proof {
            lemma_map_of_has(a@, i as int);
        }
        let mine = find_binding(a, key);
        let theirs = find_binding(b, key);
        assert(entry_key(a@[i as int]) == key);
        let x = match mine {
            Some(x) => x,
            None => {
                return false;
            },
        };
        let y = match theirs {
            Some(y) => y,
            None => {
                return false;
            },
        };
        if !x.same_as(y) {
            return false;
        }
        assert(agrees_at(map_of(a@), map_of(b@), entry_key(a@[i as int])));
        i = i + 1;
    }
    let mut j: usize = 0;
    while j < b.len()
        invariant
            j <= b@.len(),
            forall|q: int| 0 <= q < j ==> #[trigger] map_of(a@).contains_key(entry_key(b@[q])),
        decreases b.len() - j,
    {
        let key = (b[j].0, b[j].1);
        proof {
            lemma_map_of_has(b@, j as int);
        }
        assert(entry_key(b@[j as int]) == key);
        if find_binding(a, key).is_none() {
            return false;
        }
        j = j + 1;
    }
    proof {
        assert forall|k: (KeyModifiers, KeyCode)| #[trigger] map_of(a@).contains_key(k) implies map_of(b@).contains_key(k)
            && map_of(b@)[k] == map_of(a@)[k] by {
            lemma_map_of_key(a@, k);
            let q = choose|q: int| 0 <= q < a@.len() && entry_key(#[trigger] a@[q]) == k;
            assert(agrees_at(map_of(a@), map_of(b@), entry_key(a@[q])));
        }
        assert forall|k: (KeyModifiers, KeyCode)| #[trigger] map_of(b@).contains_key(k) implies map_of(a@).contains_key(k) by {
            lemma_map_of_key(b@, k);
            let q = choose|q: int| 0 <= q < b@.len() && entry_key(#[trigger] b@[q]) == k;
            assert(map_of(a@).contains_key(entry_key(b@[q])));
        }
        assert(map_of(a@) =~= map_of(b@));
    }
    true
}

impl PartialEq for KeyMap {
    /// Two key maps are equal when they bind the same keys to the same
    /// actions, whatever the order of their entries.
    fn eq(&self, other: &Self) -> (r: bool) {
        same_entries(&self.entries, &other.entries)
    }
}

impl vstd::std_specs::cmp::PartialEqSpecImpl for KeyMap {
    open spec fn obeys_eq_spec() -> bool {
        true
    }

    open spec fn eq_spec(&self, other: &Self) -> bool {
        self@ == other@
    }
}

proof fn lemma_map_of_len(es: Seq<(KeyModifiers, KeyCode, Action)>)
    requires
        keys_unique(es),
    ensures
        map_of(es).dom().finite(),
        map_of(es).len() == es.len(),
    decreases es.len(),
{
    if es.len() > 0 {
        let d = es.drop_last();
        assert(keys_unique(d)) by {
            assert forall|a: int, b: int| 0 <= a < b < d.len() implies entry_key(#[trigger] d[a]) != entry_key(#[trigger] d[b]) by {
                assert(d[a] == es[a] && d[b] == es[b]);
            }
        }
        lemma_map_of_len(d);
        if map_of(d).contains_key(entry_key(es.last())) {
            lemma_map_of_key(d, entry_key(es.last()));
            let i = choose|i: int| 0 <= i < d.len() && entry_key(#[trigger] d[i]) == entry_key(es.last());
            assert(d[i] == es[i]);
            assert(entry_key(es[i]) != entry_key(es[es.len() - 1]));
        }
    }
}


// ---------------------------------------------------------------------------
// The key configuration
// ---------------------------------------------------------------------------

/// The key bindings of each mode and pane.
#[derive(Debug, PartialEq)]
pub struct KeyConfig {
    pub normal: KeyMap,
    pub normal_main: KeyMap,
    pub normal_sidebar: KeyMap,
    pub search: KeyMap,
    pub focus: KeyMap,
    pub filter: KeyMap,
    pub input: KeyMap,
    pub confirm: KeyMap,
    pub move_to_list: KeyMap,
    pub context_switch: KeyMap,
}

impl KeyConfig {
    pub open spec fn wf(&self) -> bool {
        &&& self.normal.wf()
        &&& self.normal_main.wf()
        &&& self.normal_sidebar.wf()
        &&& self.search.wf()
        &&& self.focus.wf()
        &&& self.filter.wf()
        &&& self.input.wf()
        &&& self.confirm.wf()
        &&& self.move_to_list.wf()
        &&& self.context_switch.wf()
    }
}

/// The default bindings of the `normal` section.
pub open spec fn default_normal() -> Map<(KeyModifiers, KeyCode), ActionV> {
    Map::empty()
        .insert((KeyModifiers::alt(), KeyCode::Char('Q')), ActionV::Quit)
        .insert((KeyModifiers::alt(), KeyCode::Char('q')), ActionV::Quit)
        .insert((KeyModifiers::control(), KeyCode::Char('c')), ActionV::Quit)
        .insert((KeyModifiers::none(), KeyCode::Tab), ActionV::TogglePane)
        .insert((KeyModifiers::none(), KeyCode::Up), ActionV::MoveUp)
        .insert((KeyModifiers::none(), KeyCode::Down), ActionV::MoveDown)
        .insert((KeyModifiers::alt(), KeyCode::Char('U')), ActionV::Undo)
        .insert((KeyModifiers::alt(), KeyCode::Char('u')), ActionV::Undo)
        .insert((KeyModifiers::control(), KeyCode::Char('z')), ActionV::Undo)
        .insert((KeyModifiers::control(), KeyCode::Char('y')), ActionV::Redo)
        .insert((KeyModifiers::control(), KeyCode::Char('d')), ActionV::PageDown)
        .insert((KeyModifiers::control(), KeyCode::Char('u')), ActionV::PageUp)
        .insert((KeyModifiers::none(), KeyCode::Home), ActionV::JumpToFirst)
        .insert((KeyModifiers::none(), KeyCode::End), ActionV::JumpToLast)
        .insert((KeyModifiers::alt(), KeyCode::Char('c')), ActionV::SwitchContext)
}

/// The default bindings of the `normal_main` section.
pub open spec fn default_normal_main() -> Map<(KeyModifiers, KeyCode), ActionV> {
    Map::empty()
        .insert((KeyModifiers::alt(), KeyCode::Enter), ActionV::ToggleDone)
        .insert((KeyModifiers::none(), KeyCode::Enter), ActionV::EditItem)
        .insert((KeyModifiers::alt(), KeyCode::Char('t')), ActionV::EditTags)
        .insert((KeyModifiers::alt(), KeyCode::Char('X')), ActionV::ToggleSelect)
        .insert((KeyModifiers::alt(), KeyCode::Char('x')), ActionV::ToggleSelect)
        .insert((KeyModifiers::none(), KeyCode::Delete), ActionV::Delete)
        .insert((KeyModifiers::none(), KeyCode::Backspace), ActionV::Delete)
        .insert((KeyModifiers::alt(), KeyCode::Char('M')), ActionV::MoveToList)
        .insert((KeyModifiers::alt(), KeyCode::Char('m')), ActionV::MoveToList)
        .insert((KeyModifiers::shift(), KeyCode::Up), ActionV::MoveItemUp)
        .insert((KeyModifiers::alt(), KeyCode::Up), ActionV::MoveItemUp)
        .insert((KeyModifiers::shift(), KeyCode::Down), ActionV::MoveItemDown)
        .insert((KeyModifiers::alt(), KeyCode::Down), ActionV::MoveItemDown)
        .insert((KeyModifiers::alt().spec_union(KeyModifiers::super_key()), KeyCode::Up), ActionV::MoveItemToTop)
        .insert((KeyModifiers::alt().spec_union(KeyModifiers::super_key()), KeyCode::Down), ActionV::MoveItemToBottom)
        .insert((KeyModifiers::alt(), KeyCode::Char('D')), ActionV::ToggleShowDone)
        .insert((KeyModifiers::alt().spec_union(KeyModifiers::shift()), KeyCode::Char('D')), ActionV::ToggleShowDone)
        .insert((KeyModifiers::alt(), KeyCode::Char('f')), ActionV::StartFocus)
        .insert((KeyModifiers::alt(), KeyCode::Char('F')), ActionV::StartFilter)
        .insert((KeyModifiers::alt().spec_union(KeyModifiers::shift()), KeyCode::Char('F')), ActionV::StartFilter)
        .insert((KeyModifiers::alt(), KeyCode::Char('T')), ActionV::EditTime)
        .insert((KeyModifiers::alt().spec_union(KeyModifiers::shift()), KeyCode::Char('T')), ActionV::EditTime)
        .insert((KeyModifiers::alt(), KeyCode::Char('a')), ActionV::StartArchive)
        .insert((KeyModifiers::none(), KeyCode::Char(' ')), ActionV::AddItem)
        .insert((KeyModifiers::none(), KeyCode::Esc), ActionV::ClearSelection)
}

/// The default bindings of the `normal_sidebar` section.
pub open spec fn default_normal_sidebar() -> Map<(KeyModifiers, KeyCode), ActionV> {
    Map::empty()
        .insert((KeyModifiers::alt(), KeyCode::Char('D')), ActionV::ToggleListType)
        .insert((KeyModifiers::alt(), KeyCode::Char('d')), ActionV::ToggleListType)
        .insert((KeyModifiers::alt(), KeyCode::Char('N')), ActionV::AddList)
        .insert((KeyModifiers::alt(), KeyCode::Char('n')), ActionV::AddList)
        .insert((KeyModifiers::none(), KeyCode::Enter), ActionV::RenameList)
        .insert((KeyModifiers::none(), KeyCode::Delete), ActionV::DeleteList)
        .insert((KeyModifiers::none(), KeyCode::Backspace), ActionV::DeleteList)
        .insert((KeyModifiers::shift(), KeyCode::Up), ActionV::MoveListUp)
        .insert((KeyModifiers::alt(), KeyCode::Up), ActionV::MoveListUp)
        .insert((KeyModifiers::shift(), KeyCode::Down), ActionV::MoveListDown)
        .insert((KeyModifiers::alt(), KeyCode::Down), ActionV::MoveListDown)
        .insert((KeyModifiers::alt().spec_union(KeyModifiers::super_key()), KeyCode::Up), ActionV::MoveListToTop)
        .insert((KeyModifiers::alt().spec_union(KeyModifiers::super_key()), KeyCode::Down), ActionV::MoveListToBottom)
}

/// The default bindings of the `search` section.
pub open spec fn default_search() -> Map<(KeyModifiers, KeyCode), ActionV> {
    Map::empty()
        .insert((KeyModifiers::none(), KeyCode::Enter), ActionV::Confirm)
        .insert((KeyModifiers::none(), KeyCode::Esc), ActionV::Cancel)
        .insert((KeyModifiers::none(), KeyCode::Up), ActionV::PrevResult)
        .insert((KeyModifiers::none(), KeyCode::Down), ActionV::NextResult)
}

/// The default bindings of the `focus` section.
pub open spec fn default_focus() -> Map<(KeyModifiers, KeyCode), ActionV> {
    Map::empty()
        .insert((KeyModifiers::none(), KeyCode::Esc), ActionV::Stop)
        .insert((KeyModifiers::none(), KeyCode::Char(' ')), ActionV::TogglePause)
}

/// The default bindings of the `filter` section.
pub open spec fn default_filter() -> Map<(KeyModifiers, KeyCode), ActionV> {
    Map::empty()
        .insert((KeyModifiers::none(), KeyCode::Enter), ActionV::Confirm)
        .insert((KeyModifiers::none(), KeyCode::Esc), ActionV::Cancel)
        .insert((KeyModifiers::none(), KeyCode::Char(' ')), ActionV::Toggle)
        .insert((KeyModifiers::none(), KeyCode::Up), ActionV::MoveUp)
        .insert((KeyModifiers::none(), KeyCode::Down), ActionV::MoveDown)
}

/// The default bindings of the `input` section.
pub open spec fn default_input() -> Map<(KeyModifiers, KeyCode), ActionV> {
    Map::empty()
        .insert((KeyModifiers::none(), KeyCode::Enter), ActionV::Confirm)
        .insert((KeyModifiers::none(), KeyCode::Esc), ActionV::Cancel)
        .insert((KeyModifiers::none(), KeyCode::Tab), ActionV::Autocomplete)
}

/// The default bindings of the `confirm` section.
pub open spec fn default_confirm() -> Map<(KeyModifiers, KeyCode), ActionV> {
    Map::empty()
        .insert((KeyModifiers::none(), KeyCode::Char('y')), ActionV::Yes)
        .insert((KeyModifiers::none(), KeyCode::Char('n')), ActionV::No)
        .insert((KeyModifiers::none(), KeyCode::Esc), ActionV::No)
}

/// The default bindings of the `move_to_list` section.
pub open spec fn default_move_to_list() -> Map<(KeyModifiers, KeyCode), ActionV> {
    Map::empty()
        .insert((KeyModifiers::none(), KeyCode::Enter), ActionV::Confirm)
        .insert((KeyModifiers::none(), KeyCode::Esc), ActionV::Cancel)
        .insert((KeyModifiers::none(), KeyCode::Up), ActionV::MoveUp)
        .insert((KeyModifiers::none(), KeyCode::Down), ActionV::MoveDown)
}

/// The default bindings of the `context_switch` section.
pub open spec fn default_context_switch() -> Map<(KeyModifiers, KeyCode), ActionV> {
    Map::empty()
        .insert((KeyModifiers::none(), KeyCode::Enter), ActionV::Confirm)
        .insert((KeyModifiers::none(), KeyCode::Esc), ActionV::Cancel)
        .insert((KeyModifiers::none(), KeyCode::Up), ActionV::MoveUp)
        .insert((KeyModifiers::none(), KeyCode::Down), ActionV::MoveDown)
}

impl KeyConfig {
    /// The built-in key bindings.
    #[verifier::spinoff_prover]
    #[verifier::rlimit(60)]
    pub fn default() -> (r: KeyConfig)
        ensures
            r.wf(),
            r.normal@ == default_normal(),
            r.normal_main@ == default_normal_main(),
            r.normal_sidebar@ == default_normal_sidebar(),
            r.search@ == default_search(),
            r.focus@ == default_focus(),
            r.filter@ == default_filter(),
            r.input@ == default_input(),
            r.confirm@ == default_confirm(),
            r.move_to_list@ == default_move_to_list(),
            r.context_switch@ == default_context_switch(),
    {
        let mut normal = KeyMap::new();
        normal.insert((KeyModifiers::alt(), KeyCode::Char('Q')), Action::Quit);
        normal.insert((KeyModifiers::alt(), KeyCode::Char('q')), Action::Quit);
        normal.insert((KeyModifiers::control(), KeyCode::Char('c')), Action::Quit);
        normal.insert((KeyModifiers::none(), KeyCode::Tab), Action::TogglePane);
        normal.insert((KeyModifiers::none(), KeyCode::Up), Action::MoveUp);
        normal.insert((KeyModifiers::none(), KeyCode::Down), Action::MoveDown);
        normal.insert((KeyModifiers::alt(), KeyCode::Char('U')), Action::Undo);
        normal.insert((KeyModifiers::alt(), KeyCode::Char('u')), Action::Undo);
        normal.insert((KeyModifiers::control(), KeyCode::Char('z')), Action::Undo);
        normal.insert((KeyModifiers::control(), KeyCode::Char('y')), Action::Redo);
        normal.insert((KeyModifiers::control(), KeyCode::Char('d')), Action::PageDown);
        normal.insert((KeyModifiers::control(), KeyCode::Char('u')), Action::PageUp);
        normal.insert((KeyModifiers::none(), KeyCode::Home), Action::JumpToFirst);
        normal.insert((KeyModifiers::none(), KeyCode::End), Action::JumpToLast);
        normal.insert((KeyModifiers::alt(), KeyCode::Char('c')), Action::SwitchContext);
        let mut normal_main = KeyMap::new();
        normal_main.insert((KeyModifiers::alt(), KeyCode::Enter), Action::ToggleDone);
        normal_main.insert((KeyModifiers::none(), KeyCode::Enter), Action::EditItem);
        normal_main.insert((KeyModifiers::alt(), KeyCode::Char('t')), Action::EditTags);
        normal_main.insert((KeyModifiers::alt(), KeyCode::Char('X')), Action::ToggleSelect);
        normal_main.insert((KeyModifiers::alt(), KeyCode::Char('x')), Action::ToggleSelect);
        normal_main.insert((KeyModifiers::none(), KeyCode::Delete), Action::Delete);
        normal_main.insert((KeyModifiers::none(), KeyCode::Backspace), Action::Delete);
        normal_main.insert((KeyModifiers::alt(), KeyCode::Char('M')), Action::MoveToList);
        normal_main.insert((KeyModifiers::alt(), KeyCode::Char('m')), Action::MoveToList);
        normal_main.insert((KeyModifiers::shift(), KeyCode::Up), Action::MoveItemUp);
        normal_main.insert((KeyModifiers::alt(), KeyCode::Up), Action::MoveItemUp);
        normal_main.insert((KeyModifiers::shift(), KeyCode::Down), Action::MoveItemDown);
        normal_main.insert((KeyModifiers::alt(), KeyCode::Down), Action::MoveItemDown);
        normal_main.insert((KeyModifiers::alt().union(KeyModifiers::super_key()), KeyCode::Up), Action::MoveItemToTop);
        normal_main.insert((KeyModifiers::alt().union(KeyModifiers::super_key()), KeyCode::Down), Action::MoveItemToBottom);
        normal_main.insert((KeyModifiers::alt(), KeyCode::Char('D')), Action::ToggleShowDone);
        normal_main.insert((KeyModifiers::alt().union(KeyModifiers::shift()), KeyCode::Char('D')), Action::ToggleShowDone);
        normal_main.insert((KeyModifiers::alt(), KeyCode::Char('f')), Action::StartFocus);
        normal_main.insert((KeyModifiers::alt(), KeyCode::Char('F')), Action::StartFilter);
        normal_main.insert((KeyModifiers::alt().union(KeyModifiers::shift()), KeyCode::Char('F')), Action::StartFilter);
        normal_main.insert((KeyModifiers::alt(), KeyCode::Char('T')), Action::EditTime);
        normal_main.insert((KeyModifiers::alt().union(KeyModifiers::shift()), KeyCode::Char('T')), Action::EditTime);
        normal_main.insert((KeyModifiers::alt(), KeyCode::Char('a')), Action::StartArchive);
        normal_main.insert((KeyModifiers::none(), KeyCode::Char(' ')), Action::AddItem);
        normal_main.insert((KeyModifiers::none(), KeyCode::Esc), Action::ClearSelection);
        let mut normal_sidebar = KeyMap::new();
        normal_sidebar.insert((KeyModifiers::alt(), KeyCode::Char('D')), Action::ToggleListType);
        normal_sidebar.insert((KeyModifiers::alt(), KeyCode::Char('d')), Action::ToggleListType);
        normal_sidebar.insert((KeyModifiers::alt(), KeyCode::Char('N')), Action::AddList);
        normal_sidebar.insert((KeyModifiers::alt(), KeyCode::Char('n')), Action::AddList);
        normal_sidebar.insert((KeyModifiers::none(), KeyCode::Enter), Action::RenameList);
        normal_sidebar.insert((KeyModifiers::none(), KeyCode::Delete), Action::DeleteList);
        normal_sidebar.insert((KeyModifiers::none(), KeyCode::Backspace), Action::DeleteList);
        normal_sidebar.insert((KeyModifiers::shift(), KeyCode::Up), Action::MoveListUp);
        normal_sidebar.insert((KeyModifiers::alt(), KeyCode::Up), Action::MoveListUp);
        normal_sidebar.insert((KeyModifiers::shift(), KeyCode::Down), Action::MoveListDown);
        normal_sidebar.insert((KeyModifiers::alt(), KeyCode::Down), Action::MoveListDown);
        normal_sidebar.insert((KeyModifiers::alt().union(KeyModifiers::super_key()), KeyCode::Up), Action::MoveListToTop);
        normal_sidebar.insert((KeyModifiers::alt().union(KeyModifiers::super_key()), KeyCode::Down), Action::MoveListToBottom);
        let mut search = KeyMap::new();
        search.insert((KeyModifiers::none(), KeyCode::Enter), Action::Confirm);
        search.insert((KeyModifiers::none(), KeyCode::Esc), Action::Cancel);
        search.insert((KeyModifiers::none(), KeyCode::Up), Action::PrevResult);
        search.insert((KeyModifiers::none(), KeyCode::Down), Action::NextResult);
        let mut focus = KeyMap::new();
        focus.insert((KeyModifiers::none(), KeyCode::Esc), Action::Stop);
        focus.insert((KeyModifiers::none(), KeyCode::Char(' ')), Action::TogglePause);
        let mut filter = KeyMap::new();
        filter.insert((KeyModifiers::none(), KeyCode::Enter), Action::Confirm);
        filter.insert((KeyModifiers::none(), KeyCode::Esc), Action::Cancel);
        filter.insert((KeyModifiers::none(), KeyCode::Char(' ')), Action::Toggle);
        filter.insert((KeyModifiers::none(), KeyCode::Up), Action::MoveUp);
        filter.insert((KeyModifiers::none(), KeyCode::Down), Action::MoveDown);
        let mut input = KeyMap::new();
        input.insert((KeyModifiers::none(), KeyCode::Enter), Action::Confirm);
        input.insert((KeyModifiers::none(), KeyCode::Esc), Action::Cancel);
        input.insert((KeyModifiers::none(), KeyCode::Tab), Action::Autocomplete);
        let mut confirm = KeyMap::new();
        confirm.insert((KeyModifiers::none(), KeyCode::Char('y')), Action::Yes);
        confirm.insert((KeyModifiers::none(), KeyCode::Char('n')), Action::No);
        confirm.insert((KeyModifiers::none(), KeyCode::Esc), Action::No);
        let mut move_to_list = KeyMap::new();
        move_to_list.insert((KeyModifiers::none(), KeyCode::Enter), Action::Confirm);
        move_to_list.insert((KeyModifiers::none(), KeyCode::Esc), Action::Cancel);
        move_to_list.insert((KeyModifiers::none(), KeyCode::Up), Action::MoveUp);
        move_to_list.insert((KeyModifiers::none(), KeyCode::Down), Action::MoveDown);
        let mut context_switch = KeyMap::new();
        context_switch.insert((KeyModifiers::none(), KeyCode::Enter), Action::Confirm);
        context_switch.insert((KeyModifiers::none(), KeyCode::Esc), Action::Cancel);
        context_switch.insert((KeyModifiers::none(), KeyCode::Up), Action::MoveUp);
        context_switch.insert((KeyModifiers::none(), KeyCode::Down), Action::MoveDown);
        assert(normal@ == default_normal());
        assert(normal_main@ == default_normal_main());
        assert(normal_sidebar@ == default_normal_sidebar());
        assert(search@ == default_search());
        assert(focus@ == default_focus());
        assert(filter@ == default_filter());
        assert(input@ == default_input());
        assert(confirm@ == default_confirm());
        assert(move_to_list@ == default_move_to_list());
        assert(context_switch@ == default_context_switch());
        KeyConfig {
            normal,
            normal_main,
            normal_sidebar,
            search,
            focus,
            filter,
            input,
            confirm,
            move_to_list,
            context_switch,
        }
    }
}


// ---------------------------------------------------------------------------
// Key names such as `alt+enter`
// ---------------------------------------------------------------------------

/// The modifier that a (lowercased) configuration name names.
pub open spec fn modifier_named(name: Seq<char>) -> Option<KeyModifiers> {
    if name == "alt"@ {
        Some(KeyModifiers::spec_alt())
    } else if name == "ctrl"@ {
        Some(KeyModifiers::spec_control())
    } else if name == "shift"@ {
        Some(KeyModifiers::spec_shift())
    } else if name == "super"@ {
        Some(KeyModifiers::spec_super_key())
    } else {
        None
    }
}

/// The modifiers that the given names, each taken in lowercase, add up to;
/// `None` when one of them names no modifier.
pub open spec fn modifiers_named(parts: Seq<Seq<char>>) -> Option<KeyModifiers>
    decreases parts.len(),
{
    if parts.len() == 0 {
        Some(KeyModifiers::spec_none())
    } else {
        match modifiers_named(parts.drop_last()) {
            None => None,
            Some(m) => match modifier_named(lowercase(parts.last())) {
                Some(x) => Some(m.spec_union(x)),
                None => None,
            },
        }
    }
}

/// The key that a configuration key name names: a named key, or a single
/// ASCII letter or digit.
pub open spec fn key_named(p: Seq<char>) -> Option<KeyCode> {
    if p == "enter"@ || p == "Enter"@ {
        Some(KeyCode::Enter)
    } else if p == "space"@ || p == "Space"@ {
        Some(KeyCode::Char(' '))
    } else if p == "tab"@ || p == "Tab"@ {
        Some(KeyCode::Tab)
    } else if p == "esc"@ || p == "Esc"@ {
        Some(KeyCode::Esc)
    } else if p == "up"@ || p == "Up"@ {
        Some(KeyCode::Up)
    } else if p == "down"@ || p == "Down"@ {
        Some(KeyCode::Down)
    } else if p == "left"@ || p == "Left"@ {
        Some(KeyCode::Left)
    } else if p == "right"@ || p == "Right"@ {
        Some(KeyCode::Right)
    } else if p == "home"@ || p == "Home"@ {
        Some(KeyCode::Home)
    } else if p == "end"@ || p == "End"@ {
        Some(KeyCode::End)
    } else if p == "delete"@ || p == "Delete"@ {
        Some(KeyCode::Delete)
    } else if p == "backspace"@ || p == "Backspace"@ {
        Some(KeyCode::Backspace)
    } else if p.len() == 1 && is_ascii_alnum(p[0]) {
        Some(KeyCode::Char(p[0]))
    } else {
        None
    }
}

/// The key that a configuration name such as `alt+shift+up` denotes: the
/// pieces between `+` signs before the last are modifiers (in any case), the
/// last is the key.
pub open spec fn parse_key_spec(input: Seq<char>) -> Option<(KeyModifiers, KeyCode)> {
    let parts = split_on(input, '+');
    match modifiers_named(parts.drop_last()) {
        None => None,
        Some(m) => match key_named(parts.last()) {
            Some(k) => Some((m, k)),
            None => None,
        },
    }
}

fn modifier_from_name(name: &Vec<char>) -> (r: Option<KeyModifiers>)
    ensures
        r == modifier_named(name@),
{
    if chars_eq_str(name, "alt") {
        Some(KeyModifiers::alt())
    } else if chars_eq_str(name, "ctrl") {
        Some(KeyModifiers::control())
    } else if chars_eq_str(name, "shift") {
        Some(KeyModifiers::shift())
    } else if chars_eq_str(name, "super") {
        Some(KeyModifiers::super_key())
    } else {
        None
    }
}

fn key_from_name(p: &Vec<char>) -> (r: Option<KeyCode>)
    ensures
        r == key_named(p@),
{
    if chars_eq_str(p, "enter") || chars_eq_str(p, "Enter") {
        Some(KeyCode::Enter)
    } else if chars_eq_str(p, "space") || chars_eq_str(p, "Space") {
        Some(KeyCode::Char(' '))
    } else if chars_eq_str(p, "tab") || chars_eq_str(p, "Tab") {
        Some(KeyCode::Tab)
    } else if chars_eq_str(p, "esc") || chars_eq_str(p, "Esc") {
        Some(KeyCode::Esc)
    } else if chars_eq_str(p, "up") || chars_eq_str(p, "Up") {
        Some(KeyCode::Up)
    } else if chars_eq_str(p, "down") || chars_eq_str(p, "Down") {
        Some(KeyCode::Down)
    } else if chars_eq_str(p, "left") || chars_eq_str(p, "Left") {
        Some(KeyCode::Left)
    } else if chars_eq_str(p, "right") || chars_eq_str(p, "Right") {
        Some(KeyCode::Right)
    } else if chars_eq_str(p, "home") || chars_eq_str(p, "Home") {
        Some(KeyCode::Home)
    } else if chars_eq_str(p, "end") || chars_eq_str(p, "End") {
        Some(KeyCode::End)
    } else if chars_eq_str(p, "delete") || chars_eq_str(p, "Delete") {
        Some(KeyCode::Delete)
    } else if chars_eq_str(p, "backspace") || chars_eq_str(p, "Backspace") {
        Some(KeyCode::Backspace)
    } else if p.len() == 1 && (('a' <= p[0] && p[0] <= 'z') || ('A' <= p[0] && p[0] <= 'Z') || ('0' <= p[0] && p[0] <= '9')) {
        Some(KeyCode::Char(p[0]))
    } else {
        None
    }
}

/// Reads a key name from the configuration file, such as `ctrl+d`,
/// `alt+super+up` or `space`.
pub fn parse_key(input: &str) -> (r: Option<(KeyModifiers, KeyCode)>)
    ensures
        r == parse_key_spec(input@),
{
    let v = chars_of(input);
    let parts = split_chars(&v, '+');
    let n = parts.len();
    let mut modifiers = KeyModifiers::none();
    let mut i: usize = 0;
    while i < n - 1
        invariant
            n == parts.len() > 0,
            v@ == input@,
            i <= n - 1,
            views(parts@) == split_on(v@, '+'),
            modifiers_named(views(parts@).take(i as int)) == Some(modifiers),
        decreases n - 1 - i,
    {
        assert(views(parts@).take(i + 1).drop_last() == views(parts@).take(i as int));
        assert(views(parts@).take(i + 1).last() == parts@[i as int]@);
        let lower = lowercase_chars(&parts[i]);
        match modifier_from_name(&lower) {
            Some(m) => {
                modifiers = modifiers.union(m);
            },
            None => {
                proof {
                    assert(modifier_named(lowercase(views(parts@).take(i + 1).last())) is None);
                    assert(modifiers_named(views(parts@).take(i + 1)) is None);
                    assert(views(parts@).drop_last().take(i + 1) == views(parts@).take(i + 1));
                    lemma_modifiers_none(views(parts@).drop_last(), i as int + 1);
                    assert(views(parts@).drop_last().take(i + 1) == views(parts@).take(i + 1));
                }
                return None;
            },
        }
        i = i + 1;
    }
    assert(views(parts@).take(n - 1) == views(parts@).drop_last());
    assert(views(parts@).last() == parts@[n - 1]@);
    match key_from_name(&parts[n - 1]) {
        Some(k) => Some((modifiers, k)),
        None => None,
    }
}

proof fn lemma_modifiers_none(parts: Seq<Seq<char>>, i: int)
    requires
        0 <= i <= parts.len(),
        modifiers_named(parts.take(i)) is None,
    ensures
        modifiers_named(parts) is None,
    decreases parts.len() - i,
{
    if i == parts.len() {
        assert(parts.take(i) == parts);
    } else {
        assert(parts.take(i + 1).drop_last() == parts.take(i));
        lemma_modifiers_none(parts, i + 1);
    }
}


// ---------------------------------------------------------------------------
// Showing keys
// ---------------------------------------------------------------------------

/// What `char::is_uppercase` returns: whether `c` has the Unicode
/// `Uppercase` property.
pub uninterp spec fn uppercase_char(c: char) -> bool;

/// Calls `char::is_uppercase`; its result is named by `uppercase_char`.
#[verifier::external_body]
fn is_uppercase(c: char) -> (b: bool)
    ensures
        b == uppercase_char(c),
{
    c.is_uppercase()
}

/// What `char::to_uppercase` yields, as text: the Unicode uppercase mapping
/// of `c`, which may be more than one character.
pub uninterp spec fn uppercase_text(c: char) -> Seq<char>;

/// Calls `char::to_uppercase`; its result, as text, is named by
/// `uppercase_text`.
#[verifier::external_body]
fn to_uppercase_text(c: char) -> (r: String)
    ensures
        r@ == uppercase_text(c),
{
    c.to_uppercase().to_string()
}

/// Whether a `Shift` is shown before the key's label, and the label.
pub open spec fn key_label(m: KeyModifiers, code: KeyCode) -> (bool, Seq<char>) {
    match code {
        KeyCode::Char(c) => if c == ' ' {
            (false, "Space"@)
        } else if uppercase_char(c) {
            (!m.shift, seq![c])
        } else {
            (false, uppercase_text(c))
        },
        KeyCode::Enter => (false, "Enter"@),
        KeyCode::Tab => (false, "Tab"@),
        KeyCode::Esc => (false, "Esc"@),
        KeyCode::Up => (m.shift, "\u{2191}"@),
        KeyCode::Down => (m.shift, "\u{2193}"@),
        KeyCode::Left => (m.shift, "\u{2190}"@),
        KeyCode::Right => (m.shift, "\u{2192}"@),
        KeyCode::Home => (false, "Home"@),
        KeyCode::End => (false, "End"@),
        KeyCode::Delete => (false, "Del"@),
        KeyCode::Backspace => (false, "Backspace"@),
        KeyCode::PageUp => (false, "PageUp"@),
        KeyCode::PageDown => (false, "PageDown"@),
        KeyCode::BackTab => (false, "BackTab"@),
        KeyCode::Insert => (false, "Insert"@),
        KeyCode::F(n) => (false, "F("@ + decimal(n as nat) + ")"@),
        KeyCode::Null => (false, "Null"@),
        KeyCode::Other => (false, "Other"@),
    }
}

/// The pieces of a key's display: `Ctrl`, `Alt`, `Super` and `Shift` as
/// held, then the key's label.
pub open spec fn key_parts(m: KeyModifiers, code: KeyCode) -> Seq<Seq<char>> {
    (if m.control { seq!["Ctrl"@] } else { seq![] }) + (if m.alt { seq!["Alt"@] } else { seq![] })
        + (if m.super_ { seq!["Super"@] } else { seq![] }) + (if key_label(m, code).0 {
        seq!["Shift"@]
    } else {
        seq![]
    }) + seq![key_label(m, code).1]
}

/// How a key is shown to the user, such as `Ctrl+Alt+X` or `Shift+\u{2191}`.
pub open spec fn display_text(m: KeyModifiers, code: KeyCode) -> Seq<char> {
    join(key_parts(m, code), "+"@)
}

fn push_part(parts: &mut Vec<Vec<char>>, s: &str)
    ensures
        views(final(parts)@) == views(old(parts)@).push(s@),
{
    let v = chars_of(s);
    parts.push(v);
    assert(views(final(parts)@) == views(old(parts)@).push(s@));
}

fn key_label_exec(m: KeyModifiers, code: KeyCode) -> (r: (bool, Vec<char>))
    ensures
        r.0 == key_label(m, code).0,
        r.1@ == key_label(m, code).1,
{
    match code {
        KeyCode::Char(c) => if c == ' ' {
            (false, chars_of("Space"))
        } else if is_uppercase(c) {
            let mut v: Vec<char> = Vec::new();
            v.push(c);
            (!m.shift, v)
        } else {
            let u = to_uppercase_text(c);
            (false, chars_of(u.as_str()))
        },
        KeyCode::Enter => (false, chars_of("Enter")),
        KeyCode::Tab => (false, chars_of("Tab")),
        KeyCode::Esc => (false, chars_of("Esc")),
        KeyCode::Up => (m.shift, chars_of("\u{2191}")),
        KeyCode::Down => (m.shift, chars_of("\u{2193}")),
        KeyCode::Left => (m.shift, chars_of("\u{2190}")),
        KeyCode::Right => (m.shift, chars_of("\u{2192}")),
        KeyCode::Home => (false, chars_of("Home")),
        KeyCode::End => (false, chars_of("End")),
        KeyCode::Delete => (false, chars_of("Del")),
        KeyCode::Backspace => (false, chars_of("Backspace")),
        KeyCode::PageUp => (false, chars_of("PageUp")),
        KeyCode::PageDown => (false, chars_of("PageDown")),
        KeyCode::BackTab => (false, chars_of("BackTab")),
        KeyCode::Insert => (false, chars_of("Insert")),
        KeyCode::F(n) => {
            let mut v = chars_of("F(");
            let d = decimal_chars(n as u64);
            push_all(&mut v, &d);
            push_str(&mut v, ")");
            (false, v)
        },
        KeyCode::Null => (false, chars_of("Null")),
        KeyCode::Other => (false, chars_of("Other")),
    }
}

/// How a key is shown to the user, such as `Ctrl+Alt+X` or `Shift+\u{2191}`.
pub fn format_key_display(m: KeyModifiers, code: KeyCode) -> (r: String)
    ensures
        r@ == display_text(m, code),
{
    let mut parts: Vec<Vec<char>> = Vec::new();
    if m.control {
        push_part(&mut parts, "Ctrl");
    }
    if m.alt {
        push_part(&mut parts, "Alt");
    }
    if m.super_ {
        push_part(&mut parts, "Super");
    }
    let (add_shift, label) = key_label_exec(m, code);
    if add_shift {
        push_part(&mut parts, "Shift");
    }
    let ghost before = views(parts@);
    parts.push(label);
    assert(views(parts@) == before.push(key_label(m, code).1));
    assert(views(parts@) == key_parts(m, code));
    let sep = chars_of("+");
    let out = join_chars(&parts, &sep);
    string_of(out.as_slice())
}


// ---------------------------------------------------------------------------
// The configuration file
// ---------------------------------------------------------------------------

/// A value of a TOML document, as far as the key configuration reads it.
pub enum TomlValue {
    String(String),
    Table(Vec<(String, TomlValue)>),
    Other,
}

/// `toml::Value`, carried through without being looked into.
#[verifier::external_type_specification]
#[verifier::external_body]
pub struct ExTomlValue(toml::Value);

/// What the `toml` crate parses a text into, as a table (`str::parse` into
/// `toml::Table`), turned one for one into a `TomlValue`: strings and tables
/// kept, every other value `Other`; `None` where the text is no TOML.
pub uninterp spec fn toml_doc(text: Seq<char>) -> Option<TomlValue>;

/// Parses `text` with `toml` (`str::parse::<toml::Table>`); its result is
/// named by `toml_doc`.
#[verifier::external_body]
fn parse_toml(text: &str) -> (r: Option<TomlValue>)
    ensures
        r == toml_doc(text@),
{
    match text.parse::<toml::Table>() {
        Ok(t) => Some(TomlValue::Table(t.iter().map(|(k, v)| (k.clone(), toml_value(v))).collect())),
        Err(_) => None,
    }
}

/// Turns a parsed `toml::Value` into a `TomlValue`, one for one; the
/// conversion of `parse_toml`'s result.
#[verifier::external_body]
fn toml_value(v: &toml::Value) -> TomlValue {
    match v {
        toml::Value::String(s) => TomlValue::String(s.clone()),
        toml::Value::Table(t) => TomlValue::Table(t.iter().map(|(k, x)| (k.clone(), toml_value(x))).collect()),
        _ => TomlValue::Other,
    }
}

/// The value under `key` in the entries of a table.
pub open spec fn toml_get(t: Seq<(String, TomlValue)>, key: Seq<char>) -> Option<TomlValue>
    decreases t.len(),
{
    if t.len() == 0 {
        None
    } else if t[0].0@ == key {
        Some(t[0].1)
    } else {
        toml_get(t.drop_first(), key)
    }
}

fn toml_lookup<'a>(t: &'a Vec<(String, TomlValue)>, key: &str) -> (r: Option<&'a TomlValue>)
    ensures
        match r {
            Some(v) => toml_get(t@, key@) == Some(*v),
            None => toml_get(t@, key@) is None,
        },
{
    let mut i: usize = 0;
    assert(t@.skip(0) == t@);
    while i < t.len()
        invariant
            i <= t.len(),
            toml_get(t@, key@) == toml_get(t@.skip(i as int), key@),
        decreases t.len() - i,
    {
        assert(t@.skip(i as int).drop_first() == t@.skip(i + 1));
        assert(t@.skip(i as int)[0] == t@[i as int]);
        if str_eq(t[i].0.as_str(), key) {
            return Some(&t[i].1);
        }
        i = i + 1;
    }
    None
}

/// The action that a configuration value names: an action name, or a table
/// `{ action = "toggle_tag", tag = "..." }`.
pub open spec fn toml_action(v: TomlValue) -> Option<ActionV> {
    match v {
        TomlValue::String(s) => action_named(s@),
        TomlValue::Table(t) => match toml_get(t@, "action"@) {
            Some(TomlValue::String(a)) => if a@ == "toggle_tag"@ {
                match toml_get(t@, "tag"@) {
                    Some(TomlValue::String(tag)) => Some(ActionV::ToggleTag(tag@)),
                    _ => None,
                }
            } else {
                None
            },
            _ => None,
        },
        TomlValue::Other => None,
    }
}

/// Reads the action that a configuration value names.
pub fn parse_action(value: &TomlValue) -> (r: Option<Action>)
    ensures
        opt_action_view(r) == toml_action(*value),
{
    match value {
        TomlValue::String(s) => action_from_name(s.as_str()),
        TomlValue::Table(table) => match toml_lookup(table, "action") {
            Some(TomlValue::String(a)) => if str_eq(a.as_str(), "toggle_tag") {
                match toml_lookup(table, "tag") {
                    Some(TomlValue::String(tag)) => Some(Action::ToggleTag(tag.clone())),
                    _ => None,
                }
            } else {
                None
            },
            _ => None,
        },
        TomlValue::Other => None,
    }
}

/// The bindings `m` with each entry of a section whose key name and action
/// both read added in order, a later one replacing an earlier one.
pub open spec fn merged(m: Map<(KeyModifiers, KeyCode), ActionV>, section: Seq<(String, TomlValue)>) -> Map<(KeyModifiers, KeyCode), ActionV>
    decreases section.len(),
{
    if section.len() == 0 {
        m
    } else {
        let before = merged(m, section.drop_last());
        let (k, v) = section.last();
        match (parse_key_spec(k@), toml_action(v)) {
            (Some(key), Some(a)) => before.insert(key, a),
            _ => before,
        }
    }
}

/// Adds the bindings of a configuration section to `target`.
pub fn merge_section(target: &mut KeyMap, section: &Vec<(String, TomlValue)>)
    requires
        old(target).wf(),
    ensures
        final(target).wf(),
        final(target)@ == merged(old(target)@, section@),
{
    let mut i: usize = 0;
    assert(section@.take(0) == Seq::<(String, TomlValue)>::empty());
    while i < section.len()
        invariant
            i <= section.len(),
            target.wf(),
            target@ == merged(old(target)@, section@.take(i as int)),
        decreases section.len() - i,
    {
        assert(section@.take(i + 1).drop_last() == section@.take(i as int));
        assert(section@.take(i + 1).last() == section@[i as int]);
        let key = parse_key(section[i].0.as_str());
        let action = parse_action(&section[i].1);
        match (key, action) {
            (Some(k), Some(a)) => {
                target.insert(k, a);
            },
            _ => {},
        }
        i = i + 1;
    }
    assert(section@.take(section.len() as int) == section@);
}

/// The bindings of one section of the configuration: the defaults, with the
/// section's entries merged in when the document has a `keys` table that
/// holds a table of that name.
pub open spec fn section_bindings(
    defaults: Map<(KeyModifiers, KeyCode), ActionV>,
    doc: Option<TomlValue>,
    name: Seq<char>,
) -> Map<(KeyModifiers, KeyCode), ActionV> {
    match doc {
        Some(TomlValue::Table(root)) => match toml_get(root@, "keys"@) {
            Some(TomlValue::Table(keys)) => match toml_get(keys@, name) {
                Some(TomlValue::Table(section)) => merged(defaults, section@),
                _ => defaults,
            },
            _ => defaults,
        },
        _ => defaults,
    }
}

fn merge_if_present(keymap: &mut KeyMap, keys: &Vec<(String, TomlValue)>, name: &str)
    requires
        old(keymap).wf(),
    ensures
        final(keymap).wf(),
        final(keymap)@ == match toml_get(keys@, name@) {
            Some(TomlValue::Table(section)) => merged(old(keymap)@, section@),
            _ => old(keymap)@,
        },
{
    match toml_lookup(keys, name) {
        Some(TomlValue::Table(section)) => merge_section(keymap, section),
        _ => {},
    }
}

impl KeyConfig {
    /// The key bindings that the text of a configuration file gives: its
    /// TOML document as `toml` parses it, read by `from_toml_doc`.
    pub fn from_toml(toml_str: &str) -> (r: KeyConfig)
        ensures
            r.wf(),
            r.normal@ == section_bindings(default_normal(), toml_doc(toml_str@), "normal"@),
            r.normal_main@ == section_bindings(default_normal_main(), toml_doc(toml_str@), "normal_main"@),
            r.normal_sidebar@ == section_bindings(default_normal_sidebar(), toml_doc(toml_str@), "normal_sidebar"@),
            r.search@ == section_bindings(default_search(), toml_doc(toml_str@), "search"@),
            r.focus@ == section_bindings(default_focus(), toml_doc(toml_str@), "focus"@),
            r.filter@ == section_bindings(default_filter(), toml_doc(toml_str@), "filter"@),
            r.input@ == section_bindings(default_input(), toml_doc(toml_str@), "input"@),
            r.confirm@ == section_bindings(default_confirm(), toml_doc(toml_str@), "confirm"@),
            r.move_to_list@ == section_bindings(default_move_to_list(), toml_doc(toml_str@), "move_to_list"@),
            r.context_switch@ == section_bindings(default_context_switch(), toml_doc(toml_str@), "context_switch"@),
    {
        let doc = parse_toml(toml_str);
        KeyConfig::from_toml_doc(&doc)
    }

    /// The key bindings that a configuration document gives: the defaults,
    /// with the sections under its `keys` table merged in. `None` stands for
    /// a document that did not parse.
    pub fn from_toml_doc(doc: &Option<TomlValue>) -> (r: KeyConfig)
        ensures
            r.wf(),
            r.normal@ == section_bindings(default_normal(), *doc, "normal"@),
            r.normal_main@ == section_bindings(default_normal_main(), *doc, "normal_main"@),
            r.normal_sidebar@ == section_bindings(default_normal_sidebar(), *doc, "normal_sidebar"@),
            r.search@ == section_bindings(default_search(), *doc, "search"@),
            r.focus@ == section_bindings(default_focus(), *doc, "focus"@),
            r.filter@ == section_bindings(default_filter(), *doc, "filter"@),
            r.input@ == section_bindings(default_input(), *doc, "input"@),
            r.confirm@ == section_bindings(default_confirm(), *doc, "confirm"@),
            r.move_to_list@ == section_bindings(default_move_to_list(), *doc, "move_to_list"@),
            r.context_switch@ == section_bindings(default_context_switch(), *doc, "context_switch"@),
    {
        let mut config = KeyConfig::default();
        let root = match doc {
            Some(TomlValue::Table(root)) => root,
            _ => return config,
        };
        let keys = match toml_lookup(root, "keys") {
            Some(TomlValue::Table(k)) => k,
            _ => return config,
        };
        merge_if_present(&mut config.normal, keys, "normal");
        merge_if_present(&mut config.normal_main, keys, "normal_main");
        merge_if_present(&mut config.normal_sidebar, keys, "normal_sidebar");
        merge_if_present(&mut config.search, keys, "search");
        merge_if_present(&mut config.focus, keys, "focus");
        merge_if_present(&mut config.filter, keys, "filter");
        merge_if_present(&mut config.input, keys, "input");
        merge_if_present(&mut config.confirm, keys, "confirm");
        merge_if_present(&mut config.move_to_list, keys, "move_to_list");
        merge_if_present(&mut config.context_switch, keys, "context_switch");
        config
    }
}


// ---------------------------------------------------------------------------
// Showing the bindings of an action
// ---------------------------------------------------------------------------

/// How the keys bound to `a` in any of the given bindings are shown.
pub open spec fn action_displays(maps: Seq<Map<(KeyModifiers, KeyCode), ActionV>>, a: ActionV) -> Set<Seq<char>> {
    Set::new(
        |s: Seq<char>|
            exists|j: int, k: (KeyModifiers, KeyCode)|
                0 <= j < maps.len() && #[trigger] maps[j].contains_key(k) && maps[j][k] == a && s
                    == display_text(k.0, k.1),
    )
}

pub open spec fn map_views(keymaps: Seq<&KeyMap>) -> Seq<Map<(KeyModifiers, KeyCode), ActionV>> {
    keymaps.map_values(|m: &KeyMap| m@)
}

pub open spec fn entry_displays(es: Seq<(KeyModifiers, KeyCode, Action)>, n: int, a: ActionV) -> Set<Seq<char>> {
    Set::new(
        |s: Seq<char>|
            exists|i: int| 0 <= i < n && (#[trigger] es[i]).2@ == a && s == display_text(es[i].0, es[i].1),
    )
}

proof fn lemma_entry_displays(es: Seq<(KeyModifiers, KeyCode, Action)>, a: ActionV)
    requires
        keys_unique(es),
    ensures
        entry_displays(es, es.len() as int, a) == Set::new(
            |s: Seq<char>|
                exists|k: (KeyModifiers, KeyCode)|
                    #[trigger] map_of(es).contains_key(k) && map_of(es)[k] == a && s == display_text(k.0, k.1),
        ),
{
    let m = map_of(es);
    let rhs = Set::new(
        |s: Seq<char>|
            exists|k: (KeyModifiers, KeyCode)|
                #[trigger] m.contains_key(k) && m[k] == a && s == display_text(k.0, k.1),
    );
    assert forall|s: Seq<char>| entry_displays(es, es.len() as int, a).contains(s) <==> rhs.contains(s) by {
        if entry_displays(es, es.len() as int, a).contains(s) {
            let i = choose|i: int| 0 <= i < es.len() && (#[trigger] es[i]).2@ == a && s == display_text(es[i].0, es[i].1);
            lemma_map_of_entry(es, i);
            let k = entry_key(es[i]);
            assert(m.contains_key(k) && m[k] == a && s == display_text(k.0, k.1));
        }
        if rhs.contains(s) {
            let k = choose|k: (KeyModifiers, KeyCode)| #[trigger] m.contains_key(k) && m[k] == a && s == display_text(k.0, k.1);
            lemma_map_of_key(es, k);
            let i = choose|i: int| 0 <= i < es.len() && entry_key(#[trigger] es[i]) == k;
            lemma_map_of_entry(es, i);
        }
    }
    assert(entry_displays(es, es.len() as int, a) =~= rhs);
}

pub open spec fn sep_slash() -> Seq<char> {
    " / "@
}

impl KeyConfig {
    /// How the keys bound to `action` are shown in the help: the two that
    /// come first (shorter first, then alphabetical), among all the distinct
    /// displays of keys bound to it in the given key maps, joined by ` / `;
    /// `None` when no key is bound to it.
    pub fn action_keys(&self, keymaps: &[&KeyMap], action: &Action) -> (r: Option<String>)
        requires
            forall|j: int| 0 <= j < keymaps@.len() ==> (#[trigger] keymaps@[j]).wf(),
        ensures
            r is None <==> action_displays(map_views(keymaps@), action@).is_empty(),
            r matches Some(s) ==> exists|l: Seq<Seq<char>>|
                #![trigger strings_sorted(l)]
                strings_sorted(l) && l.no_duplicates() && l.to_set() == action_displays(
                    map_views(keymaps@),
                    action@,
                ) && s@ == join(l.take(if l.len() < 2 { l.len() as int } else { 2 }), sep_slash()),
    {
        let ghost target = action_displays(map_views(keymaps@), action@);
        let mut displays: Vec<String> = Vec::new();
        let mut j: usize = 0;
        while j < keymaps.len()
            invariant
                j <= keymaps@.len(),
                forall|q: int| 0 <= q < keymaps@.len() ==> (#[trigger] keymaps@[q]).wf(),
                string_views(displays@).no_duplicates(),
                string_views(displays@).to_set() == action_displays(map_views(keymaps@).take(j as int), action@),
            decreases keymaps@.len() - j,
        {
            let km: &KeyMap = keymaps[j];
            let ghost before = string_views(displays@).to_set();
            let mut i: usize = 0;
            while i < km.entries.len()
                invariant
                    i <= km.entries.len(),
                    string_views(displays@).no_duplicates(),
                    string_views(displays@).to_set() == before + entry_displays(km.entries@, i as int, action@),
                decreases km.entries.len() - i,
            {
                let e = &km.entries[i];
                let ghost prev = string_views(displays@);
                if e.2.same_as(action) {
                    let d = format_key_display(e.0, e.1);
                    let mut found = false;
                    let mut q: usize = 0;
                    while q < displays.len()
                        invariant
                            q <= displays.len(),
                            !found ==> forall|t: int| 0 <= t < q ==> displays@[t]@ != d@,
                            found ==> prev.contains(d@),
                            string_views(displays@) == prev,
                        decreases displays.len() - q,
                    {
                        if str_eq(displays[q].as_str(), d.as_str()) {
                            found = true;
                            assert(prev[q as int] == d@);
                        }
                        q = q + 1;
                    }
                    if !found {
                        displays.push(d);
                        assert(string_views(displays@) == prev.push(d@));
                        assert(!prev.contains(d@)) by {
                            if prev.contains(d@) {
                                let t = choose|t: int| 0 <= t < prev.len() && prev[t] == d@;
                                assert(displays@[t]@ == prev[t]);
                            }
                        }
                        assert(prev.push(d@).to_set() == prev.to_set().insert(d@)) by {
                            lemma_push_to_set(prev, d@);
                        }
                    }
                }
                assert(string_views(displays@).to_set() == before + entry_displays(km.entries@, i + 1, action@)) by {
                    let es = km.entries@;
                    assert forall|s: Seq<char>| entry_displays(es, i + 1, action@).contains(s) <==> (entry_displays(es, i as int, action@).contains(s) || (es[i as int].2@ == action@ && s == display_text(es[i as int].0, es[i as int].1))) by {
                        if entry_displays(es, i + 1, action@).contains(s) {
                            let t = choose|t: int| 0 <= t < i + 1 && (#[trigger] es[t]).2@ == action@ && s == display_text(es[t].0, es[t].1);
                            if t < i {
                                assert(entry_displays(es, i as int, action@).contains(s));
                            }
                        }
                        if entry_displays(es, i as int, action@).contains(s) {
                            let t = choose|t: int| 0 <= t < i && (#[trigger] es[t]).2@ == action@ && s == display_text(es[t].0, es[t].1);
                            assert(entry_displays(es, i + 1, action@).contains(s));
                        }
                        if es[i as int].2@ == action@ && s == display_text(es[i as int].0, es[i as int].1) {
                            assert(entry_displays(es, i + 1, action@).contains(s));
                        }
                    }
                    assert(string_views(displays@).to_set() =~= before + entry_displays(km.entries@, i + 1, action@));
                }
                i = i + 1;
            }
            proof {
                lemma_entry_displays(km.entries@, action@);
                let mv = map_views(keymaps@);
                assert(mv.take(j + 1) == mv.take(j as int).push(km@));
                assert(action_displays(mv.take(j + 1), action@) =~= action_displays(mv.take(j as int), action@) + entry_displays(km.entries@, km.entries@.len() as int, action@)) by {
                    assert forall|s: Seq<char>| action_displays(mv.take(j + 1), action@).contains(s) implies (action_displays(mv.take(j as int), action@) + entry_displays(km.entries@, km.entries@.len() as int, action@)).contains(s) by {
                        let (t, k) = choose|t: int, k: (KeyModifiers, KeyCode)| 0 <= t < mv.take(j + 1).len() && #[trigger] mv.take(j + 1)[t].contains_key(k) && mv.take(j + 1)[t][k] == action@ && s == display_text(k.0, k.1);
                        if t < j {
                            assert(mv.take(j as int)[t] == mv.take(j + 1)[t]);
                        } else {
                            assert(mv.take(j + 1)[t] == km@);
                        }
                    }
                    assert forall|s: Seq<char>| (action_displays(mv.take(j as int), action@) + entry_displays(km.entries@, km.entries@.len() as int, action@)).contains(s) implies action_displays(mv.take(j + 1), action@).contains(s) by {
                        if action_displays(mv.take(j as int), action@).contains(s) {
                            let (t, k) = choose|t: int, k: (KeyModifiers, KeyCode)| 0 <= t < mv.take(j as int).len() && #[trigger] mv.take(j as int)[t].contains_key(k) && mv.take(j as int)[t][k] == action@ && s == display_text(k.0, k.1);
                            assert(mv.take(j + 1)[t] == mv.take(j as int)[t]);
                        } else {
                            let k = choose|k: (KeyModifiers, KeyCode)| #[trigger] km@.contains_key(k) && km@[k] == action@ && s == display_text(k.0, k.1);
                            assert(mv.take(j + 1)[j as int] == km@);
                        }
                    }
                }
            }
            j = j + 1;
        }
        assert(map_views(keymaps@).take(keymaps@.len() as int) == map_views(keymaps@));
        let sorted = sort_shorter_first(displays);
        if sorted.len() == 0 {
            assert(target.is_empty()) by {
                if !target.is_empty() {
                    let s = target.choose();
                    assert(string_views(sorted@).to_set().contains(s));
                }
            }
            return None;
        }
        let ghost l = string_views(sorted@);
        assert(target.contains(l[0]));
        let mut parts: Vec<Vec<char>> = Vec::new();
        let mut q: usize = 0;
        let lim: usize = if sorted.len() < 2 { sorted.len() } else { 2 };
        while q < lim
            invariant
                q <= lim <= sorted.len(),
                lim <= 2,
                l == string_views(sorted@),
                views(parts@) == l.take(q as int),
            decreases lim - q,
        {
            let ghost pv = views(parts@);
            parts.push(chars_of(sorted[q].as_str()));
            assert(views(parts@) == pv.push(l[q as int]));
            assert(l.take(q + 1) == l.take(q as int).push(l[q as int]));
            q = q + 1;
        }
        let sep = chars_of(" / ");
        let out = join_chars(&parts, &sep);
        Some(string_of(out.as_slice()))
    }
}

proof fn lemma_push_to_set(s: Seq<Seq<char>>, x: Seq<char>)
    ensures
        s.push(x).to_set() == s.to_set().insert(x),
{
    assert forall|y: Seq<char>| s.push(x).to_set().contains(y) <==> s.to_set().insert(x).contains(y) by {
        if s.push(x).to_set().contains(y) {
            let k = choose|k: int| 0 <= k < s.push(x).len() && s.push(x)[k] == y;
            if k < s.len() {
                assert(s[k] == y);
            }
        }
        if s.to_set().contains(y) {
            let k = choose|k: int| 0 <= k < s.len() && s[k] == y;
            assert(s.push(x)[k] == y);
        }
        if y == x {
            assert(s.push(x)[s.len() as int] == x);
        }
    }
    assert(s.push(x).to_set() =~= s.to_set().insert(x));
}


pub open spec fn is_toggle_tag(a: ActionV) -> bool {
    a is ToggleTag
}

pub open spec fn pair_views(v: Seq<(String, String)>) -> Seq<(Seq<char>, Seq<char>)> {
    v.map_values(|p: (String, String)| (p.0@, p.1@))
}

/// The display of a key bound to a tag toggle and that tag.
pub open spec fn toggle_entry(m: Map<(KeyModifiers, KeyCode), ActionV>, k: (KeyModifiers, KeyCode)) -> (Seq<char>, Seq<char>) {
    (display_text(k.0, k.1), m[k]->ToggleTag_0)
}

pub open spec fn display_sorted(v: Seq<(Seq<char>, Seq<char>)>) -> bool {
    forall|i: int, j: int| 0 <= i < j < v.len() ==> !shorter_first_lt(#[trigger] v[j].0, #[trigger] v[i].0)
}

impl KeyConfig {
    /// The keys of the main pane bound to toggling a tag, each as its display
    /// and the tag, shorter displays first, then alphabetical.
    pub fn toggle_tag_entries(&self) -> (r: Vec<(String, String)>)
        requires
            self.wf(),
        ensures
            display_sorted(pair_views(r@)),
            exists|ks: Seq<(KeyModifiers, KeyCode)>|
                #![trigger ks.to_set()]
                ks.no_duplicates() && ks.to_set() == self.normal_main@.dom().filter(
                    |k: (KeyModifiers, KeyCode)| is_toggle_tag(self.normal_main@[k]),
                ) && pair_views(r@) == ks.map_values(
                    |k: (KeyModifiers, KeyCode)| toggle_entry(self.normal_main@, k),
                ),
    {
        let es = &self.normal_main.entries;
        let ghost m = self.normal_main@;
        let mut out: Vec<(String, String)> = Vec::new();
        let ghost mut ks: Seq<(KeyModifiers, KeyCode)> = Seq::empty();
        let mut i: usize = 0;
        while i < es.len()
            invariant
                i <= es.len(),
                es@ == self.normal_main.entries@,
                m == map_of(es@),
                keys_unique(es@),
                ks.no_duplicates(),
                forall|t: int| #![trigger ks[t]] 0 <= t < ks.len() ==> exists|q: int| 0 <= q < i && #[trigger] entry_key(es@[q]) == ks[t],
                forall|q: int| 0 <= q < i && is_toggle_tag((#[trigger] es@[q]).2@) ==> ks.contains(entry_key(es@[q])),
                forall|t: int| 0 <= t < ks.len() ==> m.contains_key(#[trigger] ks[t]) && is_toggle_tag(m[ks[t]]),
                display_sorted(pair_views(out@)),
                pair_views(out@) == ks.map_values(|k: (KeyModifiers, KeyCode)| toggle_entry(m, k)),
            decreases es.len() - i,
        {
            let e = &es[i];
            match &e.2 {
                Action::ToggleTag(tag) => {
                    proof {
                        lemma_map_of_entry(es@, i as int);
                    }
                    let d = format_key_display(e.0, e.1);
                    let mut p: usize = 0;
                    while p < out.len() && !shorter_first_less(&d, &out[p].0)
                        invariant
                            p <= out.len(),
                            forall|q: int| 0 <= q < p ==> !shorter_first_lt(d@, #[trigger] out@[q].0@),
                        decreases out.len() - p,
                    {
                        p = p + 1;
                    }
                    let ghost old_v = pair_views(out@);
                    let ghost old_ks = ks;
                    let ghost k = entry_key(*e);
                    assert(!old_ks.contains(k)) by {
                        if old_ks.contains(k) {
                            let t = choose|t: int| 0 <= t < old_ks.len() && old_ks[t] == k;
                            let q = choose|q: int| 0 <= q < i && #[trigger] entry_key(es@[q]) == old_ks[t];
                            assert(entry_key(es@[q]) != entry_key(es@[i as int]));
                        }
                    }
                    out.insert(p, (d, tag.clone()));
                    proof {
                        ks = old_ks.insert(p as int, k);
                    }
                    let ghost nv = pair_views(out@);
                    assert(nv == old_v.insert(p as int, (display_text(k.0, k.1), m[k]->ToggleTag_0)));
                    assert(display_sorted(nv)) by {
                        assert forall|a: int, b: int| 0 <= a < b < nv.len() implies !shorter_first_lt(#[trigger] nv[b].0, #[trigger] nv[a].0) by {
                            let x = nv[p as int].0;
                            if b < p {
                                assert(nv[a] == old_v[a] && nv[b] == old_v[b]);
                            } else if b == p {
                                assert(nv[a] == old_v[a]);
                                assert(old_v[a].0 == out@[a].0@);
                            } else if a < p {
                                assert(nv[a] == old_v[a] && nv[b] == old_v[b - 1]);
                            } else if a == p {
                                assert(nv[b] == old_v[b - 1]);
                                assert(shorter_first_lt(x, old_v[p as int].0)) by {
                                    assert(old_v[p as int].0 == out@[p as int + 1].0@);
                                }
                                lemma_shorter_first_strict(old_v[b - 1].0, x, old_v[p as int].0);
                                lemma_shorter_first_strict(old_v[p as int].0, old_v[p as int].0, old_v[p as int].0);
                            } else {
                                assert(nv[a] == old_v[a - 1] && nv[b] == old_v[b - 1]);
                            }
                        }
                    }
                    assert(ks.no_duplicates()) by {
                        assert forall|a: int, b: int| 0 <= a < ks.len() && 0 <= b < ks.len() && a != b implies ks[a] != ks[b] by {
                            if a != p && b != p {
                                let oa = if a < p { a } else { a - 1 };
                                let ob = if b < p { b } else { b - 1 };
                                assert(ks[a] == old_ks[oa] && ks[b] == old_ks[ob]);
                            } else if a == p {
                                let ob = if b < p { b } else { b - 1 };
                                assert(ks[b] == old_ks[ob]);
                            } else {
                                let oa = if a < p { a } else { a - 1 };
                                assert(ks[a] == old_ks[oa]);
                            }
                        }
                    }
                    assert(pair_views(out@) == ks.map_values(|k: (KeyModifiers, KeyCode)| toggle_entry(m, k)));
                    assert forall|t: int| #![trigger ks[t]] 0 <= t < ks.len() implies exists|q: int| 0 <= q < i + 1 && #[trigger] entry_key(es@[q]) == ks[t] by {
                        if t == p {
                            assert(entry_key(es@[i as int]) == ks[t]);
                        } else {
                            let ot = if t < p { t } else { t - 1 };
                            assert(ks[t] == old_ks[ot]);
                        }
                    }
                    assert forall|q: int| 0 <= q < i + 1 && is_toggle_tag((#[trigger] es@[q]).2@) implies ks.contains(entry_key(es@[q])) by {
                        if q == i {
                            assert(ks[p as int] == k);
                        } else {
                            let t = choose|t: int| 0 <= t < old_ks.len() && old_ks[t] == entry_key(es@[q]);
                            if t < p {
                                assert(ks[t] == old_ks[t]);
                            } else {
                                assert(ks[t + 1] == old_ks[t]);
                            }
                        }
                    }
                    assert forall|t: int| 0 <= t < ks.len() implies m.contains_key(#[trigger] ks[t]) && is_toggle_tag(m[ks[t]]) by {
                        if t != p {
                            let ot = if t < p { t } else { t - 1 };
                            assert(ks[t] == old_ks[ot]);
                        }
                    }
                },
                _ => {
                    assert forall|t: int| #![trigger ks[t]] 0 <= t < ks.len() implies exists|q: int| 0 <= q < i + 1 && #[trigger] entry_key(es@[q]) == ks[t] by {
                        let q = choose|q: int| 0 <= q < i && #[trigger] entry_key(es@[q]) == ks[t];
                    }
                },
            }
            i = i + 1;
        }
        proof {
            let target = m.dom().filter(|k: (KeyModifiers, KeyCode)| is_toggle_tag(m[k]));
            assert forall|k: (KeyModifiers, KeyCode)| ks.to_set().contains(k) <==> target.contains(k) by {
                if ks.to_set().contains(k) {
                    let t = choose|t: int| 0 <= t < ks.len() && ks[t] == k;
                }
                if target.contains(k) {
                    lemma_map_of_key(es@, k);
                    let q = choose|q: int| 0 <= q < es@.len() && entry_key(#[trigger] es@[q]) == k;
                    lemma_map_of_entry(es@, q);
                    assert(ks.contains(entry_key(es@[q])));
                }
            }
            assert(ks.to_set() =~= target);
        }
        out
    }
}

} // verus!
