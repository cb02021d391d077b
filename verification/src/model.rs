use vstd::prelude::*;

use crate::crdt::{CrdtDocument, DocV};

verus! {

/// One entry of a todo list: a title, a completion flag, its tags (without
/// the leading `@`) and the time spent on it, in seconds.
#[derive(Debug, Clone, PartialEq)]
pub struct TodoItem {
    pub title: String,
    pub done: bool,
    pub tags: Vec<String>,
    pub time_secs: u64,
}

/// Whether a list keeps its items across days or resets them every day.
#[derive(Debug, Clone, Copy, PartialEq, Eq, Structural)]
pub enum ListType {
    Normal,
    Daily,
}

/// A named list of todo items, as stored in one Markdown file.
#[derive(Debug, Clone, PartialEq)]
pub struct TodoList {
    pub name: String,
    pub items: Vec<TodoItem>,
    pub list_type: ListType,
    pub last_reset: Option<String>,
}

#[derive(Debug, Clone, Copy, PartialEq, Eq, Structural)]
pub enum Pane {
    Sidebar,
    Main,
}

#[derive(Debug, Clone, Copy, PartialEq, Eq, Structural)]
pub enum InputMode {
    Normal,
    AddingItem,
    AddingList,
    RenamingList,
    EditingItem,
    EditingTags,
    ConfirmDelete,
    ConfirmArchive,
    Searching,
    Focused,
    EditingTime,
    FilteringTags,
    MovingToList,
    SwitchingContext,
    CreatingContext,
}

/// A hit of the fuzzy search: a list (by its index in display order), an item
/// (by its id) or a tag (by its name).
#[derive(Debug, Clone, PartialEq)]
pub enum SearchResult {
    List(usize),
    Item(String),
    Tag(String),
}

/// An entry of the sidebar: a list (by its index in display order), the
/// virtual view of items without a list, or the virtual view of one tag.
#[derive(Debug, Clone, PartialEq)]
pub enum SidebarEntry {
    List(usize),
    Unassigned,
    Tag(String),
}

/// The abstract value of a sidebar entry.
pub enum EntryV {
    List(usize),
    Unassigned,
    Tag(Seq<char>),
}

impl View for SidebarEntry {
    type V = EntryV;

    open spec fn view(&self) -> EntryV {
        match self {
            SidebarEntry::List(i) => EntryV::List(*i),
            SidebarEntry::Unassigned => EntryV::Unassigned,
            SidebarEntry::Tag(t) => EntryV::Tag(t@),
        }
    }
}

pub open spec fn entries_view(v: Seq<SidebarEntry>) -> Seq<EntryV> {
    v.map_values(|e: SidebarEntry| e@)
}

/// The abstract value of a search hit.
pub enum ResultV {
    List(usize),
    Item(Seq<char>),
    Tag(Seq<char>),
}

impl View for SearchResult {
    type V = ResultV;

    open spec fn view(&self) -> ResultV {
        match self {
            SearchResult::List(i) => ResultV::List(*i),
            SearchResult::Item(id) => ResultV::Item(id@),
            SearchResult::Tag(t) => ResultV::Tag(t@),
        }
    }
}

pub open spec fn results_view(v: Seq<SearchResult>) -> Seq<ResultV> {
    v.map_values(|r: SearchResult| r@)
}

/// What undo and redo bring back: the document and the selection.
pub struct AppSnapshot {
    pub doc: CrdtDocument,
    pub selected_list_index: usize,
    pub selected_item_index: usize,
    pub selected_sidebar_index: usize,
}

/// The abstract value of a snapshot.
pub struct SnapV {
    pub doc: DocV,
    pub selected_list_index: usize,
    pub selected_item_index: usize,
    pub selected_sidebar_index: usize,
}

impl View for AppSnapshot {
    type V = SnapV;

    open spec fn view(&self) -> SnapV {
        SnapV {
            doc: self.doc@,
            selected_list_index: self.selected_list_index,
            selected_item_index: self.selected_item_index,
            selected_sidebar_index: self.selected_sidebar_index,
        }
    }
}

pub open spec fn snaps_view(v: Seq<AppSnapshot>) -> Seq<SnapV> {
    v.map_values(|s: AppSnapshot| s@)
}

/// The abstract value of a todo item.
pub struct ItemV {
    pub title: Seq<char>,
    pub done: bool,
    pub tags: Seq<Seq<char>>,
    pub time_secs: u64,
}

/// The abstract value of a todo list.
pub struct ListV {
    pub name: Seq<char>,
    pub items: Seq<ItemV>,
    pub list_type: ListType,
    pub last_reset: Option<Seq<char>>,
}

pub open spec fn strings_view(v: Seq<String>) -> Seq<Seq<char>> {
    v.map_values(|s: String| s@)
}

impl View for TodoItem {
    type V = ItemV;

    open spec fn view(&self) -> ItemV {
        ItemV { title: self.title@, done: self.done, tags: strings_view(self.tags@), time_secs: self.time_secs }
    }
}

pub open spec fn items_view(v: Seq<TodoItem>) -> Seq<ItemV> {
    v.map_values(|i: TodoItem| i@)
}

pub open spec fn opt_string_view(o: Option<String>) -> Option<Seq<char>> {
    match o {
        Some(s) => Some(s@),
        None => None,
    }
}

impl View for TodoList {
    type V = ListV;

    open spec fn view(&self) -> ListV {
        ListV {
            name: self.name@,
            items: items_view(self.items@),
            list_type: self.list_type,
            last_reset: opt_string_view(self.last_reset),
        }
    }
}

impl TodoItem {
    /// A new item that is not done, has no tags and no recorded time.
    pub fn new(title: &str) -> (item: TodoItem)
        ensures
            item@.title == title@,
            !item.done,
            item.tags@.len() == 0,
            item.time_secs == 0,
    {
        TodoItem { title: title.to_owned(), done: false, tags: Vec::new(), time_secs: 0 }
    }
}

impl TodoList {
    /// A new, empty, normal list.
    pub fn new(name: &str) -> (list: TodoList)
        ensures
            list@.name == name@,
            list.items@.len() == 0,
            list.list_type == ListType::Normal,
            list.last_reset.is_none(),
    {
        TodoList { name: name.to_owned(), items: Vec::new(), list_type: ListType::Normal, last_reset: None }
    }
}

} // verus!
