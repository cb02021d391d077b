use vstd::prelude::*;

use crate::config::KeyConfig;
use crate::crdt::{
    doc_lists, item_refs_view, list_refs_view, list_rows, opt_view, tag_rows, unassigned_rows, CrdtDocument,
    CrdtItem, CrdtList, DocV, ItemRec, ListRec,
};
use crate::doc_ops::{doc_tags, ids_fit, migrate_from_lists, migration, new_id as new_id_for_item};
use crate::model::{
    entries_view, results_view, snaps_view, strings_view, AppSnapshot, EntryV, InputMode, Pane, ResultV,
    SearchResult, SidebarEntry, SnapV, TodoList,
};

verus! {

/// The state of the application: the document of the current context and
/// everything the user has selected, typed or asked to see.
pub struct App {
    pub doc: CrdtDocument,
    pub active_pane: Pane,
    /// Index of the selected list in display order.
    pub selected_list_index: usize,
    /// Index of the selected row among the rows the main pane shows.
    pub selected_item_index: usize,
    pub input_mode: InputMode,
    pub input_buffer: String,
    /// Position of the cursor in the input buffer, in characters.
    pub input_pos: usize,
    /// The same position as a byte offset into the buffer's UTF-8 text.
    pub input_cursor: usize,
    pub show_done: bool,
    pub running: bool,
    /// A first `g` was typed in normal mode; a second one jumps to the top.
    pub pending_g: bool,
    pub undo_stack: Vec<AppSnapshot>,
    pub redo_stack: Vec<AppSnapshot>,
    pub search_results: Vec<SearchResult>,
    pub search_selected: usize,
    pub ascii_mode: bool,
    pub focus_item_id: Option<String>,
    /// When the running focus session started, in seconds of the clock;
    /// `None` while it is paused.
    pub focus_start: Option<u64>,
    /// Seconds of the focus session before its last pause.
    pub focus_accumulated: u64,
    pub filter_tags: Vec<String>,
    pub filter_available_tags: Vec<String>,
    pub filter_selected: Vec<bool>,
    pub filter_cursor: usize,
    pub autocomplete_suggestions: Vec<String>,
    pub autocomplete_cursor: usize,
    pub autocomplete_active: bool,
    /// Ids of the items marked for a batch operation, each once.
    pub selected_items: Vec<String>,
    pub move_to_list_cursor: usize,
    pub move_to_list_filter: String,
    pub sidebar_entries: Vec<SidebarEntry>,
    pub selected_sidebar_index: usize,
    pub current_context: String,
    pub context_cursor: usize,
    pub context_filter: String,
    pub key_config: KeyConfig,
    /// The document changed since it was last written.
    pub dirty: bool,
    /// The whole document is to be reconciled before the next write.
    pub needs_full_reconcile: bool,
    pub sync_connected: bool,
    /// When the active pane last changed, in seconds of the clock.
    pub pane_switch_at: Option<u64>,
    /// The moment the clock counts from: times are whole seconds since then.
    pub clock_base: std::time::Instant,
}

// ---------------------------------------------------------------------------
// What the state shows
// ---------------------------------------------------------------------------

/// The lists, in display order.
pub open spec fn lists_of(a: App) -> Seq<ListRec> {
    doc_lists(a.doc@.lists)
}

/// The id of the selected list, if the index names one.
pub open spec fn selected_list_spec(a: App) -> Option<Seq<char>> {
    if a.selected_list_index < lists_of(a).len() {
        Some(lists_of(a)[a.selected_list_index as int].id)
    } else {
        None
    }
}

/// The selected sidebar entry, if the index names one.
pub open spec fn entry_at(a: App) -> Option<EntryV> {
    if a.selected_sidebar_index < a.sidebar_entries@.len() {
        Some(a.sidebar_entries@[a.selected_sidebar_index as int]@)
    } else {
        None
    }
}

pub open spec fn in_tag_view(a: App) -> bool {
    entry_at(a) matches Some(EntryV::Tag(_))
}

pub open spec fn in_unassigned_view(a: App) -> bool {
    entry_at(a) == Some(EntryV::Unassigned)
}

/// The tag whose view is selected, if one is.
pub open spec fn tag_of_view(a: App) -> Option<Seq<char>> {
    match entry_at(a) {
        Some(EntryV::Tag(t)) => Some(t),
        _ => None,
    }
}

/// The item passes the tag filter: the filter is empty, or the item carries
/// one of its tags.
pub open spec fn tag_ok(ft: Seq<Seq<char>>, i: ItemRec) -> bool {
    ft.len() == 0 || exists|k: int| 0 <= k < ft.len() && i.tags.contains(#[trigger] ft[k])
}

pub open spec fn undone_keep(ft: Seq<Seq<char>>) -> spec_fn(ItemRec) -> bool {
    |i: ItemRec| tag_ok(ft, i) && !i.done
}

pub open spec fn done_keep(ft: Seq<Seq<char>>, show_done: bool) -> spec_fn(ItemRec) -> bool {
    |i: ItemRec| tag_ok(ft, i) && i.done && show_done
}

/// The rows that pass the tag filter, open ones first, then (if shown) the
/// done ones, each group in display order.
pub open spec fn split_rows(s: Seq<ItemRec>, ft: Seq<Seq<char>>, show_done: bool) -> Seq<ItemRec> {
    s.filter(undone_keep(ft)) + s.filter(done_keep(ft, show_done))
}

/// The rows of the list with id `l`, if any.
#[verifier::opaque]
pub open spec fn rows_for_list(m: Map<Seq<char>, ItemRec>, l: Option<Seq<char>>, ft: Seq<Seq<char>>, show_done: bool) -> Seq<ItemRec> {
    match l {
        Some(l) => split_rows(list_rows(m, l), ft, show_done),
        None => Seq::empty(),
    }
}

/// The rows of the view of tag `t`, if any.
#[verifier::opaque]
pub open spec fn rows_for_tag(m: Map<Seq<char>, ItemRec>, t: Option<Seq<char>>, show_done: bool) -> Seq<ItemRec> {
    match t {
        Some(t) => split_rows(tag_rows(m, t), Seq::empty(), show_done),
        None => Seq::empty(),
    }
}

/// The rows of the view of items without a list.
#[verifier::opaque]
pub open spec fn rows_unassigned(m: Map<Seq<char>, ItemRec>, show_done: bool) -> Seq<ItemRec> {
    split_rows(unassigned_rows(m), Seq::empty(), show_done)
}

/// The rows of the selected list.
pub open spec fn visible_rows(a: App) -> Seq<ItemRec> {
    rows_for_list(a.doc@.items, selected_list_spec(a), strings_view(a.filter_tags@), a.show_done)
}

/// The rows of the selected tag view.
pub open spec fn tag_visible_rows(a: App) -> Seq<ItemRec> {
    rows_for_tag(a.doc@.items, tag_of_view(a), a.show_done)
}

/// The rows of the view of items without a list.
pub open spec fn unassigned_visible_rows(a: App) -> Seq<ItemRec> {
    rows_unassigned(a.doc@.items, a.show_done)
}

/// The rows the main pane shows.
pub open spec fn current_rows(a: App) -> Seq<ItemRec> {
    if in_tag_view(a) {
        tag_visible_rows(a)
    } else if in_unassigned_view(a) {
        unassigned_visible_rows(a)
    } else {
        visible_rows(a)
    }
}

/// The rows that moving the selection counts: those of a tag view, else
/// those of the selected list.
pub open spec fn nav_rows(a: App) -> Seq<ItemRec> {
    if in_tag_view(a) {
        tag_visible_rows(a)
    } else {
        visible_rows(a)
    }
}

/// The id of the selected row's item, if the index names a row.
pub open spec fn selected_item_spec(a: App) -> Option<Seq<char>> {
    if a.selected_item_index < current_rows(a).len() {
        Some(current_rows(a)[a.selected_item_index as int].id)
    } else {
        None
    }
}

/// Some item (archived or not) has no list.
pub open spec fn has_unassigned(m: Map<Seq<char>, ItemRec>) -> bool {
    exists|id: Seq<char>| #[trigger] m.contains_key(id) && m[id].list_id is None
}

/// The sidebar of a document: its lists, then the view of items without a
/// list if any item has none, then one view per tag.
pub open spec fn sidebar_spec(d: DocV) -> Seq<EntryV> {
    Seq::new(doc_lists(d.lists).len(), |i: int| EntryV::List(i as usize)) + (if has_unassigned(d.items) {
        seq![EntryV::Unassigned]
    } else {
        Seq::<EntryV>::empty()
    }) + doc_tags(d.items).map_values(|t: Seq<char>| EntryV::Tag(t))
}

pub open spec fn pair_rows(v: Seq<(&str, &CrdtItem)>) -> Seq<ItemRec> {
    v.map_values(|p: (&str, &CrdtItem)| p.1@)
}

/// Each pair holds an item and its id.
pub open spec fn pairs_ok(v: Seq<(&str, &CrdtItem)>) -> bool {
    forall|k: int| 0 <= k < v.len() ==> (#[trigger] v[k]).0@ == v[k].1@.id
}

/// No string occurs twice.
pub open spec fn no_dups(v: Seq<Seq<char>>) -> bool {
    forall|i: int, j: int| 0 <= i < j < v.len() ==> v[i] != v[j]
}

/// Each row is an item of `m`, as `m` holds it.
pub open spec fn rows_in(m: Map<Seq<char>, ItemRec>, s: Seq<ItemRec>) -> bool {
    forall|k: int| 0 <= k < s.len() ==> m.contains_key(#[trigger] s[k].id) && m[s[k].id] == s[k]
}

/// The value a snapshot of the state takes.
pub open spec fn snap_of(a: App) -> SnapV {
    SnapV {
        doc: a.doc@,
        selected_list_index: a.selected_list_index,
        selected_item_index: a.selected_item_index,
        selected_sidebar_index: a.selected_sidebar_index,
    }
}

pub proof fn lemma_filter_take<T>(s: Seq<T>, p: spec_fn(T) -> bool, k: int)
    requires
        0 <= k < s.len(),
    ensures
        s.take(k + 1).filter(p) == (if p(s[k]) {
            s.take(k).filter(p).push(s[k])
        } else {
            s.take(k).filter(p)
        }),
{
    reveal(Seq::filter);
    assert(s.take(k + 1).drop_last() == s.take(k));
    assert(s.take(k + 1).last() == s[k]);
}

fn has_any_tag(tags: &Vec<String>, ft: &Vec<String>) -> (r: bool)
    ensures
        r == (exists|k: int| 0 <= k < ft@.len() && strings_view(tags@).contains(#[trigger] strings_view(ft@)[k])),
{
    let mut k: usize = 0;
    while k < ft.len()
        invariant
            k <= ft.len(),
            forall|q: int| 0 <= q < k ==> !strings_view(tags@).contains(#[trigger] strings_view(ft@)[q]),
        decreases ft.len() - k,
    {
        let mut j: usize = 0;
        while j < tags.len()
            invariant
                j <= tags.len(),
                k < ft.len(),
                forall|q: int| 0 <= q < j ==> tags@[q]@ != ft@[k as int]@,
            decreases tags.len() - j,
        {
            if crate::text::str_eq(tags[j].as_str(), ft[k].as_str()) {
                assert(strings_view(tags@)[j as int] == strings_view(ft@)[k as int]);
                return true;
            }
            j = j + 1;
        }
        assert(!strings_view(tags@).contains(strings_view(ft@)[k as int])) by {
            if strings_view(tags@).contains(strings_view(ft@)[k as int]) {
                let q = choose|q: int| 0 <= q < tags@.len() && strings_view(tags@)[q] == strings_view(ft@)[k as int];
                assert(tags@[q]@ == ft@[k as int]@);
            }
        }
        k = k + 1;
    }
    false
}

proof fn lemma_split_in(m: Map<Seq<char>, ItemRec>, items: Seq<&CrdtItem>, r: Seq<(&str, &CrdtItem)>)
    requires
        forall|k: int| 0 <= k < items.len() ==> m.contains_key(#[trigger] item_refs_view(items)[k].id)
            && m[item_refs_view(items)[k].id] == item_refs_view(items)[k],
        forall|k: int| 0 <= k < r.len() ==> items.contains(#[trigger] r[k].1),
    ensures
        rows_in(m, pair_rows(r)),
{
    assert forall|k: int| 0 <= k < pair_rows(r).len() implies m.contains_key(#[trigger] pair_rows(r)[k].id) && m[pair_rows(r)[k].id] == pair_rows(r)[k] by {
        assert(items.contains(r[k].1));
        let j = choose|j: int| 0 <= j < items.len() && items[j] == r[k].1;
        assert(item_refs_view(items)[j] == r[k].1@);
        assert(m.contains_key(item_refs_view(items)[j].id));
    }
}

/// Splits rows into open ones then done ones, keeping those that pass the
/// tag filter.
fn split_items<'a>(items: Vec<&'a CrdtItem>, ft: &Vec<String>, show_done: bool) -> (r: Vec<(&'a str, &'a CrdtItem)>)
    ensures
        pair_rows(r@) == split_rows(item_refs_view(items@), strings_view(ft@), show_done),
        pairs_ok(r@),
        forall|k: int| 0 <= k < r@.len() ==> items@.contains(#[trigger] r@[k].1),
{
    let ghost s = item_refs_view(items@);
    let ghost fv = strings_view(ft@);
    let mut undone: Vec<(&'a str, &'a CrdtItem)> = Vec::new();
    let mut done: Vec<(&'a str, &'a CrdtItem)> = Vec::new();
    let mut k: usize = 0;
    while k < items.len()
        invariant
            k <= items.len(),
            s == item_refs_view(items@),
            fv == strings_view(ft@),
            pair_rows(undone@) == s.take(k as int).filter(undone_keep(fv)),
            pair_rows(done@) == s.take(k as int).filter(done_keep(fv, show_done)),
            pairs_ok(undone@),
            pairs_ok(done@),
            forall|q: int| 0 <= q < undone@.len() ==> items@.contains(#[trigger] undone@[q].1),
            forall|q: int| 0 <= q < done@.len() ==> items@.contains(#[trigger] done@[q].1),
        decreases items.len() - k,
    {
        let it = items[k];
        assert(items@.contains(it));
        proof {
            lemma_filter_take(s, undone_keep(fv), k as int);
            lemma_filter_take(s, done_keep(fv, show_done), k as int);
            assert(s[k as int] == it@);
        }
        let pass = ft.len() == 0 || has_any_tag(&it.tags, ft);
        assert(pass == tag_ok(fv, it@));
        if pass {
            if it.done {
                if show_done {
                    let ghost before = done@;
                    done.push((it.id.as_str(), it));
                    assert(pair_rows(done@) =~= pair_rows(before).push(it@));
                }
            } else {
                let ghost before = undone@;
                undone.push((it.id.as_str(), it));
                assert(pair_rows(undone@) =~= pair_rows(before).push(it@));
            }
        }
        k = k + 1;
    }
    assert(s.take(items.len() as int) == s);
    let ghost u = undone@;
    let ghost d = done@;
    undone.append(&mut done);
    assert(pair_rows(undone@) =~= pair_rows(u) + pair_rows(d));
    assert forall|q: int| 0 <= q < undone@.len() implies items@.contains(#[trigger] undone@[q].1) by {
        if q < u.len() {
            assert(undone@[q] == u[q]);
        } else {
            assert(undone@[q] == d[q - u.len()]);
        }
    }
    undone
}

/// `std::time::Instant`, carried through without being looked into.
#[verifier::external_type_specification]
#[verifier::external_body]
pub struct ExInstant(std::time::Instant);

/// Reads the monotonic clock with `std::time::Instant::now`. What it returns
/// rests on the machine's clock and is not stated.
#[verifier::external_body]
fn instant_now() -> std::time::Instant {
    std::time::Instant::now()
}

/// The whole seconds elapsed since `base`, with `Instant::elapsed` and
/// `Duration::as_secs`; the monotonic clock never goes back. What it returns
/// rests on the machine's clock and is not stated.
#[verifier::external_body]
fn secs_since(base: &std::time::Instant) -> u64 {
    base.elapsed().as_secs()
}

impl App {
    /// The state is consistent: documents keep their ids unique, the key
    /// maps hold one binding per key, the cursor stands in the buffer.
    pub open spec fn wf(&self) -> bool {
        &&& self.doc.wf()
        &&& self.key_config.wf()
        &&& self.input_pos <= self.input_buffer@.len()
        &&& forall|i: int| 0 <= i < self.undo_stack@.len() ==> (#[trigger] self.undo_stack@[i]).doc.wf()
        &&& forall|i: int| 0 <= i < self.redo_stack@.len() ==> (#[trigger] self.redo_stack@[i]).doc.wf()
        &&& no_dups(strings_view(self.selected_items@))
    }

    /// A fresh state for a context whose document has been loaded.
    pub fn new(doc: CrdtDocument, context: String, ascii_mode: bool, key_config: KeyConfig) -> (r: App)
        requires
            doc.wf(),
            key_config.wf(),
        ensures
            r.wf(),
            r.doc == doc,
            r.current_context == context,
            r.ascii_mode == ascii_mode,
            r.key_config == key_config,
            r.active_pane == Pane::Sidebar,
            r.input_mode == InputMode::Normal,
            r.selected_list_index == 0,
            r.selected_item_index == 0,
            r.selected_sidebar_index == 0,
            r.show_done,
            r.running,
            !r.dirty,
            r.input_buffer@.len() == 0,
            r.undo_stack@.len() == 0,
            r.redo_stack@.len() == 0,
            r.filter_tags@.len() == 0,
            r.selected_items@.len() == 0,
            r.focus_item_id.is_none(),
            r.focus_start.is_none(),
            r.focus_accumulated == 0,
            r.input_pos == 0,
            r.input_cursor == 0,
            !r.pending_g,
            r.search_results@.len() == 0,
            r.search_selected == 0,
            r.filter_available_tags@.len() == 0,
            r.filter_selected@.len() == 0,
            r.filter_cursor == 0,
            r.autocomplete_suggestions@.len() == 0,
            r.autocomplete_cursor == 0,
            !r.autocomplete_active,
            r.move_to_list_cursor == 0,
            r.move_to_list_filter@.len() == 0,
            r.context_cursor == 0,
            r.context_filter@.len() == 0,
            !r.needs_full_reconcile,
            !r.sync_connected,
            r.pane_switch_at.is_none(),
            entries_view(r.sidebar_entries@) == sidebar_spec(r.doc@),
    {
        let mut app = App {
            doc,
            active_pane: Pane::Sidebar,
            selected_list_index: 0,
            selected_item_index: 0,
            input_mode: InputMode::Normal,
            input_buffer: String::new(),
            input_pos: 0,
            input_cursor: 0,
            show_done: true,
            running: true,
            pending_g: false,
            undo_stack: Vec::new(),
            redo_stack: Vec::new(),
            search_results: Vec::new(),
            search_selected: 0,
            ascii_mode,
            focus_item_id: None,
            focus_start: None,
            focus_accumulated: 0,
            filter_tags: Vec::new(),
            filter_available_tags: Vec::new(),
            filter_selected: Vec::new(),
            filter_cursor: 0,
            autocomplete_suggestions: Vec::new(),
            autocomplete_cursor: 0,
            autocomplete_active: false,
            selected_items: Vec::new(),
            move_to_list_cursor: 0,
            move_to_list_filter: String::new(),
            sidebar_entries: Vec::new(),
            selected_sidebar_index: 0,
            current_context: context,
            context_cursor: 0,
            context_filter: String::new(),
            key_config,
            dirty: false,
            needs_full_reconcile: false,
            sync_connected: false,
            pane_switch_at: None,
            clock_base: instant_now(),
        };
        app.rebuild_sidebar_entries();
        app
    }

    /// A fresh state in the `default` context over a document made from
    /// the lists, each list and item under a new id.
    pub fn with_lists(lists: Vec<TodoList>) -> (r: App)
        requires
            lists@.len() < 0x4000_0000_0000_0000,
            forall|i: int| 0 <= i < lists@.len() ==> (#[trigger] lists@[i]).items@.len() < 0x4000_0000_0000_0000,
        ensures
            r.wf(),
            exists|lids: Seq<String>, iids: Seq<Vec<String>>| ids_fit(lists@, lids, iids) && r.doc@ == migration(lists@, lids, iids),
            r.current_context@ == "default"@,
            !r.ascii_mode,
            r.key_config.normal@ == crate::config::default_normal(),
            r.key_config.normal_main@ == crate::config::default_normal_main(),
            r.key_config.normal_sidebar@ == crate::config::default_normal_sidebar(),
            r.key_config.search@ == crate::config::default_search(),
            r.key_config.focus@ == crate::config::default_focus(),
            r.key_config.filter@ == crate::config::default_filter(),
            r.key_config.input@ == crate::config::default_input(),
            r.key_config.confirm@ == crate::config::default_confirm(),
            r.key_config.move_to_list@ == crate::config::default_move_to_list(),
            r.key_config.context_switch@ == crate::config::default_context_switch(),
            r.active_pane == Pane::Sidebar,
            r.input_mode == InputMode::Normal,
            r.selected_list_index == 0,
            r.selected_item_index == 0,
            r.selected_sidebar_index == 0,
            r.show_done,
            r.running,
            !r.dirty,
            r.input_buffer@.len() == 0,
            r.undo_stack@.len() == 0,
            r.redo_stack@.len() == 0,
            r.filter_tags@.len() == 0,
            r.selected_items@.len() == 0,
            r.focus_item_id.is_none(),
            r.focus_start.is_none(),
            entries_view(r.sidebar_entries@) == sidebar_spec(r.doc@),
    {
        let doc = migrate_from_lists(lists.as_slice());
        let name = "default";
        proof {
            reveal_strlit("default");
        }
        App::new(doc, name.to_owned(), false, KeyConfig::default())
    }

    /// Rebuilds the sidebar from the document and keeps its selection in
    /// range.
    #[verifier::spinoff_prover]
    #[verifier::rlimit(40)]
    pub fn rebuild_sidebar_entries(&mut self)
        requires
            old(self).doc.wf(),
        ensures
            entries_view(final(self).sidebar_entries@) == sidebar_spec(old(self).doc@),
            final(self).selected_sidebar_index == rebuilt_index(old(self).selected_sidebar_index, final(self).sidebar_entries@.len() as int),
            *final(self) == (App {
                sidebar_entries: final(self).sidebar_entries,
                selected_sidebar_index: final(self).selected_sidebar_index,
                ..*old(self)
            }),
    {
        let lists = self.doc.ordered_lists();
        let n = lists.len();
        let ghost d = self.doc@;
        let mut entries: Vec<SidebarEntry> = Vec::new();
        let mut i: usize = 0;
        while i < n
            invariant
                i <= n,
                entries_view(entries@) == Seq::new(i as nat, |k: int| EntryV::List(k as usize)),
            decreases n - i,
        {
            let ghost old_e = entries@;
            entries.push(SidebarEntry::List(i));
            assert(entries_view(entries@) =~= entries_view(old_e).push(EntryV::List(i)));
            assert(entries_view(entries@) =~= Seq::new((i + 1) as nat, |k: int| EntryV::List(k as usize)));
            i = i + 1;
        }
        let ghost part1 = entries_view(entries@);
        assert(n == doc_lists(d.lists).len()) by {
            assert(list_refs_view(lists@).len() == lists@.len());
        }
        let mut any = false;
        let mut q: usize = 0;
        while q < self.doc.items.len()
            invariant
                q <= self.doc.items.len(),
                any == exists|j: int| 0 <= j < q && (#[trigger] self.doc.items@[j]).list_id.is_none(),
            decreases self.doc.items.len() - q,
        {
            if self.doc.items[q].list_id.is_none() {
                any = true;
            }
            q = q + 1;
        }
        proof {
            let items = self.doc.items@;
            if any {
                let j = choose|j: int| 0 <= j < items.len() && (#[trigger] items[j]).list_id.is_none();
                crate::crdt::lemma_item_map_entry(items, j);
                assert(d.items.contains_key(items[j].id@));
            }
            if has_unassigned(d.items) {
                let id = choose|id: Seq<char>| #[trigger] d.items.contains_key(id) && d.items[id].list_id is None;
                crate::crdt::lemma_item_map_key(items, id);
                let j = choose|j: int| 0 <= j < items.len() && (#[trigger] items[j]).id@ == id;
                crate::crdt::lemma_item_map_entry(items, j);
            }
        }
        if any {
            entries.push(SidebarEntry::Unassigned);
        }
        let ghost part2 = entries_view(entries@);
        assert(part2 =~= part1 + (if has_unassigned(d.items) {
            seq![EntryV::Unassigned]
        } else {
            Seq::<EntryV>::empty()
        }));
        let tags = self.doc.all_tags();
        let mut t: usize = 0;
        while t < tags.len()
            invariant
                t <= tags.len(),
                entries_view(entries@) == part2 + strings_view(tags@).take(t as int).map_values(|x: Seq<char>| EntryV::Tag(x)),
            decreases tags.len() - t,
        {
            let ghost old_e = entries@;
            entries.push(SidebarEntry::Tag(tags[t].clone()));
            assert(entries_view(entries@) =~= entries_view(old_e).push(EntryV::Tag(tags@[t as int]@)));
            assert(strings_view(tags@).take(t + 1) == strings_view(tags@).take(t as int).push(tags@[t as int]@));
            assert(entries_view(entries@) =~= part2 + strings_view(tags@).take(t + 1).map_values(|x: Seq<char>| EntryV::Tag(x)));
            t = t + 1;
        }
        assert(strings_view(tags@).take(tags.len() as int) == strings_view(tags@));
        self.sidebar_entries = entries;
        if self.selected_sidebar_index >= self.sidebar_entries.len() && self.sidebar_entries.len() > 0 {
            self.selected_sidebar_index = self.sidebar_entries.len() - 1;
        }
    }
}


// ---------------------------------------------------------------------------
// State transitions, as functions of the state
// ---------------------------------------------------------------------------

/// The entry at an index of the sidebar, if any.
pub open spec fn entry_of(es: Seq<SidebarEntry>, i: usize) -> Option<EntryV> {
    if i < es.len() {
        Some(es[i as int]@)
    } else {
        None
    }
}

/// `b` is `a` with sidebar entry `idx` selected: a list entry selects its
/// list; the item selection, the tag filter and the marked items are reset.
pub open spec fn synced(a: App, idx: usize, b: App) -> bool {
    &&& b.selected_list_index == (match entry_of(a.sidebar_entries@, idx) {
        Some(EntryV::List(i)) => i,
        _ => a.selected_list_index,
    })
    &&& b.filter_tags@.len() == 0
    &&& b.selected_items@.len() == 0
    &&& b == (App {
        selected_sidebar_index: idx,
        selected_list_index: b.selected_list_index,
        selected_item_index: 0,
        filter_tags: b.filter_tags,
        selected_items: b.selected_items,
        ..a
    })
}

/// The sidebar index after a rebuild to `n` entries: the last one where it
/// was past the end.
pub open spec fn rebuilt_index(i: usize, n: int) -> usize {
    if i >= n && n > 0 {
        (n - 1) as usize
    } else {
        i
    }
}

/// An index kept below a count, or 0 where the count is 0.
pub open spec fn clamp_index(i: usize, n: int) -> usize {
    if n == 0 {
        0
    } else if i >= n {
        (n - 1) as usize
    } else {
        i
    }
}

/// The sidebar index brought back in range of a non-empty sidebar.
pub open spec fn fix_sidebar(a: App) -> App {
    let n = a.sidebar_entries@.len();
    App { selected_sidebar_index: if a.selected_sidebar_index >= n { (n - 1) as usize } else { a.selected_sidebar_index }, ..a }
}

/// A selected list entry selects its list.
pub open spec fn select_entry(a: App) -> App {
    match entry_at(a) {
        Some(EntryV::List(i)) => App { selected_list_index: i, ..a },
        _ => a,
    }
}

/// The list and row indices brought back in range of the selected view.
pub open spec fn clamp_rows(a: App) -> App {
    if in_tag_view(a) {
        App { selected_item_index: clamp_index(a.selected_item_index, tag_visible_rows(a).len() as int), ..a }
    } else if in_unassigned_view(a) {
        App { selected_item_index: clamp_index(a.selected_item_index, unassigned_visible_rows(a).len() as int), ..a }
    } else if lists_of(a).len() == 0 {
        App { selected_list_index: 0, selected_item_index: 0, ..a }
    } else {
        let nl = lists_of(a).len();
        let a3 = App { selected_list_index: if a.selected_list_index >= nl { (nl - 1) as usize } else { a.selected_list_index }, ..a };
        App { selected_item_index: clamp_index(a3.selected_item_index, visible_rows(a3).len() as int), ..a3 }
    }
}

/// The state with every selection index brought back in range.
pub open spec fn clamped(a: App) -> App {
    if a.sidebar_entries@.len() == 0 {
        App { selected_sidebar_index: 0, selected_list_index: 0, selected_item_index: 0, ..a }
    } else {
        clamp_rows(select_entry(fix_sidebar(a)))
    }
}

/// After the selection is brought back in range, the sidebar index names
/// an entry, if there is one, and the row index names a row shown, or is 0
/// where none is.
#[verifier::spinoff_prover]
#[verifier::rlimit(60)]
pub proof fn law_clamped_in_range(a: App)
    ensures
        clamped(a).sidebar_entries@.len() > 0 ==> clamped(a).selected_sidebar_index < clamped(a).sidebar_entries@.len(),
        current_rows(clamped(a)).len() == 0 ==> clamped(a).selected_item_index == 0,
        current_rows(clamped(a)).len() > 0 ==> clamped(a).selected_item_index < current_rows(clamped(a)).len(),
{
    let c = clamped(a);
    if a.sidebar_entries@.len() > 0 {
        let b = select_entry(fix_sidebar(a));
        assert(c.sidebar_entries == b.sidebar_entries && c.selected_sidebar_index == b.selected_sidebar_index);
        assert(entry_at(c) == entry_at(b));
        if in_tag_view(b) {
            assert(tag_of_view(c) == tag_of_view(b));
        } else if in_unassigned_view(b) {
        } else if lists_of(b).len() > 0 {
            let nl = lists_of(b).len();
            let a3 = App { selected_list_index: if b.selected_list_index >= nl { (nl - 1) as usize } else { b.selected_list_index }, ..b };
            assert(c.doc == a3.doc && c.selected_list_index == a3.selected_list_index && c.filter_tags == a3.filter_tags && c.show_done == a3.show_done);
            assert(selected_list_spec(c) == selected_list_spec(a3));
            assert(visible_rows(c) == visible_rows(a3));
        }
    }
}

/// Every list entry of the sidebar names a list of the document.
pub open spec fn entries_in_range(a: App) -> bool {
    forall|k: int| 0 <= k < a.sidebar_entries@.len() ==> match (#[trigger] a.sidebar_entries@[k])@ {
        EntryV::List(i) => i < lists_of(a).len(),
        _ => true,
    }
}

proof fn lemma_clamp_index_twice(i: usize, n: int)
    requires
        0 <= n,
    ensures
        clamp_index(clamp_index(i, n), n) == clamp_index(i, n),
{
}

/// Bringing the selection back in range a second time changes nothing,
/// where every list entry of the sidebar names a list of the document.
#[verifier::spinoff_prover]
#[verifier::rlimit(100)]
pub proof fn law_clamp_twice(a: App)
    requires
        entries_in_range(a),
    ensures
        clamped(clamped(a)) == clamped(a),
{
    let c = clamped(a);
    if a.sidebar_entries@.len() > 0 {
        let f = fix_sidebar(a);
        let b = select_entry(f);
        law_clamped_in_range(a);
        assert(fix_sidebar(c) == c);
        assert(entry_at(f) is Some);
        assert(entry_at(b) == entry_at(f));
        assert(entry_at(c) == entry_at(b));
        assert(lists_of(c) == lists_of(b));
        assert(lists_of(b) == lists_of(a));
        let nl = lists_of(a).len();
        match entry_at(f) {
            Some(EntryV::List(i)) => {
                assert(f.sidebar_entries@[f.selected_sidebar_index as int]@ == EntryV::List(i));
                assert(i < nl);
                assert(b.selected_list_index == i);
                assert(select_entry(c) == c);
                assert(visible_rows(c) == visible_rows(b));
                lemma_clamp_index_twice(b.selected_item_index, visible_rows(b).len() as int);
            },
            Some(EntryV::Tag(t)) => {
                assert(b == f);
                assert(select_entry(c) == c);
                assert(tag_of_view(c) == tag_of_view(b));
                assert(tag_visible_rows(c) == tag_visible_rows(b));
                lemma_clamp_index_twice(b.selected_item_index, tag_visible_rows(b).len() as int);
            },
            Some(EntryV::Unassigned) => {
                assert(b == f);
                assert(select_entry(c) == c);
                assert(unassigned_visible_rows(c) == unassigned_visible_rows(b));
                lemma_clamp_index_twice(b.selected_item_index, unassigned_visible_rows(b).len() as int);
            },
            None => {},
        }
    }
}

/// `b` is `a` with a snapshot of `a` pushed on the undo stack and the redo
/// stack emptied.
pub open spec fn pushed_undo(a: App, b: App) -> bool {
    &&& snaps_view(b.undo_stack@) == snaps_view(a.undo_stack@).push(snap_of(a))
    &&& b.redo_stack@.len() == 0
}

/// `b` is `a` after an undoable edit that leaves document `d`: a snapshot
/// of `a` is on the undo stack, the document is to be written, nothing else
/// changed.
pub open spec fn doc_edit(a: App, b: App, d: DocV) -> bool {
    &&& pushed_undo(a, b)
    &&& b.doc@ == d
    &&& b == (App {
        doc: b.doc,
        undo_stack: b.undo_stack,
        redo_stack: b.redo_stack,
        dirty: true,
        needs_full_reconcile: true,
        ..a
    })
}

/// As `doc_edit`, and the sidebar is rebuilt from the new document.
pub open spec fn doc_edit_rebuilt(a: App, b: App, d: DocV) -> bool {
    &&& pushed_undo(a, b)
    &&& b.doc@ == d
    &&& entries_view(b.sidebar_entries@) == sidebar_spec(d)
    &&& b.selected_sidebar_index == rebuilt_index(a.selected_sidebar_index, b.sidebar_entries@.len() as int)
    &&& b == (App {
        doc: b.doc,
        undo_stack: b.undo_stack,
        redo_stack: b.redo_stack,
        sidebar_entries: b.sidebar_entries,
        selected_sidebar_index: b.selected_sidebar_index,
        dirty: true,
        needs_full_reconcile: true,
        ..a
    })
}

/// The document with the item under `id` replaced.
pub open spec fn with_item(d: DocV, id: Seq<char>, r: ItemRec) -> DocV {
    DocV { items: d.items.insert(id, r), lists: d.lists }
}

/// The document with the list under `id` replaced.
pub open spec fn with_list(d: DocV, id: Seq<char>, r: ListRec) -> DocV {
    DocV { items: d.items, lists: d.lists.insert(id, r) }
}

impl App {
    // -----------------------------------------------------------------------
    // Queries
    // -----------------------------------------------------------------------

    /// The id of the selected list.
    pub fn selected_list_id(&self) -> (r: Option<String>)
        requires
            self.doc.wf(),
        ensures
            opt_view(r) == selected_list_spec(*self),
            crate::crdt::lists_exactly(self.doc@.lists, lists_of(*self)),
    {
        let lists = self.doc.ordered_lists();
        if self.selected_list_index < lists.len() {
            assert(lists@[self.selected_list_index as int]@ == list_refs_view(lists@)[self.selected_list_index as int]);
            Some(lists[self.selected_list_index].id.clone())
        } else {
            None
        }
    }

    /// The selected list.
    pub fn current_list(&self) -> (r: Option<&CrdtList>)
        requires
            self.doc.wf(),
        ensures
            match r {
                Some(l) => self.selected_list_index < lists_of(*self).len() && l@ == lists_of(*self)[self.selected_list_index as int],
                None => self.selected_list_index >= lists_of(*self).len(),
            },
    {
        let lists = self.doc.ordered_lists();
        if self.selected_list_index < lists.len() {
            assert(lists@[self.selected_list_index as int]@ == list_refs_view(lists@)[self.selected_list_index as int]);
            Some(lists[self.selected_list_index])
        } else {
            None
        }
    }

    /// The selected sidebar entry.
    pub fn selected_sidebar_entry(&self) -> (r: Option<&SidebarEntry>)
        ensures
            match r {
                Some(e) => entry_at(*self) == Some(e@),
                None => entry_at(*self).is_none(),
            },
    {
        if self.selected_sidebar_index < self.sidebar_entries.len() {
            Some(&self.sidebar_entries[self.selected_sidebar_index])
        } else {
            None
        }
    }

    /// A tag view is selected.
    pub fn is_tag_view(&self) -> (r: bool)
        ensures
            r == in_tag_view(*self),
    {
        match self.selected_sidebar_entry() {
            Some(SidebarEntry::Tag(_)) => true,
            _ => false,
        }
    }

    /// The view of items without a list is selected.
    pub fn is_unassigned_view(&self) -> (r: bool)
        ensures
            r == in_unassigned_view(*self),
    {
        match self.selected_sidebar_entry() {
            Some(SidebarEntry::Unassigned) => true,
            _ => false,
        }
    }

    /// A view that is not a list is selected.
    pub fn is_virtual_view(&self) -> (r: bool)
        ensures
            r == (in_tag_view(*self) || in_unassigned_view(*self)),
    {
        self.is_tag_view() || self.is_unassigned_view()
    }

    /// The tag whose view is selected.
    pub fn selected_tag_name(&self) -> (r: Option<&str>)
        ensures
            match r {
                Some(t) => tag_of_view(*self) == Some(t@),
                None => tag_of_view(*self).is_none(),
            },
    {
        match self.selected_sidebar_entry() {
            Some(SidebarEntry::Tag(name)) => Some(name.as_str()),
            _ => None,
        }
    }

    /// The rows of the selected list: open items first, then done ones if
    /// they are shown, those that fail the tag filter left out.
    pub fn visible_items(&self) -> (r: Vec<(&str, &CrdtItem)>)
        requires
            self.doc.wf(),
        ensures
            pair_rows(r@) == visible_rows(*self),
            pairs_ok(r@),
            rows_in(self.doc@.items, pair_rows(r@)),
    {
        reveal(rows_for_list);
        let list_id = match self.selected_list_id() {
            Some(id) => id,
            None => {
                assert(pair_rows(Seq::<(&str, &CrdtItem)>::empty()) =~= Seq::<ItemRec>::empty());
                return Vec::new();
            },
        };
        let items = self.doc.items_for_list(list_id.as_str());
        let r = split_items(items, &self.filter_tags, self.show_done);
        proof {
            lemma_split_in(self.doc@.items, items@, r@);
        }
        r
    }

    /// The rows of the selected tag view.
    pub fn tag_visible_items(&self) -> (r: Vec<(&str, &CrdtItem)>)
        requires
            self.doc.wf(),
        ensures
            pair_rows(r@) == tag_visible_rows(*self),
            pairs_ok(r@),
            rows_in(self.doc@.items, pair_rows(r@)),
    {
        reveal(rows_for_tag);
        let tag = match self.selected_tag_name() {
            Some(t) => t,
            None => {
                assert(pair_rows(Seq::<(&str, &CrdtItem)>::empty()) =~= Seq::<ItemRec>::empty());
                return Vec::new();
            },
        };
        let items = self.doc.items_for_tag(tag);
        let none: Vec<String> = Vec::new();
        assert(strings_view(none@) =~= Seq::<Seq<char>>::empty());
        let r = split_items(items, &none, self.show_done);
        proof {
            lemma_split_in(self.doc@.items, items@, r@);
        }
        r
    }

    /// The rows of the view of items without a list.
    pub fn unassigned_visible_items(&self) -> (r: Vec<(&str, &CrdtItem)>)
        requires
            self.doc.wf(),
        ensures
            pair_rows(r@) == unassigned_visible_rows(*self),
            pairs_ok(r@),
            rows_in(self.doc@.items, pair_rows(r@)),
    {
        reveal(rows_unassigned);
        let items = self.doc.unassigned_items();
        let none: Vec<String> = Vec::new();
        assert(strings_view(none@) =~= Seq::<Seq<char>>::empty());
        let r = split_items(items, &none, self.show_done);
        proof {
            lemma_split_in(self.doc@.items, items@, r@);
        }
        r
    }

    /// The rows the main pane shows.
    pub fn current_items(&self) -> (r: Vec<(&str, &CrdtItem)>)
        requires
            self.doc.wf(),
        ensures
            pair_rows(r@) == current_rows(*self),
            pairs_ok(r@),
            rows_in(self.doc@.items, pair_rows(r@)),
    {
        if self.is_tag_view() {
            self.tag_visible_items()
        } else if self.is_unassigned_view() {
            self.unassigned_visible_items()
        } else {
            self.visible_items()
        }
    }

    /// The rows that moving the selection counts.
    fn nav_count(&self) -> (r: usize)
        requires
            self.doc.wf(),
        ensures
            r == nav_rows(*self).len(),
    {
        if self.is_tag_view() {
            self.tag_visible_items().len()
        } else {
            self.visible_items().len()
        }
    }

    /// The id of the item on the selected row.
    pub fn resolve_selected_item(&self) -> (r: Option<String>)
        requires
            self.doc.wf(),
        ensures
            opt_view(r) == selected_item_spec(*self),
            current_rows(*self).len() <= usize::MAX,
            r matches Some(id) ==> self.doc@.items.contains_key(id@)
                && self.doc@.items[id@] == current_rows(*self)[self.selected_item_index as int],
    {
        let rows = self.current_items();
        if self.selected_item_index < rows.len() {
            assert(pair_rows(rows@)[self.selected_item_index as int] == rows@[self.selected_item_index as int].1@);
            Some(rows[self.selected_item_index].0.to_owned())
        } else {
            None
        }
    }

    // -----------------------------------------------------------------------
    // Navigation
    // -----------------------------------------------------------------------

    fn sync_sidebar_selection(&mut self)
        ensures
            synced(*old(self), old(self).selected_sidebar_index, *final(self)),
    {
        match self.sidebar_entries.get(self.selected_sidebar_index) {
            Some(SidebarEntry::List(i)) => {
                self.selected_list_index = *i;
            },
            _ => {},
        }
        self.selected_item_index = 0;
        self.filter_tags = Vec::new();
        self.selected_items = Vec::new();
    }

    /// Selects the first sidebar entry, or the first row.
    pub fn jump_to_first(&mut self)
        ensures
            jumped_first(*old(self), *final(self)),
    {
        match self.active_pane {
            Pane::Sidebar => {
                if self.selected_sidebar_index != 0 {
                    self.selected_sidebar_index = 0;
                    self.sync_sidebar_selection();
                }
            },
            Pane::Main => {
                self.selected_item_index = 0;
            },
        }
    }

    /// Moves the selection down by a page, stopping at the last entry or
    /// row.
    pub fn page_down(&mut self, page_size: usize)
        requires
            old(self).doc.wf(),
        ensures
            paged_down(*old(self), *final(self), page_size),
    {
        match self.active_pane {
            Pane::Sidebar => {
                if self.sidebar_entries.len() > 0 {
                    let last = self.sidebar_entries.len() - 1;
                    let cur = self.selected_sidebar_index;
                    let target = if cur < last && page_size < last - cur { cur + page_size } else { last };
                    if target != cur {
                        self.selected_sidebar_index = target;
                        self.sync_sidebar_selection();
                    }
                }
            },
            Pane::Main => {
                let count = self.nav_count();
                if count > 0 {
                    let last = count - 1;
                    let cur = self.selected_item_index;
                    self.selected_item_index = if cur < last && page_size < last - cur { cur + page_size } else { last };
                }
            },
        }
    }

    /// Moves the selection up by a page, stopping at the first entry or
    /// row.
    pub fn page_up(&mut self, page_size: usize)
        ensures
            paged_up(*old(self), *final(self), page_size),
    {
        match self.active_pane {
            Pane::Sidebar => {
                let target = self.selected_sidebar_index.saturating_sub(page_size);
                if target != self.selected_sidebar_index {
                    self.selected_sidebar_index = target;
                    self.sync_sidebar_selection();
                }
            },
            Pane::Main => {
                self.selected_item_index = self.selected_item_index.saturating_sub(page_size);
            },
        }
    }

    /// Selects the last sidebar entry, or the last row.
    pub fn jump_to_last(&mut self)
        requires
            old(self).doc.wf(),
        ensures
            jumped_last(*old(self), *final(self)),
    {
        match self.active_pane {
            Pane::Sidebar => {
                if self.sidebar_entries.len() > 0 {
                    let last = self.sidebar_entries.len() - 1;
                    if self.selected_sidebar_index != last {
                        self.selected_sidebar_index = last;
                        self.sync_sidebar_selection();
                    }
                }
            },
            Pane::Main => {
                let count = self.nav_count();
                if count > 0 {
                    self.selected_item_index = count - 1;
                }
            },
        }
    }

    /// Switches between the sidebar and the main pane at time `now`.
    pub fn toggle_pane_at(&mut self, now: u64)
        ensures
            final(self).active_pane == (match old(self).active_pane {
                Pane::Sidebar => Pane::Main,
                Pane::Main => Pane::Sidebar,
            }),
            final(self).selected_items@.len() == 0,
            *final(self) == (App {
                active_pane: final(self).active_pane,
                selected_items: final(self).selected_items,
                pane_switch_at: Some(now),
                ..*old(self)
            }),
    {
        self.active_pane = match self.active_pane {
            Pane::Sidebar => Pane::Main,
            Pane::Main => Pane::Sidebar,
        };
        self.selected_items = Vec::new();
        self.pane_switch_at = Some(now);
    }

    /// Switches between the sidebar and the main pane, noting the time.
    pub fn toggle_pane(&mut self)
        ensures
            final(self).active_pane == (match old(self).active_pane {
                Pane::Sidebar => Pane::Main,
                Pane::Main => Pane::Sidebar,
            }),
            final(self).selected_items@.len() == 0,
            final(self).pane_switch_at.is_some(),
            *final(self) == (App {
                active_pane: final(self).active_pane,
                selected_items: final(self).selected_items,
                pane_switch_at: final(self).pane_switch_at,
                ..*old(self)
            }),
    {
        let now = self.clock_now();
        self.toggle_pane_at(now);
    }

    /// Moves the focus to the sidebar at time `now`.
    pub fn switch_to_sidebar_at(&mut self, now: u64)
        ensures
            if old(self).active_pane != Pane::Sidebar {
                &&& final(self).selected_items@.len() == 0
                &&& *final(self) == (App {
                    active_pane: Pane::Sidebar,
                    selected_items: final(self).selected_items,
                    pane_switch_at: Some(now),
                    ..*old(self)
                })
            } else {
                *final(self) == *old(self)
            },
    {
        if self.active_pane != Pane::Sidebar {
            self.active_pane = Pane::Sidebar;
            self.selected_items = Vec::new();
            self.pane_switch_at = Some(now);
        }
    }

    /// Moves the focus to the main pane at time `now`.
    pub fn switch_to_main_at(&mut self, now: u64)
        ensures
            if old(self).active_pane != Pane::Main {
                &&& final(self).selected_items@.len() == 0
                &&& *final(self) == (App {
                    active_pane: Pane::Main,
                    selected_items: final(self).selected_items,
                    pane_switch_at: Some(now),
                    ..*old(self)
                })
            } else {
                *final(self) == *old(self)
            },
    {
        if self.active_pane != Pane::Main {
            self.active_pane = Pane::Main;
            self.selected_items = Vec::new();
            self.pane_switch_at = Some(now);
        }
    }

    /// Moves the focus to the sidebar, stamped with the clock.
    pub fn switch_to_sidebar(&mut self)
        ensures
            if old(self).active_pane != Pane::Sidebar {
                &&& final(self).selected_items@.len() == 0
                &&& final(self).pane_switch_at.is_some()
                &&& *final(self) == (App {
                    active_pane: Pane::Sidebar,
                    selected_items: final(self).selected_items,
                    pane_switch_at: final(self).pane_switch_at,
                    ..*old(self)
                })
            } else {
                *final(self) == *old(self)
            },
    {
        if self.active_pane != Pane::Sidebar {
            let now = self.clock_now();
            self.switch_to_sidebar_at(now);
        }
    }

    /// Moves the focus to the main pane, stamped with the clock.
    pub fn switch_to_main(&mut self)
        ensures
            if old(self).active_pane != Pane::Main {
                &&& final(self).selected_items@.len() == 0
                &&& final(self).pane_switch_at.is_some()
                &&& *final(self) == (App {
                    active_pane: Pane::Main,
                    selected_items: final(self).selected_items,
                    pane_switch_at: final(self).pane_switch_at,
                    ..*old(self)
                })
            } else {
                *final(self) == *old(self)
            },
    {
        if self.active_pane != Pane::Main {
            let now = self.clock_now();
            self.switch_to_main_at(now);
        }
    }

    /// Moves the selection up by one.
    pub fn move_selection_up(&mut self)
        ensures
            selection_up(*old(self), *final(self)),
    {
        match self.active_pane {
            Pane::Sidebar => {
                if self.selected_sidebar_index > 0 {
                    self.selected_sidebar_index = self.selected_sidebar_index - 1;
                    self.sync_sidebar_selection();
                }
            },
            Pane::Main => {
                if self.selected_item_index > 0 {
                    self.selected_item_index = self.selected_item_index - 1;
                }
            },
        }
    }

    /// Moves the selection down by one.
    pub fn move_selection_down(&mut self)
        requires
            old(self).doc.wf(),
        ensures
            selection_down(*old(self), *final(self)),
    {
        match self.active_pane {
            Pane::Sidebar => {
                if self.selected_sidebar_index < self.sidebar_entries.len() && self.selected_sidebar_index + 1 < self.sidebar_entries.len() {
                    self.selected_sidebar_index = self.selected_sidebar_index + 1;
                    self.sync_sidebar_selection();
                }
            },
            Pane::Main => {
                let count = self.nav_count();
                if count > 0 && self.selected_item_index < count - 1 {
                    self.selected_item_index = self.selected_item_index + 1;
                }
            },
        }
    }

    fn clamp_to_tag_rows(&mut self)
        requires
            old(self).doc.wf(),
        ensures
            *final(self) == (App { selected_item_index: clamp_index(old(self).selected_item_index, tag_visible_rows(*old(self)).len() as int), ..*old(self) }),
    {
        let n = self.tag_visible_items().len();
        if n == 0 {
            self.selected_item_index = 0;
        } else if self.selected_item_index >= n {
            self.selected_item_index = n - 1;
        }
    }

    fn clamp_to_unassigned_rows(&mut self)
        requires
            old(self).doc.wf(),
        ensures
            *final(self) == (App { selected_item_index: clamp_index(old(self).selected_item_index, unassigned_visible_rows(*old(self)).len() as int), ..*old(self) }),
    {
        let n = self.unassigned_visible_items().len();
        if n == 0 {
            self.selected_item_index = 0;
        } else if self.selected_item_index >= n {
            self.selected_item_index = n - 1;
        }
    }

    fn clamp_to_list_rows(&mut self)
        requires
            old(self).doc.wf(),
        ensures
            *final(self) == (App { selected_item_index: clamp_index(old(self).selected_item_index, visible_rows(*old(self)).len() as int), ..*old(self) }),
    {
        let n = self.visible_items().len();
        if n == 0 {
            self.selected_item_index = 0;
        } else if self.selected_item_index >= n {
            self.selected_item_index = n - 1;
        }
    }

    pub fn num_lists(&self) -> (r: usize)
        requires
            self.doc.wf(),
        ensures
            r == lists_of(*self).len(),
            crate::crdt::lists_exactly(self.doc@.lists, lists_of(*self)),
    {
        let lists = self.doc.ordered_lists();
        assert(list_refs_view(lists@).len() == lists@.len());
        lists.len()
    }

    /// The clock: whole seconds since `clock_base` on the monotonic clock.
    pub fn clock_now(&self) -> u64 {
        secs_since(&self.clock_base)
    }

    /// The list at place `n` in display order.
    pub fn nth_list(&self, n: usize) -> (r: Option<&CrdtList>)
        requires
            self.doc.wf(),
        ensures
            match r {
                Some(l) => n < lists_of(*self).len() && l@ == lists_of(*self)[n as int],
                None => n >= lists_of(*self).len(),
            },
    {
        let lists = self.doc.ordered_lists();
        assert(list_refs_view(lists@).len() == lists@.len());
        if n < lists.len() {
            assert(list_refs_view(lists@)[n as int] == lists@[n as int]@);
            Some(lists[n])
        } else {
            None
        }
    }

    /// The items of the list at place `n` in display order, in display
    /// order; none where there is no such list.
    pub fn items_for_nth_list(&self, n: usize) -> (r: Vec<&CrdtItem>)
        requires
            self.doc.wf(),
        ensures
            item_refs_view(r@) == (if n < lists_of(*self).len() {
                list_rows(self.doc@.items, lists_of(*self)[n as int].id)
            } else {
                Seq::empty()
            }),
    {
        match self.nth_list(n) {
            Some(l) => self.doc.items_for_list(l.id.as_str()),
            None => {
                let r: Vec<&CrdtItem> = Vec::new();
                assert(item_refs_view(r@) =~= Seq::empty());
                r
            },
        }
    }

    /// The id of item `item_n` of the list at place `list_n`.
    pub fn item_id_in_list(&self, list_n: usize, item_n: usize) -> (r: String)
        requires
            self.doc.wf(),
            list_n < lists_of(*self).len(),
            item_n < list_rows(self.doc@.items, lists_of(*self)[list_n as int].id).len(),
        ensures
            r@ == list_rows(self.doc@.items, lists_of(*self)[list_n as int].id)[item_n as int].id,
    {
        let items = self.items_for_nth_list(list_n);
        assert(item_refs_view(items@)[item_n as int] == items@[item_n as int]@);
        items[item_n].id.clone()
    }

    fn clamp_rows_exec(&mut self)
        requires
            old(self).doc.wf(),
        ensures
            *final(self) == clamp_rows(*old(self)),
    {
        if self.is_tag_view() {
            self.clamp_to_tag_rows();
        } else if self.is_unassigned_view() {
            self.clamp_to_unassigned_rows();
        } else {
            let num_lists = self.num_lists();
            if num_lists == 0 {
                self.selected_list_index = 0;
                self.selected_item_index = 0;
                return;
            }
            if self.selected_list_index >= num_lists {
                self.selected_list_index = num_lists - 1;
            }
            self.clamp_to_list_rows();
        }
    }

    /// Brings every selection index back in range.
    pub fn clamp_selection(&mut self)
        requires
            old(self).doc.wf(),
        ensures
            *final(self) == clamped(*old(self)),
    {
        if self.sidebar_entries.len() == 0 {
            self.selected_sidebar_index = 0;
            self.selected_list_index = 0;
            self.selected_item_index = 0;
            return;
        }
        let ghost a = *self;
        if self.selected_sidebar_index >= self.sidebar_entries.len() {
            self.selected_sidebar_index = self.sidebar_entries.len() - 1;
        }
        assert(*self == fix_sidebar(a));
        let ghost a1 = *self;
        match self.sidebar_entries.get(self.selected_sidebar_index) {
            Some(SidebarEntry::List(i)) => {
                self.selected_list_index = *i;
            },
            _ => {},
        }
        assert(*self == select_entry(a1));
        self.clamp_rows_exec();
    }
}


// ---------------------------------------------------------------------------
// Undo and redo
// ---------------------------------------------------------------------------

/// `b` is `a` after undo: the last snapshot comes back, the state it
/// replaces goes on the redo stack, marks are cleared, the sidebar is
/// rebuilt; with nothing to undo, nothing changes.
pub open spec fn undone(a: App, b: App) -> bool {
    if a.undo_stack@.len() == 0 {
        b == a
    } else {
        let s = a.undo_stack@.last()@;
        &&& snaps_view(b.undo_stack@) == snaps_view(a.undo_stack@.drop_last())
        &&& snaps_view(b.redo_stack@) == snaps_view(a.redo_stack@).push(snap_of(a))
        &&& restored(a, b, s)
    }
}

/// `b` is `a` after redo: the last undone state comes back, the state it
/// replaces goes on the undo stack; with nothing to redo, nothing changes.
pub open spec fn redone(a: App, b: App) -> bool {
    if a.redo_stack@.len() == 0 {
        b == a
    } else {
        let s = a.redo_stack@.last()@;
        &&& snaps_view(b.redo_stack@) == snaps_view(a.redo_stack@.drop_last())
        &&& snaps_view(b.undo_stack@) == snaps_view(a.undo_stack@).push(snap_of(a))
        &&& restored(a, b, s)
    }
}

/// `b` is `a` with snapshot `s` restored.
pub open spec fn restored(a: App, b: App, s: SnapV) -> bool {
    &&& b.doc@ == s.doc
    &&& b.selected_list_index == s.selected_list_index
    &&& b.selected_item_index == s.selected_item_index
    &&& entries_view(b.sidebar_entries@) == sidebar_spec(s.doc)
    &&& b.selected_sidebar_index == rebuilt_index(s.selected_sidebar_index, b.sidebar_entries@.len() as int)
    &&& b.selected_items@.len() == 0
    &&& b == (App {
        doc: b.doc,
        undo_stack: b.undo_stack,
        redo_stack: b.redo_stack,
        selected_list_index: b.selected_list_index,
        selected_item_index: b.selected_item_index,
        sidebar_entries: b.sidebar_entries,
        selected_sidebar_index: b.selected_sidebar_index,
        selected_items: b.selected_items,
        dirty: true,
        needs_full_reconcile: true,
        ..a
    })
}

/// Undoing an edit gives back the document and the selection the edit
/// started from, and the undo stack it found.
pub proof fn law_undo_reverts_edit(before: App, after: App, back: App)
    requires
        pushed_undo(before, after),
        undone(after, back),
    ensures
        back.doc@ == before.doc@,
        back.selected_list_index == before.selected_list_index,
        back.selected_item_index == before.selected_item_index,
        snaps_view(back.undo_stack@) == snaps_view(before.undo_stack@),
{
    let u = after.undo_stack@;
    assert(snaps_view(u).len() == snaps_view(before.undo_stack@).len() + 1);
    assert(u.len() > 0);
    assert(snaps_view(u)[u.len() - 1] == u.last()@);
    assert(snaps_view(u.drop_last()) =~= snaps_view(u).drop_last());
    assert(snaps_view(u).drop_last() =~= snaps_view(before.undo_stack@));
}

/// Redoing right after an undo gives back the document and selection that
/// the undo replaced, and the redo stack as it was before the undo.
pub proof fn law_redo_reverts_undo(a: App, b: App, c: App)
    requires
        a.undo_stack@.len() > 0,
        undone(a, b),
        redone(b, c),
    ensures
        c.doc@ == a.doc@,
        c.selected_list_index == a.selected_list_index,
        c.selected_item_index == a.selected_item_index,
        snaps_view(c.redo_stack@) == snaps_view(a.redo_stack@),
{
    let r = b.redo_stack@;
    assert(snaps_view(r).len() == snaps_view(a.redo_stack@).len() + 1);
    assert(r.len() > 0);
    assert(snaps_view(r)[r.len() - 1] == r.last()@);
    assert(snaps_view(r.drop_last()) =~= snaps_view(r).drop_last());
    assert(snaps_view(r).drop_last() =~= snaps_view(a.redo_stack@));
}

impl App {
    fn snapshot(&self) -> (r: AppSnapshot)
        requires
            self.doc.wf(),
        ensures
            r@ == snap_of(*self),
            r.doc.wf(),
    {
        AppSnapshot {
            doc: self.doc.copy(),
            selected_list_index: self.selected_list_index,
            selected_item_index: self.selected_item_index,
            selected_sidebar_index: self.selected_sidebar_index,
        }
    }

    fn push_undo(&mut self)
        requires
            old(self).wf(),
        ensures
            final(self).wf(),
            pushed_undo(*old(self), *final(self)),
            *final(self) == (App { undo_stack: final(self).undo_stack, redo_stack: final(self).redo_stack, ..*old(self) }),
    {
        let snap = self.snapshot();
        let ghost u = self.undo_stack@;
        self.undo_stack.push(snap);
        self.redo_stack = Vec::new();
        assert(snaps_view(self.undo_stack@) =~= snaps_view(u).push(snap_of(*old(self))));
    }

    fn restore_snapshot(&mut self, snap: AppSnapshot)
        requires
            snap.doc.wf(),
        ensures
            final(self).doc == snap.doc,
            final(self).selected_list_index == snap.selected_list_index,
            final(self).selected_item_index == snap.selected_item_index,
            entries_view(final(self).sidebar_entries@) == sidebar_spec(snap.doc@),
            final(self).selected_sidebar_index == rebuilt_index(snap.selected_sidebar_index, final(self).sidebar_entries@.len() as int),
            *final(self) == (App {
                doc: final(self).doc,
                selected_list_index: final(self).selected_list_index,
                selected_item_index: final(self).selected_item_index,
                sidebar_entries: final(self).sidebar_entries,
                selected_sidebar_index: final(self).selected_sidebar_index,
                ..*old(self)
            }),
    {
        self.doc = snap.doc;
        self.selected_list_index = snap.selected_list_index;
        self.selected_item_index = snap.selected_item_index;
        self.selected_sidebar_index = snap.selected_sidebar_index;
        self.rebuild_sidebar_entries();
    }

    fn save_doc(&mut self)
        ensures
            *final(self) == (App { dirty: true, needs_full_reconcile: true, ..*old(self) }),
    {
        self.dirty = true;
        self.needs_full_reconcile = true;
    }

    /// Brings back the state before the last edit.
    pub fn undo(&mut self)
        requires
            old(self).wf(),
        ensures
            final(self).wf(),
            undone(*old(self), *final(self)),
    {
        let ghost a = *self;
        if self.undo_stack.len() > 0 {
            let cur = self.snapshot();
            let ghost u = self.undo_stack@;
            let ghost r = self.redo_stack@;
            let snap = self.undo_stack.pop().unwrap();
            assert(snap == u.last());
            assert(u[u.len() - 1].doc.wf());
            self.redo_stack.push(cur);
            self.restore_snapshot(snap);
            self.selected_items = Vec::new();
            self.save_doc();
            assert(snaps_view(self.redo_stack@) =~= snaps_view(r).push(snap_of(a)));
            assert(snaps_view(self.undo_stack@) =~= snaps_view(u.drop_last()));
            assert forall|i: int| 0 <= i < self.undo_stack@.len() implies (#[trigger] self.undo_stack@[i]).doc.wf() by {
                assert(self.undo_stack@[i] == u[i]);
            }
            assert forall|i: int| 0 <= i < self.redo_stack@.len() implies (#[trigger] self.redo_stack@[i]).doc.wf() by {
                if i < r.len() {
                    assert(self.redo_stack@[i] == r[i]);
                }
            }
        }
    }

    /// Brings back the state the last undo replaced.
    pub fn redo(&mut self)
        requires
            old(self).wf(),
        ensures
            final(self).wf(),
            redone(*old(self), *final(self)),
    {
        let ghost a = *self;
        if self.redo_stack.len() > 0 {
            let cur = self.snapshot();
            let ghost u = self.undo_stack@;
            let ghost r = self.redo_stack@;
            let snap = self.redo_stack.pop().unwrap();
            assert(snap == r.last());
            assert(r[r.len() - 1].doc.wf());
            self.undo_stack.push(cur);
            self.restore_snapshot(snap);
            self.selected_items = Vec::new();
            self.save_doc();
            assert(snaps_view(self.undo_stack@) =~= snaps_view(u).push(snap_of(a)));
            assert(snaps_view(self.redo_stack@) =~= snaps_view(r.drop_last()));
            assert forall|i: int| 0 <= i < self.redo_stack@.len() implies (#[trigger] self.redo_stack@[i]).doc.wf() by {
                assert(self.redo_stack@[i] == r[i]);
            }
            assert forall|i: int| 0 <= i < self.undo_stack@.len() implies (#[trigger] self.undo_stack@[i]).doc.wf() by {
                if i < u.len() {
                    assert(self.undo_stack@[i] == u[i]);
                }
            }
        }
    }
}


// ---------------------------------------------------------------------------
// Editing items
// ---------------------------------------------------------------------------

/// One half step below `p`, kept within `i64`.
pub open spec fn half_below(p: int) -> int {
    if p - 1 < i64::MIN {
        i64::MIN as int
    } else {
        p - 1
    }
}

/// The tags of a new item: those at the end of its title, and the tag of
/// the selected tag view if it is not among them.
pub open spec fn new_item_tags(a: App, title: Seq<char>) -> Seq<Seq<char>> {
    let tags = crate::storage::extract_tags_spec(title).1;
    match tag_of_view(a) {
        Some(t) => if tags.contains(t) {
            tags
        } else {
            tags.push(t)
        },
        None => tags,
    }
}

/// The list of a new item: none in a tag view or the view of items without
/// a list, else the selected list.
pub open spec fn new_item_list(a: App) -> Option<Seq<char>> {
    if in_tag_view(a) || in_unassigned_view(a) {
        None
    } else {
        selected_list_spec(a)
    }
}

/// A new item goes just above the selected row, or after all items of its
/// list.
pub open spec fn new_item_position(a: App) -> int {
    match selected_item_spec(a) {
        Some(sid) => half_below(a.doc@.items[sid].position),
        None => crate::doc_ops::next_pos_of(a.doc@.items, new_item_list(a)),
    }
}

/// The item that `title` becomes under `id`.
pub open spec fn new_item(a: App, title: Seq<char>, id: Seq<char>) -> ItemRec {
    ItemRec {
        id,
        title: crate::storage::extract_tags_spec(title).0,
        done: false,
        tags: new_item_tags(a, title),
        time_secs: 0,
        list_id: new_item_list(a),
        position: new_item_position(a),
        archived: false,
    }
}

/// `b` is `a` after adding the item that `title` becomes under `id`: a
/// blank title changes nothing; otherwise the item goes in, the selection
/// stays on the row it was on, the sidebar is rebuilt.
pub open spec fn todo_added(a: App, b: App, title: Seq<char>, id: Seq<char>) -> bool {
    if crate::text::trim(title).len() == 0 {
        b == a
    } else {
        &&& b.selected_item_index == (if selected_item_spec(a).is_some() {
            a.selected_item_index + 1
        } else {
            a.selected_item_index as int
        })
        &&& doc_edit_rebuilt(a, App { selected_item_index: a.selected_item_index, ..b }, with_item(a.doc@, id, new_item(a, title, id)))
    }
}

/// The first index of `t` in `tags`.
pub open spec fn first_index(tags: Seq<Seq<char>>, t: Seq<char>) -> int {
    choose|i: int| 0 <= i < tags.len() && tags[i] == t && forall|j: int| 0 <= j < i ==> tags[j] != t
}

/// The tags with the first `t` removed, or with `t` added at the end.
pub open spec fn toggled_tags(tags: Seq<Seq<char>>, t: Seq<char>) -> Seq<Seq<char>> {
    if tags.contains(t) {
        tags.remove(first_index(tags, t))
    } else {
        tags.push(t)
    }
}

/// A word without its leading `@`, if it has one.
pub open spec fn strip_at(w: Seq<char>) -> Seq<char> {
    if w.len() > 0 && w[0] == '@' {
        w.drop_first()
    } else {
        w
    }
}

pub open spec fn nonempty() -> spec_fn(Seq<char>) -> bool {
    |w: Seq<char>| w.len() > 0
}

/// The tags typed in the tag editor: its words, each without a leading
/// `@`, the empty ones left out.
pub open spec fn typed_tags(s: Seq<char>) -> Seq<Seq<char>> {
    crate::text::words(s).map_values(|w: Seq<char>| strip_at(w)).filter(nonempty())
}

fn parse_typed_tags(s: &String) -> (r: Vec<String>)
    ensures
        strings_view(r@) == typed_tags(s@),
{
    let v = crate::text::chars_of(s.as_str());
    let ws = crate::text::split_whitespace(&v);
    let ghost st = crate::text::words(s@).map_values(|w: Seq<char>| strip_at(w));
    let mut out: Vec<String> = Vec::new();
    let mut k: usize = 0;
    while k < ws.len()
        invariant
            k <= ws.len(),
            crate::text::views(ws@) == crate::text::words(s@),
            st == crate::text::words(s@).map_values(|w: Seq<char>| strip_at(w)),
            strings_view(out@) == st.take(k as int).filter(nonempty()),
        decreases ws.len() - k,
    {
        proof {
            lemma_filter_take(st, nonempty(), k as int);
            assert(st[k as int] == strip_at(ws@[k as int]@));
        }
        let w = &ws[k];
        let stripped = if w.len() > 0 && w[0] == '@' {
            crate::text::sub_chars(w, 1, w.len())
        } else {
            crate::text::sub_chars(w, 0, w.len())
        };
        assert(stripped@ == strip_at(w@)) by {
            if w@.len() > 0 && w@[0] == '@' {
                assert(w@.subrange(1, w@.len() as int) =~= w@.drop_first());
            } else {
                assert(w@.subrange(0, w@.len() as int) =~= w@);
            }
        }
        if stripped.len() > 0 {
            let ghost before = out@;
            out.push(crate::text::string_of(stripped.as_slice()));
            assert(strings_view(out@) =~= strings_view(before).push(stripped@));
        }
        k = k + 1;
    }
    assert(st.take(ws.len() as int) == st);
    out
}

impl App {
    /// The selected item, copied, with its id.
    fn selected_copy(&self) -> (r: Option<CrdtItem>)
        requires
            self.doc.wf(),
        ensures
            match selected_item_spec(*self) {
                Some(id) => r matches Some(it) && self.doc@.items.contains_key(id) && it@ == self.doc@.items[id] && it.id@ == id
                    && self.selected_item_index < usize::MAX,
                None => r.is_none(),
            },
    {
        match self.resolve_selected_item() {
            Some(id) => match self.doc.get_item(id.as_str()) {
                Some(it) => Some(it.copy()),
                None => None,
            },
            None => None,
        }
    }

    /// Marks the selected item done, or not done.
    pub fn toggle_done(&mut self)
        requires
            old(self).wf(),
        ensures
            final(self).wf(),
            done_toggled(*old(self), *final(self)),
    {
        match self.selected_copy() {
            Some(mut it) => {
                self.push_undo();
                it.done = !it.done;
                crate::crdt::item_put(&mut self.doc.items, it);
                self.save_doc();
            },
            None => {},
        }
    }

    /// Adds the tag to the selected item, or removes its first occurrence.
    #[verifier::spinoff_prover]
    #[verifier::rlimit(40)]
    pub fn toggle_tag(&mut self, tag: &str)
        requires
            old(self).wf(),
        ensures
            final(self).wf(),
            tag_toggled(*old(self), *final(self), tag@),
    {
        match self.selected_copy() {
            Some(mut it) => {
                self.push_undo();
                let ghost tv = strings_view(it.tags@);
                let mut pos: usize = 0;
                while pos < it.tags.len() && !crate::text::str_eq(it.tags[pos].as_str(), tag)
                    invariant
                        pos <= it.tags.len(),
                        forall|j: int| 0 <= j < pos ==> it.tags@[j]@ != tag@,
                    decreases it.tags.len() - pos,
                {
                    pos = pos + 1;
                }
                if pos < it.tags.len() {
                    let ghost before = it.tags@;
                    it.tags.remove(pos);
                    proof {
                        assert(tv.contains(tag@)) by {
                            assert(tv[pos as int] == tag@);
                        }
                        let fi = first_index(tv, tag@);
                        assert(fi == pos) by {
                            assert(tv[pos as int] == tag@);
                            assert(forall|j: int| 0 <= j < pos ==> tv[j] != tag@);
                            if fi < pos {
                                assert(tv[fi] == tag@);
                            }
                            if fi > pos {
                                assert(tv[pos as int] != tag@);
                            }
                        }
                        assert(strings_view(it.tags@) =~= tv.remove(pos as int));
                    }
                } else {
                    let ghost before = it.tags@;
                    it.tags.push(tag.to_owned());
                    proof {
                        assert(!tv.contains(tag@)) by {
                            if tv.contains(tag@) {
                                let j = choose|j: int| 0 <= j < tv.len() && tv[j] == tag@;
                                assert(it.tags@[j]@ == tag@);
                            }
                        }
                        assert(strings_view(it.tags@) =~= tv.push(tag@));
                    }
                }
                crate::crdt::item_put(&mut self.doc.items, it);
                self.rebuild_sidebar_entries();
                self.save_doc();
            },
            None => {},
        }
    }

    /// Adds the item that `title` becomes, under the id `id`.
    #[verifier::spinoff_prover]
    #[verifier::rlimit(60)]
    pub fn add_todo_with_id(&mut self, title: String, id: String)
        requires
            old(self).wf(),
        ensures
            final(self).wf(),
            todo_added(*old(self), *final(self), title@, id@),
    {
        let t = crate::text::chars_of(title.as_str());
        if crate::text::trim_chars(&t).len() == 0 {
            return;
        }
        let ghost a = *self;
        self.push_undo();
        let (clean_title, mut tags) = crate::storage::extract_tags_pub(title.as_str());
        match self.selected_tag_name() {
            Some(tag) => {
                let mut present = false;
                let mut k: usize = 0;
                while k < tags.len()
                    invariant
                        k <= tags.len(),
                        present == exists|j: int| 0 <= j < k && (#[trigger] tags@[j])@ == tag@,
                    decreases tags.len() - k,
                {
                    if crate::text::str_eq(tags[k].as_str(), tag) {
                        present = true;
                    }
                    k = k + 1;
                }
                proof {
                    let tv = strings_view(tags@);
                    if present {
                        let j = choose|j: int| 0 <= j < tags@.len() && (#[trigger] tags@[j])@ == tag@;
                        assert(tv[j] == tag@);
                    }
                    if tv.contains(tag@) {
                        let j = choose|j: int| 0 <= j < tv.len() && tv[j] == tag@;
                        assert(tags@[j]@ == tag@);
                    }
                }
                if !present {
                    let ghost before = tags@;
                    tags.push(tag.to_owned());
                    assert(strings_view(tags@) =~= strings_view(before).push(tag@));
                }
            },
            None => {},
        }
        assert(strings_view(tags@) == new_item_tags(a, title@));
        let list_id = if self.is_tag_view() || self.is_unassigned_view() {
            None
        } else {
            self.selected_list_id()
        };
        assert(opt_view(list_id) == new_item_list(a));
        let sel = self.selected_copy();
        let position = match &sel {
            Some(it) => {
                if it.position == i64::MIN {
                    i64::MIN
                } else {
                    it.position - 1
                }
            },
            None => self.doc.next_position_in(&list_id),
        };
        assert(position == new_item_position(a));
        let item = CrdtItem {
            id,
            title: clean_title,
            done: false,
            tags,
            time_secs: 0,
            list_id,
            position,
            archived: false,
        };
        crate::crdt::item_put(&mut self.doc.items, item);
        if sel.is_some() {
            self.selected_item_index = self.selected_item_index + 1;
        }
        self.rebuild_sidebar_entries();
        self.save_doc();
    }

    /// Adds the item that `title` becomes, under a fresh id.
    pub fn add_todo(&mut self, title: String)
        requires
            old(self).wf(),
        ensures
            final(self).wf(),
            exists|id: Seq<char>| id.len() == 36 && #[trigger] todo_added(*old(self), *final(self), title@, id),
    {
        let id = new_id_for_item();
        let ghost idv = id@;
        self.add_todo_with_id(title, id);
        assert(todo_added(*old(self), *final(self), title@, idv));
    }

    /// Gives the selected item a new title.
    pub fn edit_todo_title(&mut self, new_title: String)
        requires
            old(self).wf(),
        ensures
            final(self).wf(),
            title_set(*old(self), *final(self), new_title@),
    {
        match self.selected_copy() {
            Some(mut it) => {
                self.push_undo();
                it.title = new_title;
                crate::crdt::item_put(&mut self.doc.items, it);
                self.save_doc();
            },
            None => {},
        }
    }

    /// Replaces the tags of the selected item by those typed.
    pub fn edit_todo_tags(&mut self, tags_str: String)
        requires
            old(self).wf(),
        ensures
            final(self).wf(),
            tags_set(*old(self), *final(self), tags_str@),
    {
        match self.selected_copy() {
            Some(mut it) => {
                self.push_undo();
                it.tags = parse_typed_tags(&tags_str);
                crate::crdt::item_put(&mut self.doc.items, it);
                self.rebuild_sidebar_entries();
                self.save_doc();
            },
            None => {},
        }
    }

    /// Sets the time recorded on the selected item.
    pub fn set_item_time(&mut self, secs: u64)
        requires
            old(self).wf(),
        ensures
            final(self).wf(),
            time_set(*old(self), *final(self), secs),
    {
        match self.selected_copy() {
            Some(mut it) => {
                self.push_undo();
                it.time_secs = secs;
                crate::crdt::item_put(&mut self.doc.items, it);
                self.save_doc();
            },
            None => {},
        }
    }
}


// ---------------------------------------------------------------------------
// Reordering items
// ---------------------------------------------------------------------------

/// The position of the `k`-th item after renumbering, in half steps,
/// kept within `i64`.
pub open spec fn rank_pos(k: int) -> int {
    if k < 0x4000_0000_0000_0000 {
        2 * k
    } else {
        i64::MAX as int
    }
}

/// `m` with the first `i` rows renumbered by rank.
pub open spec fn renum_items(m: Map<Seq<char>, ItemRec>, rs: Seq<ItemRec>, i: int) -> Map<Seq<char>, ItemRec>
    decreases i,
{
    if i <= 0 {
        m
    } else {
        renum_items(m, rs, i - 1).insert(rs[i - 1].id, ItemRec { position: rank_pos(i - 1), ..rs[i - 1] })
    }
}

/// `m` with the rows renumbered 0, 1, 2, ... in whole steps.
pub open spec fn renumbered_items(m: Map<Seq<char>, ItemRec>, rs: Seq<ItemRec>) -> Map<Seq<char>, ItemRec> {
    renum_items(m, rs, rs.len() as int)
}

/// `m` with the positions of the items `x` and `y` exchanged.
pub open spec fn swapped_items(m: Map<Seq<char>, ItemRec>, x: Seq<char>, y: Seq<char>) -> Map<Seq<char>, ItemRec> {
    m.insert(x, ItemRec { position: m[y].position, ..m[x] }).insert(y, ItemRec { position: m[x].position, ..m[y] })
}

/// The rows have distinct ids.
pub open spec fn distinct_ids(rs: Seq<ItemRec>) -> bool {
    forall|i: int, j: int| 0 <= i < j < rs.len() ==> (#[trigger] rs[i]).id != (#[trigger] rs[j]).id
}

proof fn lemma_renum_untouched(m: Map<Seq<char>, ItemRec>, rs: Seq<ItemRec>, i: int, j: int)
    requires
        distinct_ids(rs),
        0 <= i <= j < rs.len(),
    ensures
        renum_items(m, rs, i).contains_key(rs[j].id) == m.contains_key(rs[j].id),
        renum_items(m, rs, i)[rs[j].id] == m[rs[j].id],
    decreases i,
{
    if i > 0 {
        lemma_renum_untouched(m, rs, i - 1, j);
        assert(rs[i - 1].id != rs[j].id);
    }
}

proof fn lemma_renum_dom(m: Map<Seq<char>, ItemRec>, rs: Seq<ItemRec>, i: int)
    requires
        rows_in(m, rs),
        0 <= i <= rs.len(),
    ensures
        renum_items(m, rs, i).dom() == m.dom(),
    decreases i,
{
    if i > 0 {
        lemma_renum_dom(m, rs, i - 1);
        assert(m.contains_key(rs[i - 1].id));
        assert(renum_items(m, rs, i).dom() =~= m.dom());
    }
}

proof fn lemma_shown_distinct(m: Map<Seq<char>, ItemRec>, p: spec_fn(ItemRec) -> bool, rs: Seq<ItemRec>)
    requires
        crate::crdt::shows_exactly(m, p, rs),
    ensures
        distinct_ids(rs),
        rows_in(m, rs),
{
    assert forall|i: int, j: int| 0 <= i < j < rs.len() implies (#[trigger] rs[i]).id != (#[trigger] rs[j]).id by {
        assert(crate::crdt::item_before(rs[i], rs[j]));
        if rs[i].id == rs[j].id {
            assert(rs[i] == m[rs[i].id]);
            assert(rs[j] == m[rs[j].id]);
            crate::text::lemma_lex_lt_irreflexive(rs[i].id);
        }
    }
}

/// The rows of the list `l` with their ids, each cloned.
fn row_ids(rows: &Vec<&CrdtItem>) -> (r: Vec<String>)
    ensures
        r@.len() == rows@.len(),
        forall|k: int| 0 <= k < r@.len() ==> (#[trigger] r@[k])@ == rows@[k]@.id,
{
    let mut r: Vec<String> = Vec::new();
    let mut k: usize = 0;
    while k < rows.len()
        invariant
            k <= rows.len(),
            r@.len() == k,
            forall|q: int| 0 <= q < k ==> (#[trigger] r@[q])@ == rows@[q]@.id,
        decreases rows.len() - k,
    {
        r.push(rows[k].id.clone());
        k = k + 1;
    }
    r
}

/// `b` is `a` after moving the selected row one up within its list.
pub open spec fn item_moved_up(a: App, b: App) -> bool {
    let vis = visible_rows(a);
    let vi = a.selected_item_index;
    if in_tag_view(a) || in_unassigned_view(a) || selected_list_spec(a).is_none() || !(0 < vi < vis.len()) {
        b == a
    } else {
        let m = a.doc@.items;
        let cur = vis[vi as int].id;
        let other = vis[vi - 1].id;
        let m1 = if m[cur].position == m[other].position {
            renumbered_items(m, list_rows(m, selected_list_spec(a).unwrap()))
        } else {
            m
        };
        &&& pushed_undo(a, b)
        &&& b.doc@ == (DocV { items: swapped_items(m1, cur, other), lists: a.doc@.lists })
        &&& b == (App {
            doc: b.doc,
            undo_stack: b.undo_stack,
            redo_stack: b.redo_stack,
            selected_item_index: (vi - 1) as usize,
            dirty: true,
            needs_full_reconcile: true,
            ..a
        })
    }
}

/// `b` is `a` after moving the selected row one down within its list.
pub open spec fn item_moved_down(a: App, b: App) -> bool {
    let vis = visible_rows(a);
    let vi = a.selected_item_index;
    if in_tag_view(a) || in_unassigned_view(a) || selected_list_spec(a).is_none() || !(vi + 1 < vis.len()) {
        b == a
    } else {
        let m = a.doc@.items;
        let cur = vis[vi as int].id;
        let other = vis[vi + 1].id;
        let m1 = if m[cur].position == m[other].position {
            renumbered_items(m, list_rows(m, selected_list_spec(a).unwrap()))
        } else {
            m
        };
        &&& pushed_undo(a, b)
        &&& b.doc@ == (DocV { items: swapped_items(m1, cur, other), lists: a.doc@.lists })
        &&& b == (App {
            doc: b.doc,
            undo_stack: b.undo_stack,
            redo_stack: b.redo_stack,
            selected_item_index: (vi + 1) as usize,
            dirty: true,
            needs_full_reconcile: true,
            ..a
        })
    }
}

/// The least position among the rows.
pub open spec fn min_position(s: Seq<ItemRec>) -> int
    decreases s.len(),
{
    if s.len() <= 1 {
        if s.len() == 1 { s[0].position } else { 0 }
    } else {
        let p = min_position(s.drop_last());
        if s.last().position < p { s.last().position } else { p }
    }
}

/// The greatest position among the rows.
pub open spec fn max_position(s: Seq<ItemRec>) -> int
    decreases s.len(),
{
    if s.len() <= 1 {
        if s.len() == 1 { s[0].position } else { 0 }
    } else {
        let p = max_position(s.drop_last());
        if s.last().position > p { s.last().position } else { p }
    }
}

/// One whole step below `p`, kept within `i64`.
pub open spec fn step_below(p: int) -> int {
    if p - 2 < i64::MIN {
        i64::MIN as int
    } else {
        p - 2
    }
}

pub open spec fn not_done() -> spec_fn(ItemRec) -> bool {
    |i: ItemRec| !i.done
}

/// `b` is `a` after moving the selected row above all rows of its list.
pub open spec fn item_moved_to_top(a: App, b: App) -> bool {
    let vis = visible_rows(a);
    let vi = a.selected_item_index;
    if in_tag_view(a) || in_unassigned_view(a) || !(0 < vi < vis.len()) {
        b == a
    } else {
        let cur = vis[vi as int].id;
        &&& pushed_undo(a, b)
        &&& b.doc@ == with_item(a.doc@, cur, ItemRec { position: step_below(min_position(vis)), ..a.doc@.items[cur] })
        &&& b == (App {
            doc: b.doc,
            undo_stack: b.undo_stack,
            redo_stack: b.redo_stack,
            selected_item_index: 0,
            dirty: true,
            needs_full_reconcile: true,
            ..a
        })
    }
}

/// The index of the row with this id, if any.
pub open spec fn row_index(s: Seq<ItemRec>, id: Seq<char>) -> Option<int> {
    if exists|k: int| 0 <= k < s.len() && s[k].id == id {
        Some(choose|k: int| 0 <= k < s.len() && s[k].id == id && forall|j: int| 0 <= j < k ==> s[j].id != id)
    } else {
        None
    }
}

/// `b` is `a` after moving the selected open row below all open rows of
/// its list; the selection follows the row.
pub open spec fn item_moved_to_bottom(a: App, b: App) -> bool {
    let vis = visible_rows(a);
    let vi = a.selected_item_index;
    let open = vis.filter(not_done());
    if in_tag_view(a) || in_unassigned_view(a) || !(vi < vis.len()) || vi + 1 >= open.len() {
        b == a
    } else {
        let cur = vis[vi as int].id;
        let moved = App {
            doc: b.doc,
            undo_stack: b.undo_stack,
            redo_stack: b.redo_stack,
            dirty: true,
            needs_full_reconcile: true,
            ..a
        };
        &&& pushed_undo(a, b)
        &&& b.doc@ == with_item(a.doc@, cur, ItemRec { position: crate::doc_ops::step_after(max_position(open)), ..a.doc@.items[cur] })
        &&& b == (App {
            selected_item_index: match row_index(visible_rows(moved), cur) {
                Some(k) => k as usize,
                None => a.selected_item_index,
            },
            ..moved
        })
    }
}

impl App {
    fn renumber_item_positions_for_list(&mut self, list_id: &str)
        requires
            old(self).doc.wf(),
        ensures
            final(self).doc.wf(),
            final(self).doc@ == (DocV {
                items: renumbered_items(old(self).doc@.items, list_rows(old(self).doc@.items, list_id@)),
                lists: old(self).doc@.lists,
            }),
            final(self).doc@.items.dom() == old(self).doc@.items.dom(),
            *final(self) == (App { doc: final(self).doc, ..*old(self) }),
    {
        let ghost m0 = self.doc@.items;
        let ids = {
            let rows = self.doc.items_for_list(list_id);
            row_ids(&rows)
        };
        let ghost rs = list_rows(m0, list_id@);
        proof {
            lemma_shown_distinct(m0, |i: ItemRec| !i.archived && i.list_id == Some(list_id@), rs);
        }
        let mut i: usize = 0;
        while i < ids.len()
            invariant
                i <= ids.len(),
                ids@.len() == rs.len(),
                forall|k: int| 0 <= k < ids@.len() ==> (#[trigger] ids@[k])@ == rs[k].id,
                distinct_ids(rs),
                rows_in(m0, rs),
                self.doc.wf(),
                self.doc@.items == renum_items(m0, rs, i as int),
                self.doc@.lists == old(self).doc@.lists,
                *self == (App { doc: self.doc, ..*old(self) }),
            decreases ids.len() - i,
        {
            proof {
                lemma_renum_untouched(m0, rs, i as int, i as int);
                assert(ids@[i as int]@ == rs[i as int].id);
            }
            let mut it = match self.doc.get_item(ids[i].as_str()) {
                Some(x) => x.copy(),
                None => {
                    assert(false);
                    return;
                },
            };
            it.position = if (i as u64) < 0x4000_0000_0000_0000u64 { (i as i64) * 2 } else { i64::MAX };
            assert(it@ == (ItemRec { position: rank_pos(i as int), ..rs[i as int] }));
            crate::crdt::item_put(&mut self.doc.items, it);
            i = i + 1;
        }
        proof {
            lemma_renum_dom(m0, rs, rs.len() as int);
        }
    }

    /// Exchanges the positions of two items of the document.
    fn swap_item_positions(&mut self, x: &String, y: &String)
        requires
            old(self).doc.wf(),
            old(self).doc@.items.contains_key(x@),
            old(self).doc@.items.contains_key(y@),
        ensures
            final(self).doc.wf(),
            final(self).doc@ == (DocV { items: swapped_items(old(self).doc@.items, x@, y@), lists: old(self).doc@.lists }),
            *final(self) == (App { doc: final(self).doc, ..*old(self) }),
    {
        let mut a = match self.doc.get_item(x.as_str()) {
            Some(it) => it.copy(),
            None => {
                return;
            },
        };
        let mut b = match self.doc.get_item(y.as_str()) {
            Some(it) => it.copy(),
            None => {
                return;
            },
        };
        let pa = a.position;
        a.position = b.position;
        b.position = pa;
        crate::crdt::item_put(&mut self.doc.items, a);
        crate::crdt::item_put(&mut self.doc.items, b);
    }

    fn move_item_by_one(&mut self, up: bool)
        requires
            old(self).wf(),
        ensures
            final(self).wf(),
            up ==> item_moved_up(*old(self), *final(self)),
            !up ==> item_moved_down(*old(self), *final(self)),
    {
        if self.is_virtual_view() {
            return;
        }
        let list_id = match self.selected_list_id() {
            Some(id) => id,
            None => {
                return;
            },
        };
        let (cur_id, other_id) = {
            let visible = self.visible_items();
            let vi = self.selected_item_index;
            if up {
                if !(vi > 0 && vi < visible.len()) {
                    return;
                }
                assert(pair_rows(visible@)[vi as int] == visible@[vi as int].1@);
                assert(pair_rows(visible@)[vi - 1] == visible@[vi - 1].1@);
                (visible[vi].0.to_owned(), visible[vi - 1].0.to_owned())
            } else {
                if !(vi < visible.len() && vi + 1 < visible.len()) {
                    return;
                }
                assert(pair_rows(visible@)[vi as int] == visible@[vi as int].1@);
                assert(pair_rows(visible@)[vi + 1] == visible@[vi + 1].1@);
                (visible[vi].0.to_owned(), visible[vi + 1].0.to_owned())
            }
        };
        let ghost a = *self;
        let cur_pos = match self.doc.get_item(cur_id.as_str()) {
            Some(it) => it.position,
            None => {
                return;
            },
        };
        let other_pos = match self.doc.get_item(other_id.as_str()) {
            Some(it) => it.position,
            None => {
                return;
            },
        };
        self.push_undo();
        if cur_pos == other_pos {
            self.renumber_item_positions_for_list(list_id.as_str());
        }
        self.swap_item_positions(&cur_id, &other_id);
        if up {
            self.selected_item_index = self.selected_item_index - 1;
        } else {
            self.selected_item_index = self.selected_item_index + 1;
        }
        self.dirty = true;
        self.needs_full_reconcile = true;
    }

    /// Moves the selected row one up within its list.
    pub fn move_todo_up(&mut self)
        requires
            old(self).wf(),
        ensures
            final(self).wf(),
            item_moved_up(*old(self), *final(self)),
    {
        self.move_item_by_one(true);
    }

    /// Moves the selected row one down within its list.
    pub fn move_todo_down(&mut self)
        requires
            old(self).wf(),
        ensures
            final(self).wf(),
            item_moved_down(*old(self), *final(self)),
    {
        self.move_item_by_one(false);
    }
}


fn min_row_position(rows: &Vec<(&str, &CrdtItem)>) -> (r: i64)
    requires
        rows@.len() > 0,
    ensures
        r == min_position(pair_rows(rows@)),
{
    let ghost s = pair_rows(rows@);
    let mut mn = rows[0].1.position;
    let mut k: usize = 1;
    assert(s.take(1).len() == 1);
    while k < rows.len()
        invariant
            1 <= k <= rows.len(),
            s == pair_rows(rows@),
            mn == min_position(s.take(k as int)),
        decreases rows.len() - k,
    {
        assert(s.take(k + 1).drop_last() == s.take(k as int));
        assert(s.take(k + 1).last() == rows@[k as int].1@);
        if rows[k].1.position < mn {
            mn = rows[k].1.position;
        }
        k = k + 1;
    }
    assert(s.take(rows.len() as int) == s);
    mn
}

/// The number of open rows and the greatest position among them.
fn open_rows_max(rows: &Vec<(&str, &CrdtItem)>) -> (r: (usize, i64))
    ensures
        r.0 == pair_rows(rows@).filter(not_done()).len(),
        r.0 > 0 ==> r.1 == max_position(pair_rows(rows@).filter(not_done())),
{
    let ghost s = pair_rows(rows@);
    let mut cnt: usize = 0;
    let mut mx: i64 = 0;
    let mut k: usize = 0;
    while k < rows.len()
        invariant
            k <= rows.len(),
            s == pair_rows(rows@),
            cnt == s.take(k as int).filter(not_done()).len(),
            cnt <= k,
            cnt > 0 ==> mx == max_position(s.take(k as int).filter(not_done())),
        decreases rows.len() - k,
    {
        proof {
            lemma_filter_take(s, not_done(), k as int);
            assert(s[k as int] == rows@[k as int].1@);
        }
        if !rows[k].1.done {
            let ghost f = s.take(k as int).filter(not_done());
            assert(s.take(k + 1).filter(not_done()) == f.push(s[k as int]));
            assert(f.push(s[k as int]).drop_last() == f);
            if cnt == 0 || rows[k].1.position > mx {
                mx = rows[k].1.position;
            }
            cnt = cnt + 1;
        }
        k = k + 1;
    }
    assert(s.take(rows.len() as int) == s);
    (cnt, mx)
}

impl App {
    /// Moves the selected row above all rows of its list.
    pub fn move_todo_to_top(&mut self)
        requires
            old(self).wf(),
        ensures
            final(self).wf(),
            item_moved_to_top(*old(self), *final(self)),
    {
        if self.is_virtual_view() {
            return;
        }
        let (cur_id, min_pos) = {
            let visible = self.visible_items();
            let vi = self.selected_item_index;
            if !(vi > 0 && vi < visible.len()) {
                return;
            }
            assert(pair_rows(visible@)[vi as int] == visible@[vi as int].1@);
            (visible[vi].0.to_owned(), min_row_position(&visible))
        };
        let mut it = match self.doc.get_item(cur_id.as_str()) {
            Some(x) => x.copy(),
            None => {
                return;
            },
        };
        self.push_undo();
        it.position = if min_pos < i64::MIN + 2 { i64::MIN } else { min_pos - 2 };
        crate::crdt::item_put(&mut self.doc.items, it);
        self.selected_item_index = 0;
        self.dirty = true;
        self.needs_full_reconcile = true;
    }

    /// Moves the selected open row below all open rows of its list.
    #[verifier::spinoff_prover]
    #[verifier::rlimit(40)]
    pub fn move_todo_to_bottom(&mut self)
        requires
            old(self).wf(),
        ensures
            final(self).wf(),
            item_moved_to_bottom(*old(self), *final(self)),
    {
        if self.is_virtual_view() {
            return;
        }
        let (cur_id, max_pos) = {
            let visible = self.visible_items();
            let vi = self.selected_item_index;
            if vi >= visible.len() {
                return;
            }
            let (open, mx) = open_rows_max(&visible);
            if vi + 1 >= open {
                return;
            }
            assert(pair_rows(visible@)[vi as int] == visible@[vi as int].1@);
            (visible[vi].0.to_owned(), mx)
        };
        let mut it = match self.doc.get_item(cur_id.as_str()) {
            Some(x) => x.copy(),
            None => {
                return;
            },
        };
        self.push_undo();
        it.position = if max_pos > i64::MAX - 2 { i64::MAX } else { max_pos + 2 };
        crate::crdt::item_put(&mut self.doc.items, it);
        self.dirty = true;
        self.needs_full_reconcile = true;
        let ghost moved = *self;
        let found = {
            let visible = self.visible_items();
            let mut k: usize = 0;
            while k < visible.len() && !crate::text::str_eq(visible[k].0, cur_id.as_str())
                invariant
                    k <= visible@.len(),
                    pairs_ok(visible@),
                    forall|j: int| 0 <= j < k ==> pair_rows(visible@)[j].id != cur_id@,
                decreases visible.len() - k,
            {
                assert(pair_rows(visible@)[k as int] == visible@[k as int].1@);
                k = k + 1;
            }
            proof {
                let s = pair_rows(visible@);
                if k < visible@.len() {
                    assert(s[k as int] == visible@[k as int].1@);
                    assert(s[k as int].id == cur_id@);
                    let c = choose|c: int| 0 <= c < s.len() && s[c].id == cur_id@ && forall|j: int| 0 <= j < c ==> s[j].id != cur_id@;
                    if c < k {
                        assert(s[c].id != cur_id@);
                    }
                    if c > k {
                        assert(s[k as int].id != cur_id@);
                    }
                    assert(row_index(s, cur_id@) == Some(k as int));
                } else {
                    assert(row_index(s, cur_id@).is_none());
                }
            }
            if k < visible.len() {
                Some(k)
            } else {
                None
            }
        };
        match found {
            Some(k) => {
                self.selected_item_index = k;
            },
            None => {},
        }
    }
}


// ---------------------------------------------------------------------------
// Lists
// ---------------------------------------------------------------------------

/// `m` with the first `i` lists of `ls` renumbered by rank.
pub open spec fn renum_lists(m: Map<Seq<char>, ListRec>, ls: Seq<ListRec>, i: int) -> Map<Seq<char>, ListRec>
    decreases i,
{
    if i <= 0 {
        m
    } else {
        renum_lists(m, ls, i - 1).insert(ls[i - 1].id, ListRec { position: rank_pos(i - 1), ..ls[i - 1] })
    }
}

/// `m` with the positions of the lists `x` and `y` exchanged.
pub open spec fn swapped_lists(m: Map<Seq<char>, ListRec>, x: Seq<char>, y: Seq<char>) -> Map<Seq<char>, ListRec> {
    m.insert(x, ListRec { position: m[y].position, ..m[x] }).insert(y, ListRec { position: m[x].position, ..m[y] })
}

pub open spec fn lists_in(m: Map<Seq<char>, ListRec>, ls: Seq<ListRec>) -> bool {
    &&& forall|k: int| 0 <= k < ls.len() ==> m.contains_key(#[trigger] ls[k].id) && m[ls[k].id] == ls[k]
    &&& forall|i: int, j: int| 0 <= i < j < ls.len() ==> (#[trigger] ls[i]).id != (#[trigger] ls[j]).id
}

proof fn lemma_lists_in(m: Map<Seq<char>, ListRec>, ls: Seq<ListRec>)
    requires
        crate::crdt::lists_exactly(m, ls),
    ensures
        lists_in(m, ls),
{
    assert forall|i: int, j: int| 0 <= i < j < ls.len() implies (#[trigger] ls[i]).id != (#[trigger] ls[j]).id by {
        assert(crate::crdt::list_before(ls[i], ls[j]));
        if ls[i].id == ls[j].id {
            assert(ls[i] == m[ls[i].id]);
            crate::text::lemma_lex_lt_irreflexive(ls[i].id);
        }
    }
}

proof fn lemma_renum_lists_untouched(m: Map<Seq<char>, ListRec>, ls: Seq<ListRec>, i: int, j: int)
    requires
        lists_in(m, ls),
        0 <= i <= j < ls.len(),
    ensures
        renum_lists(m, ls, i).contains_key(ls[j].id),
        renum_lists(m, ls, i)[ls[j].id] == m[ls[j].id],
    decreases i,
{
    if i > 0 {
        lemma_renum_lists_untouched(m, ls, i - 1, j);
        assert(ls[i - 1].id != ls[j].id);
    }
}

proof fn lemma_renum_lists_dom(m: Map<Seq<char>, ListRec>, ls: Seq<ListRec>, i: int)
    requires
        lists_in(m, ls),
        0 <= i <= ls.len(),
    ensures
        renum_lists(m, ls, i).dom() == m.dom(),
    decreases i,
{
    if i > 0 {
        lemma_renum_lists_dom(m, ls, i - 1);
        assert(m.contains_key(ls[i - 1].id));
        assert(renum_lists(m, ls, i).dom() =~= m.dom());
    }
}

/// The least position among the lists.
pub open spec fn min_list_position(s: Seq<ListRec>) -> int
    decreases s.len(),
{
    if s.len() <= 1 {
        if s.len() == 1 { s[0].position } else { 0 }
    } else {
        let p = min_list_position(s.drop_last());
        if s.last().position < p { s.last().position } else { p }
    }
}

/// The greatest position among the lists.
pub open spec fn max_list_position(s: Seq<ListRec>) -> int
    decreases s.len(),
{
    if s.len() <= 1 {
        if s.len() == 1 { s[0].position } else { 0 }
    } else {
        let p = max_list_position(s.drop_last());
        if s.last().position > p { s.last().position } else { p }
    }
}

/// `b` is `a` after an undoable change of the lists to `d`, with list `li`
/// selected in the list and the sidebar, the sidebar rebuilt.
pub open spec fn lists_reordered(a: App, b: App, d: DocV, li: usize) -> bool {
    &&& pushed_undo(a, b)
    &&& b.doc@ == d
    &&& entries_view(b.sidebar_entries@) == sidebar_spec(d)
    &&& b == (App {
        doc: b.doc,
        undo_stack: b.undo_stack,
        redo_stack: b.redo_stack,
        selected_list_index: li,
        sidebar_entries: b.sidebar_entries,
        selected_sidebar_index: rebuilt_index(li, b.sidebar_entries@.len() as int),
        dirty: true,
        needs_full_reconcile: true,
        ..a
    })
}

/// `b` is `a` after moving the selected list one up (`up`) or down.
pub open spec fn list_moved(a: App, b: App, up: bool) -> bool {
    let ls = lists_of(a);
    let li = a.selected_list_index;
    if (up && !(0 < li < ls.len())) || (!up && !(li + 1 < ls.len())) {
        b == a
    } else {
        let m = a.doc@.lists;
        let cur = ls[li as int].id;
        let other = if up { ls[li - 1].id } else { ls[li + 1].id };
        let m1 = if m[cur].position == m[other].position {
            renum_lists(m, ls, ls.len() as int)
        } else {
            m
        };
        lists_reordered(a, b, DocV { items: a.doc@.items, lists: swapped_lists(m1, cur, other) }, (if up {
            li - 1
        } else {
            li + 1
        }) as usize)
    }
}

/// `b` is `a` after moving the selected list above all others.
pub open spec fn list_moved_to_top(a: App, b: App) -> bool {
    let ls = lists_of(a);
    let li = a.selected_list_index;
    if !(0 < li < ls.len()) {
        b == a
    } else {
        let cur = ls[li as int].id;
        lists_reordered(a, b, with_list(a.doc@, cur, ListRec { position: step_below(min_list_position(ls)), ..a.doc@.lists[cur] }), 0)
    }
}

/// `b` is `a` after moving the selected list below all others.
pub open spec fn list_moved_to_bottom(a: App, b: App) -> bool {
    let ls = lists_of(a);
    let li = a.selected_list_index;
    if !(li + 1 < ls.len()) {
        b == a
    } else {
        let cur = ls[li as int].id;
        lists_reordered(a, b, with_list(a.doc@, cur, ListRec {
            position: crate::doc_ops::step_after(max_list_position(ls)),
            ..a.doc@.lists[cur]
        }), (ls.len() - 1) as usize)
    }
}

fn list_positions_min_max(lists: &Vec<&CrdtList>) -> (r: (i64, i64))
    requires
        lists@.len() > 0,
    ensures
        r.0 == min_list_position(list_refs_view(lists@)),
        r.1 == max_list_position(list_refs_view(lists@)),
{
    let ghost s = list_refs_view(lists@);
    let mut mn = lists[0].position;
    let mut mx = lists[0].position;
    let mut k: usize = 1;
    assert(s.take(1).len() == 1);
    while k < lists.len()
        invariant
            1 <= k <= lists.len(),
            s == list_refs_view(lists@),
            mn == min_list_position(s.take(k as int)),
            mx == max_list_position(s.take(k as int)),
        decreases lists.len() - k,
    {
        assert(s.take(k + 1).drop_last() == s.take(k as int));
        assert(s.take(k + 1).last() == lists@[k as int]@);
        if lists[k].position < mn {
            mn = lists[k].position;
        }
        if lists[k].position > mx {
            mx = lists[k].position;
        }
        k = k + 1;
    }
    assert(s.take(lists.len() as int) == s);
    (mn, mx)
}

impl App {
    fn renumber_list_positions(&mut self)
        requires
            old(self).doc.wf(),
        ensures
            final(self).doc.wf(),
            final(self).doc@ == (DocV {
                items: old(self).doc@.items,
                lists: renum_lists(old(self).doc@.lists, lists_of(*old(self)), lists_of(*old(self)).len() as int),
            }),
            final(self).doc@.lists.dom() == old(self).doc@.lists.dom(),
            *final(self) == (App { doc: final(self).doc, ..*old(self) }),
    {
        let ghost m0 = self.doc@.lists;
        let ghost ls = lists_of(*self);
        let ids = {
            let lists = self.doc.ordered_lists();
            let mut r: Vec<String> = Vec::new();
            let mut k: usize = 0;
            while k < lists.len()
                invariant
                    k <= lists.len(),
                    r@.len() == k,
                    forall|q: int| 0 <= q < k ==> (#[trigger] r@[q])@ == lists@[q]@.id,
                decreases lists.len() - k,
            {
                r.push(lists[k].id.clone());
                k = k + 1;
            }
            proof {
                lemma_lists_in(m0, ls);
                assert forall|q: int| 0 <= q < r@.len() implies (#[trigger] r@[q])@ == ls[q].id by {
                    assert(list_refs_view(lists@)[q] == lists@[q]@);
                }
            }
            r
        };
        let mut i: usize = 0;
        while i < ids.len()
            invariant
                i <= ids.len(),
                ids@.len() == ls.len(),
                forall|k: int| 0 <= k < ids@.len() ==> (#[trigger] ids@[k])@ == ls[k].id,
                lists_in(m0, ls),
                self.doc.wf(),
                self.doc@.lists == renum_lists(m0, ls, i as int),
                self.doc@.items == old(self).doc@.items,
                *self == (App { doc: self.doc, ..*old(self) }),
            decreases ids.len() - i,
        {
            proof {
                lemma_renum_lists_untouched(m0, ls, i as int, i as int);
                assert(ids@[i as int]@ == ls[i as int].id);
            }
            let mut l = match self.doc.get_list(ids[i].as_str()) {
                Some(x) => x.copy(),
                None => {
                    assert(false);
                    return;
                },
            };
            l.position = if (i as u64) < 0x4000_0000_0000_0000u64 { (i as i64) * 2 } else { i64::MAX };
            crate::crdt::list_put(&mut self.doc.lists, l);
            i = i + 1;
        }
        proof {
            lemma_renum_lists_dom(m0, ls, ls.len() as int);
        }
    }

    fn swap_list_positions(&mut self, x: &String, y: &String)
        requires
            old(self).doc.wf(),
            old(self).doc@.lists.contains_key(x@),
            old(self).doc@.lists.contains_key(y@),
        ensures
            final(self).doc.wf(),
            final(self).doc@ == (DocV { items: old(self).doc@.items, lists: swapped_lists(old(self).doc@.lists, x@, y@) }),
            *final(self) == (App { doc: final(self).doc, ..*old(self) }),
    {
        let mut a = match self.doc.get_list(x.as_str()) {
            Some(l) => l.copy(),
            None => {
                return;
            },
        };
        let mut b = match self.doc.get_list(y.as_str()) {
            Some(l) => l.copy(),
            None => {
                return;
            },
        };
        let pa = a.position;
        a.position = b.position;
        b.position = pa;
        crate::crdt::list_put(&mut self.doc.lists, a);
        crate::crdt::list_put(&mut self.doc.lists, b);
    }

    #[verifier::spinoff_prover]
    #[verifier::rlimit(40)]
    fn move_list_by_one(&mut self, up: bool)
        requires
            old(self).wf(),
        ensures
            final(self).wf(),
            list_moved(*old(self), *final(self), up),
    {
        let (cur_id, other_id) = {
            let lists = self.doc.ordered_lists();
            let li = self.selected_list_index;
            if up {
                if !(li > 0 && li < lists.len()) {
                    return;
                }
                assert(list_refs_view(lists@)[li as int] == lists@[li as int]@);
                assert(list_refs_view(lists@)[li - 1] == lists@[li - 1]@);
                (lists[li].id.clone(), lists[li - 1].id.clone())
            } else {
                if !(li < lists.len() && li + 1 < lists.len()) {
                    return;
                }
                assert(list_refs_view(lists@)[li as int] == lists@[li as int]@);
                assert(list_refs_view(lists@)[li + 1] == lists@[li + 1]@);
                (lists[li].id.clone(), lists[li + 1].id.clone())
            }
        };
        proof {
            lemma_lists_in(self.doc@.lists, lists_of(*self));
        }
        let cur_pos = match self.doc.get_list(cur_id.as_str()) {
            Some(l) => l.position,
            None => {
                return;
            },
        };
        let other_pos = match self.doc.get_list(other_id.as_str()) {
            Some(l) => l.position,
            None => {
                return;
            },
        };
        self.push_undo();
        if cur_pos == other_pos {
            self.renumber_list_positions();
        }
        self.swap_list_positions(&cur_id, &other_id);
        if up {
            self.selected_list_index = self.selected_list_index - 1;
        } else {
            self.selected_list_index = self.selected_list_index + 1;
        }
        self.selected_sidebar_index = self.selected_list_index;
        self.rebuild_sidebar_entries();
        self.dirty = true;
        self.needs_full_reconcile = true;
    }

    /// Moves the selected list one up.
    pub fn move_list_up(&mut self)
        requires
            old(self).wf(),
        ensures
            final(self).wf(),
            list_moved(*old(self), *final(self), true),
    {
        self.move_list_by_one(true);
    }

    /// Moves the selected list one down.
    pub fn move_list_down(&mut self)
        requires
            old(self).wf(),
        ensures
            final(self).wf(),
            list_moved(*old(self), *final(self), false),
    {
        self.move_list_by_one(false);
    }

    /// Moves the selected list above all others.
    pub fn move_list_to_top(&mut self)
        requires
            old(self).wf(),
        ensures
            final(self).wf(),
            list_moved_to_top(*old(self), *final(self)),
    {
        let (cur_id, min_pos) = {
            let lists = self.doc.ordered_lists();
            let li = self.selected_list_index;
            if !(li > 0 && li < lists.len()) {
                return;
            }
            assert(list_refs_view(lists@)[li as int] == lists@[li as int]@);
            (lists[li].id.clone(), list_positions_min_max(&lists).0)
        };
        let mut l = match self.doc.get_list(cur_id.as_str()) {
            Some(x) => x.copy(),
            None => {
                return;
            },
        };
        self.push_undo();
        l.position = if min_pos < i64::MIN + 2 { i64::MIN } else { min_pos - 2 };
        crate::crdt::list_put(&mut self.doc.lists, l);
        self.selected_list_index = 0;
        self.selected_sidebar_index = 0;
        self.rebuild_sidebar_entries();
        self.dirty = true;
        self.needs_full_reconcile = true;
    }

    /// Moves the selected list below all others.
    pub fn move_list_to_bottom(&mut self)
        requires
            old(self).wf(),
        ensures
            final(self).wf(),
            list_moved_to_bottom(*old(self), *final(self)),
    {
        let (cur_id, max_pos, n) = {
            let lists = self.doc.ordered_lists();
            let li = self.selected_list_index;
            if !(li < lists.len() && li + 1 < lists.len()) {
                return;
            }
            assert(list_refs_view(lists@)[li as int] == lists@[li as int]@);
            (lists[li].id.clone(), list_positions_min_max(&lists).1, lists.len())
        };
        let mut l = match self.doc.get_list(cur_id.as_str()) {
            Some(x) => x.copy(),
            None => {
                return;
            },
        };
        self.push_undo();
        l.position = if max_pos > i64::MAX - 2 { i64::MAX } else { max_pos + 2 };
        crate::crdt::list_put(&mut self.doc.lists, l);
        self.selected_list_index = n - 1;
        self.selected_sidebar_index = self.selected_list_index;
        self.rebuild_sidebar_entries();
        self.dirty = true;
        self.needs_full_reconcile = true;
    }
}


/// The items of `m` with the list `l` taken from those in it.
pub open spec fn unassigned_from(m: Map<Seq<char>, ItemRec>, l: Seq<char>) -> Map<Seq<char>, ItemRec> {
    Map::new(|id: Seq<char>| m.contains_key(id), |id: Seq<char>| if m[id].list_id == Some(l) {
        ItemRec { list_id: None, ..m[id] }
    } else {
        m[id]
    })
}

/// `b` is `a` after adding a normal list named `name` under `id`: a blank
/// name changes nothing; otherwise the new list goes after all others and
/// is selected.
pub open spec fn list_added(a: App, b: App, name: Seq<char>, id: Seq<char>) -> bool {
    if crate::text::trim(name).len() == 0 {
        b == a
    } else {
        let d = with_list(a.doc@, id, ListRec {
            id,
            name,
            list_type: "normal"@,
            last_reset: None,
            position: crate::doc_ops::next_list_pos_of(a.doc@.lists),
        });
        &&& b.selected_list_index == doc_lists(d.lists).len() - 1
        &&& doc_edit_rebuilt(a, App { selected_list_index: a.selected_list_index, selected_item_index: a.selected_item_index, ..b }, d)
        &&& b.selected_item_index == 0
    }
}

/// The list type a list toggles to, and its reset date.
pub open spec fn toggled_type(l: ListRec, today: Seq<char>) -> ListRec {
    if l.list_type == "normal"@ {
        ListRec { list_type: "daily"@, last_reset: Some(today), ..l }
    } else {
        ListRec { list_type: "normal"@, last_reset: None, ..l }
    }
}

/// `b` is `a` after toggling the type of the selected list on day `today`.
pub open spec fn list_type_toggled(a: App, b: App, today: Seq<char>) -> bool {
    match selected_list_spec(a) {
        None => b == a,
        Some(l) => doc_edit(a, b, with_list(a.doc@, l, toggled_type(a.doc@.lists[l], today))),
    }
}

/// `b` is `a` after deleting the selected list, when there is more than
/// one: its items lose their list, the sidebar is rebuilt, the selection
/// brought back in range.
pub open spec fn list_deleted(a: App, b: App) -> bool {
    if lists_of(a).len() <= 1 || selected_list_spec(a).is_none() {
        b == a
    } else {
        let l = selected_list_spec(a).unwrap();
        let d = DocV { items: unassigned_from(a.doc@.items, l), lists: a.doc@.lists.remove(l) };
        let r = App {
            doc: b.doc,
            undo_stack: b.undo_stack,
            redo_stack: b.redo_stack,
            sidebar_entries: b.sidebar_entries,
            selected_sidebar_index: rebuilt_index(a.selected_sidebar_index, b.sidebar_entries@.len() as int),
            ..a
        };
        &&& pushed_undo(a, b)
        &&& b.doc@ == d
        &&& entries_view(b.sidebar_entries@) == sidebar_spec(d)
        &&& b == (App { dirty: true, needs_full_reconcile: true, ..clamped(r) })
    }
}

proof fn lemma_item_map_pointwise(a: Seq<CrdtItem>, b: Seq<CrdtItem>, l: Seq<char>)
    requires
        a.len() == b.len(),
        forall|k: int| 0 <= k < a.len() ==> (#[trigger] b[k])@ == (if a[k]@.list_id == Some(l) {
            ItemRec { list_id: None, ..a[k]@ }
        } else {
            a[k]@
        }),
    ensures
        crate::crdt::item_map(b) == unassigned_from(crate::crdt::item_map(a), l),
    decreases a.len(),
{
    if a.len() == 0 {
        assert(crate::crdt::item_map(b) =~= unassigned_from(crate::crdt::item_map(a), l));
    } else {
        let da = a.drop_last();
        let db = b.drop_last();
        assert forall|k: int| 0 <= k < da.len() implies (#[trigger] db[k])@ == (if da[k]@.list_id == Some(l) {
            ItemRec { list_id: None, ..da[k]@ }
        } else {
            da[k]@
        }) by {
            assert(da[k] == a[k] && db[k] == b[k]);
        }
        lemma_item_map_pointwise(da, db, l);
        assert(b.last()@ == b[b.len() - 1]@);
        assert(crate::crdt::item_map(b) =~= unassigned_from(crate::crdt::item_map(a), l));
    }
}

impl App {
    /// Adds a normal list named `name` under the id `id`.
    pub fn add_list_with_id(&mut self, name: String, id: String)
        requires
            old(self).wf(),
        ensures
            final(self).wf(),
            list_added(*old(self), *final(self), name@, id@),
    {
        let t = crate::text::chars_of(name.as_str());
        if crate::text::trim_chars(&t).len() == 0 {
            return;
        }
        self.push_undo();
        let position = self.doc.next_list_position();
        let normal = "normal";
        proof {
            reveal_strlit("normal");
        }
        let list = CrdtList { id, name, list_type: normal.to_owned(), last_reset: None, position };
        crate::crdt::list_put(&mut self.doc.lists, list);
        let n = self.num_lists();
        if n > 0 {
            self.selected_list_index = n - 1;
        }
        self.selected_item_index = 0;
        self.rebuild_sidebar_entries();
        self.save_doc();
        proof {
            assert(self.doc@.lists.contains_key(id@));
            assert(lists_of(*self).len() > 0) by {
                let m = self.doc@.lists;
                assert(m.contains_key(id@));
            }
        }
    }

    /// Adds a normal list named `name` under a fresh id.
    pub fn add_list(&mut self, name: String)
        requires
            old(self).wf(),
        ensures
            final(self).wf(),
            exists|id: Seq<char>| id.len() == 36 && #[trigger] list_added(*old(self), *final(self), name@, id),
    {
        let id = new_id_for_item();
        let ghost idv = id@;
        self.add_list_with_id(name, id);
        assert(list_added(*old(self), *final(self), name@, idv));
    }

    /// Renames the selected list; a blank name changes nothing.
    pub fn rename_list(&mut self, new_name: String)
        requires
            old(self).wf(),
        ensures
            final(self).wf(),
            list_renamed(*old(self), *final(self), new_name@),
    {
        let t = crate::text::chars_of(new_name.as_str());
        if crate::text::trim_chars(&t).len() == 0 {
            return;
        }
        match self.selected_list_id() {
            Some(list_id) => {
                proof {
                    lemma_lists_in(self.doc@.lists, lists_of(*self));
                }
                let mut l = match self.doc.get_list(list_id.as_str()) {
                    Some(x) => x.copy(),
                    None => {
                        return;
                    },
                };
                self.push_undo();
                l.name = new_name;
                crate::crdt::list_put(&mut self.doc.lists, l);
                self.save_doc();
            },
            None => {},
        }
    }

    /// Deletes the selected list, unless it is the only one; its items stay
    /// in the document without a list.
    #[verifier::spinoff_prover]
    #[verifier::rlimit(40)]
    pub fn delete_list(&mut self)
        requires
            old(self).wf(),
        ensures
            final(self).wf(),
            list_deleted(*old(self), *final(self)),
    {
        let num_lists = self.num_lists();
        if num_lists <= 1 {
            return;
        }
        let list_id = match self.selected_list_id() {
            Some(id) => id,
            None => {
                return;
            },
        };
        self.push_undo();
        let ghost orig = self.doc.items@;
        let ghost s0 = *self;
        let mut i: usize = 0;
        while i < self.doc.items.len()
            invariant
                i <= self.doc.items@.len(),
                self.doc.lists == s0.doc.lists,
                *self == (App { doc: self.doc, ..s0 }),
                s0.wf(),
                orig == s0.doc.items@,
                self.doc.items@.len() == orig.len(),
                crate::crdt::item_ids_unique(orig),
                forall|k: int| 0 <= k < orig.len() ==> (#[trigger] self.doc.items@[k]).id@ == orig[k].id@,
                forall|k: int| 0 <= k < i ==> (#[trigger] self.doc.items@[k])@ == (if orig[k]@.list_id == Some(list_id@) {
                    ItemRec { list_id: None, ..orig[k]@ }
                } else {
                    orig[k]@
                }),
                forall|k: int| i <= k < orig.len() ==> (#[trigger] self.doc.items@[k]) == orig[k],
            decreases orig.len() - i,
        {
            let in_list = match &self.doc.items[i].list_id {
                Some(x) => crate::text::str_eq(x.as_str(), list_id.as_str()),
                None => false,
            };
            if in_list {
                let mut it = self.doc.items[i].copy();
                it.list_id = None;
                self.doc.items.set(i, it);
            }
            i = i + 1;
        }
        proof {
            lemma_item_map_pointwise(orig, self.doc.items@, list_id@);
            assert(crate::crdt::item_ids_unique(self.doc.items@)) by {
                assert forall|a: int, b: int| 0 <= a < b < self.doc.items@.len() implies (#[trigger] self.doc.items@[a]).id@ != (#[trigger] self.doc.items@[b]).id@ by {
                    assert(orig[a].id@ != orig[b].id@);
                }
            }
        }
        crate::crdt::list_remove(&mut self.doc.lists, list_id.as_str());
        self.rebuild_sidebar_entries();
        self.clamp_selection();
        self.save_doc();
    }

    /// Switches the selected list between normal and daily, as of `today`.
    pub fn toggle_list_type_on(&mut self, today: &str)
        requires
            old(self).wf(),
        ensures
            final(self).wf(),
            list_type_toggled(*old(self), *final(self), today@),
    {
        match self.selected_list_id() {
            Some(list_id) => {
                proof {
                    lemma_lists_in(self.doc@.lists, lists_of(*self));
                }
                let mut l = match self.doc.get_list(list_id.as_str()) {
                    Some(x) => x.copy(),
                    None => {
                        return;
                    },
                };
                self.push_undo();
                let normal = "normal";
                let daily = "daily";
                proof {
                    reveal_strlit("normal");
                    reveal_strlit("daily");
                }
                if crate::text::str_eq(l.list_type.as_str(), normal) {
                    l.list_type = daily.to_owned();
                    l.last_reset = Some(today.to_owned());
                } else {
                    l.list_type = normal.to_owned();
                    l.last_reset = None;
                }
                crate::crdt::list_put(&mut self.doc.lists, l);
                self.save_doc();
            },
            None => {},
        }
    }

    /// Switches the selected list between normal and daily, as of the
    /// local date.
    pub fn toggle_list_type(&mut self)
        requires
            old(self).wf(),
        ensures
            final(self).wf(),
            exists|today: Seq<char>| #[trigger] list_type_toggled(*old(self), *final(self), today),
    {
        let today = today_string();
        self.toggle_list_type_on(today.as_str());
        assert(list_type_toggled(*old(self), *final(self), today@));
    }

    /// Shows done items, or hides them.
    #[verifier::spinoff_prover]
    #[verifier::rlimit(40)]
    pub fn toggle_show_done(&mut self)
        requires
            old(self).doc.wf(),
        ensures
            show_done_toggled(*old(self), *final(self)),
    {
        self.show_done = !self.show_done;
        self.selected_items = Vec::new();
        self.clamp_selection();
    }
}

/// Formats the local date as `YYYY-MM-DD` with `chrono::Local::now` and
/// `format("%Y-%m-%d")`. What it returns rests on the clock and the
/// machine's time zone and is not stated.
#[verifier::external_body]
pub(crate) fn today_string() -> String {
    chrono::Local::now().format("%Y-%m-%d").to_string()
}


// ---------------------------------------------------------------------------
// The input line
// ---------------------------------------------------------------------------

/// The byte offset of character position `pos` in the UTF-8 text of `s`.
pub open spec fn cursor_bytes(s: Seq<char>, pos: int) -> usize {
    crate::text::utf8_len(s.take(pos))
}

/// The byte offset of character position `pos` in the UTF-8 text of `v`.
pub fn byte_offset(v: &Vec<char>, pos: usize) -> (r: usize)
    requires
        pos <= v@.len(),
    ensures
        r == cursor_bytes(v@, pos as int),
{
    let prefix = crate::text::string_of(crate::text::sub_chars(v, 0, pos).as_slice());
    assert(prefix@ == v@.take(pos as int));
    prefix.as_str().len()
}

impl App {
    /// Opens the input line in `mode`, holding `prefill` with the cursor at
    /// its end.
    pub fn start_input(&mut self, mode: InputMode, prefill: &str)
        ensures
            final(self).input_buffer@ == prefill@,
            *final(self) == (App {
                input_mode: mode,
                input_buffer: final(self).input_buffer,
                input_pos: prefill@.len() as usize,
                input_cursor: cursor_bytes(prefill@, prefill@.len() as int),
                ..*old(self)
            }),
    {
        let v = crate::text::chars_of(prefill);
        self.input_mode = mode;
        self.input_buffer = prefill.to_owned();
        self.input_pos = v.len();
        self.input_cursor = byte_offset(&v, v.len());
    }

    /// Closes the input line without acting on it.
    pub fn cancel_input(&mut self)
        ensures
            input_cancelled(*old(self), *final(self)),
    {
        self.input_mode = InputMode::Normal;
        self.input_buffer = String::new();
        self.input_pos = 0;
        self.input_cursor = 0;
        self.search_results = Vec::new();
        self.search_selected = 0;
    }

    /// Inserts a character at the cursor.
    pub fn input_insert_char(&mut self, c: char)
        requires
            old(self).input_pos <= old(self).input_buffer@.len(),
        ensures
            char_inserted(*old(self), *final(self), c),
    {
        let mut v = crate::text::chars_of(self.input_buffer.as_str());
        v.insert(self.input_pos, c);
        let n = v.len();
        assert(self.input_pos < n);
        self.input_buffer = crate::text::string_of(v.as_slice());
        self.input_pos = self.input_pos + 1;
        self.input_cursor = byte_offset(&v, self.input_pos);
    }

    /// Deletes the character before the cursor.
    pub fn input_delete_char(&mut self)
        requires
            old(self).input_pos <= old(self).input_buffer@.len(),
        ensures
            char_deleted(*old(self), *final(self)),
    {
        if self.input_pos > 0 {
            let mut v = crate::text::chars_of(self.input_buffer.as_str());
            v.remove(self.input_pos - 1);
            self.input_buffer = crate::text::string_of(v.as_slice());
            self.input_pos = self.input_pos - 1;
            self.input_cursor = byte_offset(&v, self.input_pos);
        }
    }

    /// Moves the cursor one character left.
    pub fn input_move_cursor_left(&mut self)
        requires
            old(self).input_pos <= old(self).input_buffer@.len(),
        ensures
            cursor_left(*old(self), *final(self)),
    {
        if self.input_pos > 0 {
            self.input_pos = self.input_pos - 1;
            let v = crate::text::chars_of(self.input_buffer.as_str());
            self.input_cursor = byte_offset(&v, self.input_pos);
        }
    }

    /// Moves the cursor one character right.
    pub fn input_move_cursor_right(&mut self)
        ensures
            cursor_right(*old(self), *final(self)),
    {
        let v = crate::text::chars_of(self.input_buffer.as_str());
        if self.input_pos < v.len() {
            self.input_pos = self.input_pos + 1;
            self.input_cursor = byte_offset(&v, self.input_pos);
        }
    }

    /// The number of characters before the cursor.
    pub fn input_chars_before_cursor(&self) -> (r: usize)
        ensures
            r == self.input_pos,
    {
        self.input_pos
    }
}

// ---------------------------------------------------------------------------
// Focus sessions
// ---------------------------------------------------------------------------

impl App {
    /// Starts a focus session on the selected item at time `now`.
    pub fn start_focus_at(&mut self, now: u64)
        requires
            old(self).doc.wf(),
        ensures
            match selected_item_spec(*old(self)) {
                Some(id) => opt_view(final(self).focus_item_id) == Some(id) && *final(self) == (App {
                    focus_item_id: final(self).focus_item_id,
                    focus_accumulated: 0,
                    focus_start: Some(now),
                    input_mode: InputMode::Focused,
                    ..*old(self)
                }),
                None => *final(self) == *old(self),
            },
    {
        match self.resolve_selected_item() {
            Some(id) => {
                self.focus_item_id = Some(id);
                self.focus_accumulated = 0;
                self.focus_start = Some(now);
                self.input_mode = InputMode::Focused;
            },
            None => {},
        }
    }

    /// Starts a focus session on the selected item now.
    pub fn start_focus(&mut self)
        requires
            old(self).doc.wf(),
        ensures
            exists|now: u64| #[trigger] start_focus_spec(*old(self), *final(self), now),
    {
        let now = self.clock_now();
        self.start_focus_at(now);
        assert(start_focus_spec(*old(self), *final(self), now));
    }

    /// The seconds of the focus session at time `now`: those before its last
    /// pause, and those since it resumed if it runs.
    pub fn focus_elapsed_secs_at(&self, now: u64) -> (r: u64)
        ensures
            r == (match self.focus_start {
                Some(st) => if now >= st {
                    if self.focus_accumulated + (now - st) > u64::MAX { u64::MAX as int } else { self.focus_accumulated + (now - st) }
                } else {
                    self.focus_accumulated as int
                },
                None => self.focus_accumulated as int,
            }),
    {
        let running = match self.focus_start {
            Some(st) => if now >= st { now - st } else { 0 },
            None => 0,
        };
        self.focus_accumulated.saturating_add(running)
    }

    /// Pauses the focus session at time `now`, or resumes it.
    pub fn toggle_pause_focus_at(&mut self, now: u64)
        ensures
            focus_paused(*old(self), *final(self), now),
    {
        match self.focus_start {
            Some(_) => {
                self.focus_accumulated = self.focus_elapsed_secs_at(now);
                self.focus_start = None;
            },
            None => {
                self.focus_start = Some(now);
            },
        }
    }

    /// The seconds of the focus session at time `now`.
    pub open spec fn focus_elapsed_at_spec(&self, now: u64) -> u64 {
        (match self.focus_start {
            Some(st) => if now >= st {
                if self.focus_accumulated + (now - st) > u64::MAX { u64::MAX as int } else { self.focus_accumulated + (now - st) }
            } else {
                self.focus_accumulated as int
            },
            None => self.focus_accumulated as int,
        }) as u64
    }

    /// Ends the focus session at time `now`, adding its seconds to the time
    /// of the item it was on.
    pub fn stop_focus_at(&mut self, now: u64)
        requires
            old(self).wf(),
        ensures
            final(self).wf(),
            focus_stopped(*old(self), *final(self), now),
    {
        let elapsed = self.focus_elapsed_secs_at(now);
        match &self.focus_item_id {
            Some(id) => {
                match self.doc.get_item(id.as_str()) {
                    Some(x) => {
                        let mut it = x.copy();
                        it.time_secs = it.time_secs.saturating_add(elapsed);
                        crate::crdt::item_put(&mut self.doc.items, it);
                    },
                    None => {},
                }
            },
            None => {},
        }
        self.focus_start = None;
        self.focus_accumulated = 0;
        self.input_mode = InputMode::Normal;
        self.save_doc();
    }
}

/// `b` is `a` after starting a focus session at time `now`.
pub open spec fn start_focus_spec(a: App, b: App, now: u64) -> bool {
    match selected_item_spec(a) {
        Some(id) => opt_view(b.focus_item_id) == Some(id) && b == (App {
            focus_item_id: b.focus_item_id,
            focus_accumulated: 0,
            focus_start: Some(now),
            input_mode: InputMode::Focused,
            ..a
        }),
        None => b == a,
    }
}


// ---------------------------------------------------------------------------
// Tag filter
// ---------------------------------------------------------------------------

/// Some row carries the tag.
pub open spec fn rows_have_tag(rows: Seq<ItemRec>, t: Seq<char>) -> bool {
    exists|k: int| 0 <= k < rows.len() && (#[trigger] rows[k]).tags.contains(t)
}

/// The tags of the rows, each once, sorted.
pub open spec fn sorted_row_tags(rows: Seq<ItemRec>) -> Seq<Seq<char>> {
    choose|r: Seq<Seq<char>>| strictly_sorted(r, crate::doc_ops::lex_order()) && forall|t: Seq<char>| r.contains(t) <==> rows_have_tag(rows, t)
}

/// The tags of the selected list that the filter offers.
pub open spec fn filter_offer(a: App) -> Seq<Seq<char>> {
    match selected_list_spec(a) {
        Some(l) => sorted_row_tags(list_rows(a.doc@.items, l)),
        None => Seq::empty(),
    }
}

/// The tags offered whose box is ticked, in order.
pub open spec fn ticked(av: Seq<Seq<char>>, sel: Seq<bool>, n: int) -> Seq<Seq<char>>
    decreases n,
{
    if n <= 0 {
        Seq::empty()
    } else if n - 1 < sel.len() && sel[n - 1] {
        ticked(av, sel, n - 1).push(av[n - 1])
    } else {
        ticked(av, sel, n - 1)
    }
}

use crate::sorting::strictly_sorted;

impl App {
    /// Offers the tags of the selected list for filtering, ticking those
    /// already in the filter; not in a tag view, nor when the list has no
    /// tags.
    pub fn start_filter(&mut self)
        requires
            old(self).doc.wf(),
        ensures
            filter_started(*old(self), *final(self)),
    {
        if self.is_tag_view() {
            return;
        }
        let mut tags: Vec<String> = Vec::new();
        let ghost rows: Seq<ItemRec> = Seq::empty();
        match self.selected_list_id() {
            Some(list_id) => {
                let items = self.doc.items_for_list(list_id.as_str());
                proof {
                    rows = item_refs_view(items@);
                }
                let mut k: usize = 0;
                while k < items.len()
                    invariant
                        k <= items.len(),
                        rows == item_refs_view(items@),
                        strictly_sorted(strings_view(tags@), crate::doc_ops::lex_order()),
                        forall|t: Seq<char>| strings_view(tags@).contains(t) <==> rows_have_tag(rows.take(k as int), t),
                    decreases items.len() - k,
                {
                    let it = items[k];
                    let mut j: usize = 0;
                    while j < it.tags.len()
                        invariant
                            j <= it.tags.len(),
                            k < items.len(),
                            it == items@[k as int],
                            rows == item_refs_view(items@),
                            strictly_sorted(strings_view(tags@), crate::doc_ops::lex_order()),
                            forall|t: Seq<char>| strings_view(tags@).contains(t) <==> (rows_have_tag(rows.take(k as int), t)
                                || exists|q: int| 0 <= q < j && (#[trigger] it.tags@[q])@ == t),
                        decreases it.tags.len() - j,
                    {
                        crate::doc_ops::insert_tag(&mut tags, &it.tags[j]);
                        proof {
                            assert forall|t: Seq<char>| strings_view(tags@).contains(t) <==> (rows_have_tag(rows.take(k as int), t)
                                || exists|q: int| 0 <= q < j + 1 && (#[trigger] it.tags@[q])@ == t) by {
                                if t == it.tags@[j as int]@ {
                                    assert(exists|q: int| 0 <= q < j + 1 && (#[trigger] it.tags@[q])@ == t);
                                }
                                if exists|q: int| 0 <= q < j + 1 && (#[trigger] it.tags@[q])@ == t {
                                    let q = choose|q: int| 0 <= q < j + 1 && (#[trigger] it.tags@[q])@ == t;
                                    if q < j {
                                        assert(exists|q: int| 0 <= q < j && (#[trigger] it.tags@[q])@ == t);
                                    }
                                }
                            }
                        }
                        j = j + 1;
                    }
                    proof {
                        let r1 = rows.take(k + 1);
                        assert(r1[k as int] == it@);
                        assert forall|t: Seq<char>| strings_view(tags@).contains(t) <==> rows_have_tag(r1, t) by {
                            if rows_have_tag(r1, t) {
                                let q = choose|q: int| 0 <= q < r1.len() && (#[trigger] r1[q]).tags.contains(t);
                                if q < k {
                                    assert(rows.take(k as int)[q] == r1[q]);
                                    assert(rows_have_tag(rows.take(k as int), t));
                                } else {
                                    let x = choose|x: int| 0 <= x < it@.tags.len() && it@.tags[x] == t;
                                    assert(it.tags@[x]@ == t);
                                }
                            }
                            if rows_have_tag(rows.take(k as int), t) {
                                let q = choose|q: int| 0 <= q < k && (#[trigger] rows.take(k as int)[q]).tags.contains(t);
                                assert(r1[q] == rows.take(k as int)[q]);
                            }
                            if exists|q: int| 0 <= q < it.tags.len() && (#[trigger] it.tags@[q])@ == t {
                                let q = choose|q: int| 0 <= q < it.tags.len() && (#[trigger] it.tags@[q])@ == t;
                                assert(it@.tags[q] == t);
                            }
                        }
                    }
                    k = k + 1;
                }
                assert(rows.take(items.len() as int) == rows);
            },
            None => {
                assert forall|t: Seq<char>| !rows_have_tag(rows.take(0), t) by {}
            },
        }
        proof {
            let tv = strings_view(tags@);
            let sp = filter_offer(*old(self));
            assert(strictly_sorted(tv, crate::doc_ops::lex_order()) && forall|t: Seq<char>| tv.contains(t) <==> rows_have_tag(rows, t));
            assert(rows == (match selected_list_spec(*old(self)) {
                Some(l) => list_rows(old(self).doc@.items, l),
                None => Seq::empty(),
            }));
            if selected_list_spec(*old(self)).is_none() {
                assert(tv.len() == 0) by {
                    if tv.len() > 0 {
                        assert(tv.contains(tv[0]));
                    }
                }
                assert(sp =~= tv);
            } else {
                lemma_tag_sets_equal(rows, tv);
            }
        }
        if tags.len() == 0 {
            return;
        }
        let mut selected: Vec<bool> = Vec::new();
        let mut k: usize = 0;
        while k < tags.len()
            invariant
                k <= tags.len(),
                selected@.len() == k,
                forall|q: int| 0 <= q < k ==> selected@[q] == strings_view(self.filter_tags@).contains(#[trigger] tags@[q]@),
            decreases tags.len() - k,
        {
            let mut found = false;
            let mut j: usize = 0;
            while j < self.filter_tags.len()
                invariant
                    j <= self.filter_tags.len(),
                    k < tags.len(),
                    found == exists|q: int| 0 <= q < j && (#[trigger] self.filter_tags@[q])@ == tags@[k as int]@,
                decreases self.filter_tags.len() - j,
            {
                if crate::text::str_eq(self.filter_tags[j].as_str(), tags[k].as_str()) {
                    found = true;
                }
                j = j + 1;
            }
            proof {
                let fv = strings_view(self.filter_tags@);
                if found {
                    let q = choose|q: int| 0 <= q < self.filter_tags@.len() && (#[trigger] self.filter_tags@[q])@ == tags@[k as int]@;
                    assert(fv[q] == tags@[k as int]@);
                }
                if fv.contains(tags@[k as int]@) {
                    let q = choose|q: int| 0 <= q < fv.len() && fv[q] == tags@[k as int]@;
                    assert(self.filter_tags@[q]@ == tags@[k as int]@);
                }
            }
            selected.push(found);
            k = k + 1;
        }
        assert(selected@ =~= strings_view(tags@).map_values(|t: Seq<char>| strings_view(old(self).filter_tags@).contains(t)));
        self.filter_available_tags = tags;
        self.filter_selected = selected;
        self.filter_cursor = 0;
        self.input_mode = InputMode::FilteringTags;
    }

    /// Applies the ticked tags as the filter.
    #[verifier::spinoff_prover]
    #[verifier::rlimit(40)]
    pub fn confirm_filter(&mut self)
        requires
            old(self).doc.wf(),
        ensures
            filter_confirmed(*old(self), *final(self)),
    {
        let ghost av = strings_view(self.filter_available_tags@);
        let mut chosen: Vec<String> = Vec::new();
        let mut k: usize = 0;
        while k < self.filter_available_tags.len()
            invariant
                k <= self.filter_available_tags.len(),
                av == strings_view(self.filter_available_tags@),
                strings_view(chosen@) == ticked(av, self.filter_selected@, k as int),
            decreases self.filter_available_tags.len() - k,
        {
            if k < self.filter_selected.len() && self.filter_selected[k] {
                let ghost before = chosen@;
                chosen.push(self.filter_available_tags[k].clone());
                assert(strings_view(chosen@) =~= strings_view(before).push(av[k as int]));
            }
            k = k + 1;
        }
        self.filter_tags = chosen;
        self.input_mode = InputMode::Normal;
        self.filter_available_tags = Vec::new();
        self.filter_selected = Vec::new();
        self.filter_cursor = 0;
        self.selected_items = Vec::new();
        self.clamp_selection();
    }

    /// Closes the filter picker without changing the filter.
    pub fn cancel_filter(&mut self)
        ensures
            filter_cancelled(*old(self), *final(self)),
    {
        self.input_mode = InputMode::Normal;
        self.filter_available_tags = Vec::new();
        self.filter_selected = Vec::new();
        self.filter_cursor = 0;
    }

    /// Ticks the tag under the cursor, or unticks it.
    pub fn toggle_filter_tag(&mut self)
        ensures
            filter_ticked(*old(self), *final(self)),
    {
        if self.filter_cursor < self.filter_selected.len() {
            let v = !self.filter_selected[self.filter_cursor];
            self.filter_selected.set(self.filter_cursor, v);
        }
    }

    /// Moves the filter cursor up.
    pub fn filter_move_up(&mut self)
        ensures
            filter_up(*old(self), *final(self)),
    {
        if self.filter_cursor > 0 {
            self.filter_cursor = self.filter_cursor - 1;
        }
    }

    /// Moves the filter cursor down.
    pub fn filter_move_down(&mut self)
        ensures
            filter_down(*old(self), *final(self)),
    {
        if self.filter_cursor < self.filter_available_tags.len() && self.filter_cursor + 1 < self.filter_available_tags.len() {
            self.filter_cursor = self.filter_cursor + 1;
        }
    }

    /// Every tag of every item, archived ones included, each once, sorted.
    pub fn collect_all_tags(&self) -> (r: Vec<String>)
        requires
            self.doc.wf(),
        ensures
            strings_view(r@) == doc_tags(self.doc@.items),
    {
        self.doc.all_tags()
    }
}

proof fn lemma_tag_sets_equal(rows: Seq<ItemRec>, tv: Seq<Seq<char>>)
    requires
        strictly_sorted(tv, crate::doc_ops::lex_order()),
        forall|t: Seq<char>| tv.contains(t) <==> rows_have_tag(rows, t),
    ensures
        sorted_row_tags(rows) == tv,
{
    let c = sorted_row_tags(rows);
    assert(strictly_sorted(c, crate::doc_ops::lex_order()) && forall|t: Seq<char>| c.contains(t) <==> rows_have_tag(rows, t));
    assert forall|x: Seq<char>| !(#[trigger] crate::doc_ops::lex_order()(x, x)) by {
        crate::text::lemma_lex_lt_irreflexive(x);
    }
    assert forall|x: Seq<char>, y: Seq<char>| #[trigger] crate::doc_ops::lex_order()(x, y) implies !crate::doc_ops::lex_order()(y, x) by {
        crate::text::lemma_lex_lt_trichotomy(x, y);
    }
    crate::sorting::lemma_sorted_unique(c, tv, crate::doc_ops::lex_order());
}


// ---------------------------------------------------------------------------
// Marked items, archive, moving to another list
// ---------------------------------------------------------------------------

/// The ids of the marked items.
pub open spec fn marked(a: App) -> Set<Seq<char>> {
    strings_view(a.selected_items@).to_set()
}

/// `b` is `a` after deleting the selected row's item (see `delete_todo`).
pub open spec fn todo_deleted(a: App, b: App) -> bool {
    match selected_item_spec(a) {
        None => b == a,
        Some(id) => {
            let c = clamped(App { doc: b.doc, undo_stack: b.undo_stack, redo_stack: b.redo_stack, ..a });
            &&& pushed_undo(a, b)
            &&& b.doc@ == (DocV { items: a.doc@.items.remove(id), lists: a.doc@.lists })
            &&& entries_view(b.sidebar_entries@) == sidebar_spec(b.doc@)
            &&& b == (App {
                sidebar_entries: b.sidebar_entries,
                selected_sidebar_index: rebuilt_index(c.selected_sidebar_index, b.sidebar_entries@.len() as int),
                dirty: true,
                needs_full_reconcile: true,
                ..c
            })
        },
    }
}

/// `b` is `a` after an undoable batch change to document `d` that clears
/// the marks, rebuilds the sidebar, then brings the selection in range.
pub open spec fn batch_edit(a: App, b: App, d: DocV) -> bool {
    let r = App {
        doc: b.doc,
        undo_stack: b.undo_stack,
        redo_stack: b.redo_stack,
        selected_items: b.selected_items,
        sidebar_entries: b.sidebar_entries,
        selected_sidebar_index: rebuilt_index(a.selected_sidebar_index, b.sidebar_entries@.len() as int),
        ..a
    };
    &&& pushed_undo(a, b)
    &&& b.doc@ == d
    &&& entries_view(b.sidebar_entries@) == sidebar_spec(d)
    &&& b.selected_items@.len() == 0
    &&& b == (App { dirty: true, needs_full_reconcile: true, ..clamped(r) })
}

/// The items with the done flag of those in `ids` flipped.
pub open spec fn flipped_done(m: Map<Seq<char>, ItemRec>, ids: Set<Seq<char>>) -> Map<Seq<char>, ItemRec> {
    Map::new(|id: Seq<char>| m.contains_key(id), |id: Seq<char>| if ids.contains(id) {
        ItemRec { done: !m[id].done, ..m[id] }
    } else {
        m[id]
    })
}

/// The done items of list `l` archived.
pub open spec fn archived_done(m: Map<Seq<char>, ItemRec>, l: Seq<char>) -> Map<Seq<char>, ItemRec> {
    Map::new(|id: Seq<char>| m.contains_key(id), |id: Seq<char>| if m[id].list_id == Some(l) && m[id].done {
        ItemRec { archived: true, ..m[id] }
    } else {
        m[id]
    })
}

/// `b` is `a` after archiving the done items of the selected list.
pub open spec fn done_archived(a: App, b: App) -> bool {
    match selected_list_spec(a) {
        None => b == a,
        Some(l) => if !(exists|id: Seq<char>| #[trigger] a.doc@.items.contains_key(id) && a.doc@.items[id].list_id == Some(l) && a.doc@.items[id].done) {
            b == a
        } else {
            batch_edit(a, App { input_mode: a.input_mode, ..b }, DocV { items: archived_done(a.doc@.items, l), lists: a.doc@.lists })
                && b.input_mode == InputMode::Normal
        },
    }
}

/// `b` holds what `f` makes of each item of `a`, which keeps its id.
proof fn lemma_item_map_fmap(a: Seq<CrdtItem>, b: Seq<CrdtItem>, f: spec_fn(ItemRec) -> ItemRec)
    requires
        a.len() == b.len(),
        forall|k: int| 0 <= k < a.len() ==> (#[trigger] b[k])@ == f(a[k]@),
        forall|r: ItemRec| (#[trigger] f(r)).id == r.id,
    ensures
        crate::crdt::item_map(b) == Map::new(|id: Seq<char>| crate::crdt::item_map(a).contains_key(id), |id: Seq<char>| f(crate::crdt::item_map(a)[id])),
    decreases a.len(),
{
    let ma = crate::crdt::item_map(a);
    if a.len() == 0 {
        assert(crate::crdt::item_map(b) =~= Map::new(|id: Seq<char>| ma.contains_key(id), |id: Seq<char>| f(ma[id])));
    } else {
        let da = a.drop_last();
        let db = b.drop_last();
        assert forall|k: int| 0 <= k < da.len() implies (#[trigger] db[k])@ == f(da[k]@) by {
            assert(da[k] == a[k] && db[k] == b[k]);
        }
        lemma_item_map_fmap(da, db, f);
        assert(b.last()@ == b[b.len() - 1]@);
        assert(f(a.last()@).id == a.last()@.id);
        assert(crate::crdt::item_map(b) =~= Map::new(|id: Seq<char>| ma.contains_key(id), |id: Seq<char>| f(ma[id])));
    }
}

proof fn lemma_take_to_set(s: Seq<Seq<char>>, k: int)
    requires
        0 <= k < s.len(),
    ensures
        s.take(k + 1).to_set() == s.take(k).to_set().insert(s[k]),
{
    let t1 = s.take(k + 1);
    let t0 = s.take(k);
    assert forall|x: Seq<char>| t1.contains(x) <==> (t0.contains(x) || x == s[k]) by {
        if t1.contains(x) {
            let j = choose|j: int| 0 <= j < t1.len() && t1[j] == x;
            if j < k {
                assert(t0[j] == x);
            }
        }
        if t0.contains(x) {
            let j = choose|j: int| 0 <= j < t0.len() && t0[j] == x;
            assert(t1[j] == x);
        }
        if x == s[k] {
            assert(t1[k] == x);
        }
    }
    assert(t1.to_set() =~= t0.to_set().insert(s[k]));
}

/// Each record of `item_map(s)` carries its key as id.
proof fn lemma_item_map_ids(s: Seq<CrdtItem>)
    ensures
        forall|id: Seq<char>| #[trigger] crate::crdt::item_map(s).contains_key(id) ==> crate::crdt::item_map(s)[id].id == id,
    decreases s.len(),
{
    if s.len() > 0 {
        lemma_item_map_ids(s.drop_last());
    }
}

fn vec_has(v: &Vec<String>, x: &str) -> (r: Option<usize>)
    ensures
        match r {
            Some(i) => i < v@.len() && v@[i as int]@ == x@,
            None => !strings_view(v@).contains(x@),
        },
{
    let mut i: usize = 0;
    while i < v.len()
        invariant
            i <= v.len(),
            forall|j: int| 0 <= j < i ==> v@[j]@ != x@,
        decreases v.len() - i,
    {
        if crate::text::str_eq(v[i].as_str(), x) {
            return Some(i);
        }
        i = i + 1;
    }
    assert(!strings_view(v@).contains(x@)) by {
        if strings_view(v@).contains(x@) {
            let j = choose|j: int| 0 <= j < v@.len() && strings_view(v@)[j] == x@;
            assert(v@[j]@ == x@);
        }
    }
    None
}

impl App {
    /// Marks the selected row's item, or unmarks it; not in a view that is
    /// not a list.
    #[verifier::spinoff_prover]
    #[verifier::rlimit(40)]
    pub fn toggle_select_current(&mut self)
        requires
            old(self).wf(),
        ensures
            final(self).wf(),
            select_toggled(*old(self), *final(self)),
    {
        if self.is_virtual_view() {
            return;
        }
        match self.resolve_selected_item() {
            Some(id) => {
                let ghost v = strings_view(self.selected_items@);
                match vec_has(&self.selected_items, id.as_str()) {
                    Some(i) => {
                        self.selected_items.remove(i);
                        proof {
                            let nv = strings_view(self.selected_items@);
                            assert(nv =~= v.remove(i as int));
                            assert(nv.to_set() =~= v.to_set().remove(id@)) by {
                                assert forall|x: Seq<char>| nv.contains(x) <==> (v.contains(x) && x != id@) by {
                                    if nv.contains(x) {
                                        let k = choose|k: int| 0 <= k < nv.len() && nv[k] == x;
                                        if k < i {
                                            assert(v[k] == x);
                                            assert(v[k] != v[i as int]);
                                        } else {
                                            assert(v[k + 1] == x);
                                            assert(v[i as int] != v[k + 1]);
                                        }
                                    }
                                    if v.contains(x) && x != id@ {
                                        let k = choose|k: int| 0 <= k < v.len() && v[k] == x;
                                        if k < i {
                                            assert(nv[k] == x);
                                        } else {
                                            assert(k != i);
                                            assert(nv[k - 1] == x);
                                        }
                                    }
                                }
                            }
                            assert(no_dups(nv)) by {
                                assert forall|a: int, b: int| 0 <= a < b < nv.len() implies nv[a] != nv[b] by {
                                    let oa = if a < i { a } else { a + 1 };
                                    let ob = if b < i { b } else { b + 1 };
                                    assert(nv[a] == v[oa] && nv[b] == v[ob]);
                                }
                            }
                            assert(v.contains(id@)) by {
                                assert(v[i as int] == id@);
                            }
                        }
                    },
                    None => {
                        self.selected_items.push(id);
                        proof {
                            let nv = strings_view(self.selected_items@);
                            assert(nv =~= v.push(id@));
                            assert(nv.to_set() =~= v.to_set().insert(id@)) by {
                                assert forall|x: Seq<char>| nv.contains(x) <==> (v.contains(x) || x == id@) by {
                                    if nv.contains(x) {
                                        let k = choose|k: int| 0 <= k < nv.len() && nv[k] == x;
                                        if k < v.len() {
                                            assert(v[k] == x);
                                        }
                                    }
                                    if v.contains(x) {
                                        let k = choose|k: int| 0 <= k < v.len() && v[k] == x;
                                        assert(nv[k] == x);
                                    }
                                    if x == id@ {
                                        assert(nv[v.len() as int] == x);
                                    }
                                }
                            }
                            assert(no_dups(nv)) by {
                                assert forall|a: int, b: int| 0 <= a < b < nv.len() implies nv[a] != nv[b] by {
                                    if b == v.len() {
                                        assert(v.contains(v[a]));
                                    }
                                }
                            }
                        }
                    },
                }
            },
            None => {},
        }
    }

    /// Unmarks every item.
    pub fn clear_selection(&mut self)
        ensures
            final(self).selected_items@.len() == 0,
            *final(self) == (App { selected_items: final(self).selected_items, ..*old(self) }),
    {
        self.selected_items = Vec::new();
    }

    /// Deletes the selected row's item.
    #[verifier::spinoff_prover]
    #[verifier::rlimit(60)]
    pub fn delete_todo(&mut self)
        requires
            old(self).wf(),
        ensures
            final(self).wf(),
            todo_deleted(*old(self), *final(self)),
    {
        match self.resolve_selected_item() {
            Some(id) => {
                self.push_undo();
                crate::crdt::item_remove(&mut self.doc.items, id.as_str());
                self.clamp_selection();
                self.rebuild_sidebar_entries();
                self.save_doc();
            },
            None => {},
        }
    }

    /// Deletes the marked items, or the selected row's item when none is
    /// marked.
    #[verifier::spinoff_prover]
    #[verifier::rlimit(40)]
    pub fn delete_selected(&mut self)
        requires
            old(self).wf(),
        ensures
            final(self).wf(),
            selected_deleted(*old(self), *final(self)),
    {
        if self.selected_items.len() == 0 {
            self.delete_todo();
            return;
        }
        let ghost m0 = self.doc@.items;
        let ghost sv = strings_view(self.selected_items@);
        self.push_undo();
        let mut ids: Vec<String> = Vec::new();
        std::mem::swap(&mut ids, &mut self.selected_items);
        let ghost s0 = *self;
        let mut k: usize = 0;
        while k < ids.len()
            invariant
                k <= ids.len(),
                sv == strings_view(ids@),
                self.doc.wf(),
                self.doc@.items == m0.remove_keys(sv.take(k as int).to_set()),
                self.doc@.lists == s0.doc@.lists,
                *self == (App { doc: self.doc, ..s0 }),
            decreases ids.len() - k,
        {
            crate::crdt::item_remove(&mut self.doc.items, ids[k].as_str());
            proof {
                lemma_take_to_set(sv, k as int);
            }
            assert(self.doc@.items =~= m0.remove_keys(sv.take(k + 1).to_set()));
            k = k + 1;
        }
        assert(sv.take(ids.len() as int) == sv);
        self.rebuild_sidebar_entries();
        self.clamp_selection();
        self.save_doc();
    }

    /// Flips the done flag of the marked items, or of the selected row's
    /// item when none is marked.
    #[verifier::spinoff_prover]
    #[verifier::rlimit(40)]
    pub fn toggle_done_selected(&mut self)
        requires
            old(self).wf(),
        ensures
            final(self).wf(),
            selected_done_toggled(*old(self), *final(self)),
    {
        if self.selected_items.len() == 0 {
            self.toggle_done();
            return;
        }
        let ghost sset = marked(*self);
        self.push_undo();
        let mut ids: Vec<String> = Vec::new();
        std::mem::swap(&mut ids, &mut self.selected_items);
        let ghost orig = self.doc.items@;
        let ghost s0 = *self;
        let ghost f = |r: ItemRec| if sset.contains(r.id) { ItemRec { done: !r.done, ..r } } else { r };
        let mut i: usize = 0;
        while i < self.doc.items.len()
            invariant
                i <= self.doc.items@.len(),
                self.doc.items@.len() == orig.len(),
                sset == strings_view(ids@).to_set(),
                f == (|r: ItemRec| if sset.contains(r.id) { ItemRec { done: !r.done, ..r } } else { r }),
                crate::crdt::item_ids_unique(orig),
                self.doc.lists == s0.doc.lists,
                *self == (App { doc: self.doc, ..s0 }),
                orig == s0.doc.items@,
                forall|k: int| 0 <= k < orig.len() ==> (#[trigger] self.doc.items@[k]).id@ == orig[k].id@,
                forall|k: int| 0 <= k < i ==> (#[trigger] self.doc.items@[k])@ == f(orig[k]@),
                forall|k: int| i <= k < orig.len() ==> (#[trigger] self.doc.items@[k]) == orig[k],
            decreases orig.len() - i,
        {
            let found = vec_has(&ids, self.doc.items[i].id.as_str());
            let hit = found.is_some();
            proof {
                match found {
                    Some(j) => {
                        assert(strings_view(ids@)[j as int] == orig[i as int].id@);
                        assert(strings_view(ids@).contains(orig[i as int].id@));
                    },
                    None => {
                        assert(!sset.contains(orig[i as int].id@));
                    },
                }
            }
            if hit {
                let mut it = self.doc.items[i].copy();
                it.done = !it.done;
                self.doc.items.set(i, it);
            }
            i = i + 1;
        }
        proof {
            assert forall|r: ItemRec| (#[trigger] f(r)).id == r.id by {}
            lemma_item_map_fmap(orig, self.doc.items@, f);
            lemma_item_map_ids(orig);
            assert(crate::crdt::item_map(self.doc.items@) =~= flipped_done(crate::crdt::item_map(orig), sset));
            assert(crate::crdt::item_ids_unique(self.doc.items@)) by {
                assert forall|a: int, b: int| 0 <= a < b < self.doc.items@.len() implies (#[trigger] self.doc.items@[a]).id@ != (#[trigger] self.doc.items@[b]).id@ by {
                    assert(orig[a].id@ != orig[b].id@);
                }
            }
        }
        self.rebuild_sidebar_entries();
        self.clamp_selection();
        self.save_doc();
    }

    /// The number of done items in the selected list.
    pub fn done_count(&self) -> (r: usize)
        requires
            self.doc.wf(),
        ensures
            r == (match selected_list_spec(*self) {
                Some(l) => list_rows(self.doc@.items, l).filter(|i: ItemRec| i.done).len(),
                None => 0,
            }),
    {
        match self.selected_list_id() {
            Some(list_id) => {
                let items = self.doc.items_for_list(list_id.as_str());
                let ghost s = item_refs_view(items@);
                let ghost p = |i: ItemRec| i.done;
                let mut n: usize = 0;
                let mut k: usize = 0;
                while k < items.len()
                    invariant
                        k <= items.len(),
                        s == item_refs_view(items@),
                        p == (|i: ItemRec| i.done),
                        n == s.take(k as int).filter(p).len(),
                        n <= k,
                    decreases items.len() - k,
                {
                    proof {
                        lemma_filter_take(s, p, k as int);
                        assert(s[k as int] == items@[k as int]@);
                    }
                    if items[k].done {
                        n = n + 1;
                    }
                    k = k + 1;
                }
                assert(s.take(items.len() as int) == s);
                n
            },
            None => 0,
        }
    }

    /// Asks to confirm archiving, if the selected list has done items.
    pub fn start_archive(&mut self)
        requires
            old(self).doc.wf(),
        ensures
            archive_started(*old(self), *final(self)),
    {
        if self.done_count() == 0 {
            return;
        }
        self.input_mode = InputMode::ConfirmArchive;
    }

    /// Archives the done items of the selected list: they stay in the
    /// document but are shown nowhere.
    #[verifier::spinoff_prover]
    #[verifier::rlimit(40)]
    pub fn archive_done_items(&mut self)
        requires
            old(self).wf(),
        ensures
            final(self).wf(),
            done_archived(*old(self), *final(self)),
    {
        let list_id = match self.selected_list_id() {
            Some(id) => id,
            None => {
                return;
            },
        };
        let ghost m0 = self.doc@.items;
        let ghost l = list_id@;
        let mut any = false;
        let mut q: usize = 0;
        while q < self.doc.items.len()
            invariant
                q <= self.doc.items.len(),
                l == list_id@,
                any == exists|j: int| 0 <= j < q && (#[trigger] self.doc.items@[j])@.list_id == Some(l) && self.doc.items@[j].done,
            decreases self.doc.items.len() - q,
        {
            let hit = match &self.doc.items[q].list_id {
                Some(x) => crate::text::str_eq(x.as_str(), list_id.as_str()),
                None => false,
            };
            if hit && self.doc.items[q].done {
                any = true;
            }
            q = q + 1;
        }
        proof {
            let items = self.doc.items@;
            if any {
                let j = choose|j: int| 0 <= j < items.len() && (#[trigger] items[j])@.list_id == Some(l) && items[j].done;
                crate::crdt::lemma_item_map_entry(items, j);
                assert(m0.contains_key(items[j].id@));
            }
            if exists|id: Seq<char>| #[trigger] m0.contains_key(id) && m0[id].list_id == Some(l) && m0[id].done {
                let id = choose|id: Seq<char>| #[trigger] m0.contains_key(id) && m0[id].list_id == Some(l) && m0[id].done;
                crate::crdt::lemma_item_map_key(items, id);
                let j = choose|j: int| 0 <= j < items.len() && (#[trigger] items[j]).id@ == id;
                crate::crdt::lemma_item_map_entry(items, j);
            }
        }
        if !any {
            return;
        }
        self.push_undo();
        let ghost orig = self.doc.items@;
        let ghost s0 = *self;
        let ghost f = |r: ItemRec| if r.list_id == Some(l) && r.done { ItemRec { archived: true, ..r } } else { r };
        let mut i: usize = 0;
        while i < self.doc.items.len()
            invariant
                i <= self.doc.items@.len(),
                self.doc.items@.len() == orig.len(),
                l == list_id@,
                f == (|r: ItemRec| if r.list_id == Some(l) && r.done { ItemRec { archived: true, ..r } } else { r }),
                crate::crdt::item_ids_unique(orig),
                self.doc.lists == s0.doc.lists,
                *self == (App { doc: self.doc, ..s0 }),
                orig == s0.doc.items@,
                forall|k: int| 0 <= k < orig.len() ==> (#[trigger] self.doc.items@[k]).id@ == orig[k].id@,
                forall|k: int| 0 <= k < i ==> (#[trigger] self.doc.items@[k])@ == f(orig[k]@),
                forall|k: int| i <= k < orig.len() ==> (#[trigger] self.doc.items@[k]) == orig[k],
            decreases orig.len() - i,
        {
            let hit = match &self.doc.items[i].list_id {
                Some(x) => crate::text::str_eq(x.as_str(), list_id.as_str()),
                None => false,
            };
            if hit && self.doc.items[i].done {
                let mut it = self.doc.items[i].copy();
                it.archived = true;
                self.doc.items.set(i, it);
            }
            i = i + 1;
        }
        proof {
            assert forall|r: ItemRec| (#[trigger] f(r)).id == r.id by {}
            lemma_item_map_fmap(orig, self.doc.items@, f);
            assert(crate::crdt::item_map(self.doc.items@) =~= archived_done(crate::crdt::item_map(orig), l));
            assert(crate::crdt::item_ids_unique(self.doc.items@)) by {
                assert forall|a: int, b: int| 0 <= a < b < self.doc.items@.len() implies (#[trigger] self.doc.items@[a]).id@ != (#[trigger] self.doc.items@[b]).id@ by {
                    assert(orig[a].id@ != orig[b].id@);
                }
            }
        }
        self.selected_items = Vec::new();
        self.rebuild_sidebar_entries();
        self.clamp_selection();
        self.save_doc();
        self.input_mode = InputMode::Normal;
    }
}


/// A name passes the picker's query: the query is empty, or occurs in the
/// lowercased name.
pub open spec fn name_matches(name: Seq<char>, q: Seq<char>) -> bool {
    q.len() == 0 || crate::text::has_sub(crate::text::lowercase(name), q)
}

/// The lists among the first `n` that the picker offers, with their index.
pub open spec fn targets_upto(ls: Seq<ListRec>, sel: usize, q: Seq<char>, n: int) -> Seq<(usize, Seq<char>)>
    decreases n,
{
    if n <= 0 {
        Seq::empty()
    } else if n - 1 != sel && name_matches(ls[n - 1].name, q) {
        targets_upto(ls, sel, q, n - 1).push(((n - 1) as usize, ls[n - 1].name))
    } else {
        targets_upto(ls, sel, q, n - 1)
    }
}

/// The lists the picker offers: every list but the selected one whose
/// name matches the typed query, with its index.
pub open spec fn move_targets(a: App) -> Seq<(usize, Seq<char>)> {
    targets_upto(lists_of(a), a.selected_list_index, crate::text::lowercase(a.move_to_list_filter@), lists_of(a).len() as int)
}

/// One of the first `n` rows has this id.
pub open spec fn id_in_prefix(rs: Seq<ItemRec>, n: int, id: Seq<char>) -> bool {
    exists|q: int| 0 <= q < n && (#[trigger] rs[q]).id == id
}

/// The record that stands for a marked id missing from the document.
pub open spec fn dummy_rec(id: Seq<char>) -> ItemRec {
    ItemRec {
        id,
        title: Seq::empty(),
        done: false,
        tags: Seq::empty(),
        time_secs: 0,
        list_id: None,
        position: 0,
        archived: false,
    }
}

/// The records of the ids in `s`, a missing one at position 0.
pub open spec fn sel_recs(m: Map<Seq<char>, ItemRec>, s: Set<Seq<char>>) -> Map<Seq<char>, ItemRec> {
    Map::new(|id: Seq<char>| s.contains(id), |id: Seq<char>| if m.contains_key(id) { m[id] } else { dummy_rec(id) })
}

/// The ids in `s`, in display order.
pub open spec fn move_order(m: Map<Seq<char>, ItemRec>, s: Set<Seq<char>>) -> Seq<ItemRec> {
    crate::crdt::shown_items(sel_recs(m, s), |i: ItemRec| true)
}

/// The index of the row with this id.
pub open spec fn rank_of(rs: Seq<ItemRec>, id: Seq<char>) -> int {
    choose|k: int| 0 <= k < rs.len() && rs[k].id == id
}

/// `base` plus `k` whole steps, kept within `i64`.
pub open spec fn offset_pos(base: int, k: int) -> int {
    if base + 2 * k > i64::MAX {
        i64::MAX as int
    } else {
        base + 2 * k
    }
}

/// The items in `s` moved to the end of list `t`, in display order.
pub open spec fn moved_to(m: Map<Seq<char>, ItemRec>, s: Set<Seq<char>>, t: Seq<char>) -> Map<Seq<char>, ItemRec> {
    let rs = move_order(m, s);
    let base = crate::doc_ops::next_pos_of(m, Some(t));
    Map::new(|id: Seq<char>| m.contains_key(id), |id: Seq<char>| if s.contains(id) {
        ItemRec { list_id: Some(t), position: offset_pos(base, rank_of(rs, id)), ..m[id] }
    } else {
        m[id]
    })
}

/// The items a move takes: the marked ones, or the selected row's item.
pub open spec fn move_set(a: App) -> Set<Seq<char>> {
    if a.selected_items@.len() == 0 {
        match selected_item_spec(a) {
            Some(id) => set![id],
            None => Set::empty(),
        }
    } else {
        marked(a)
    }
}

/// `b` is `a` after confirming the list picker.
pub open spec fn moved_to_list(a: App, b: App) -> bool {
    let ts = move_targets(a);
    if a.move_to_list_cursor >= ts.len() {
        b == a
    } else {
        let t = lists_of(a)[ts[a.move_to_list_cursor as int].0 as int].id;
        let d = DocV { items: moved_to(a.doc@.items, move_set(a), t), lists: a.doc@.lists };
        let r = App {
            doc: b.doc,
            undo_stack: b.undo_stack,
            redo_stack: b.redo_stack,
            selected_items: b.selected_items,
            move_to_list_filter: b.move_to_list_filter,
            input_mode: InputMode::Normal,
            sidebar_entries: b.sidebar_entries,
            selected_sidebar_index: rebuilt_index(a.selected_sidebar_index, b.sidebar_entries@.len() as int),
            ..a
        };
        &&& pushed_undo(a, b)
        &&& b.doc@ == d
        &&& entries_view(b.sidebar_entries@) == sidebar_spec(d)
        &&& b.selected_items@.len() == 0
        &&& b.move_to_list_filter@.len() == 0
        &&& b == (App { dirty: true, needs_full_reconcile: true, ..clamped(r) })
    }
}

pub open spec fn targets_view(v: Seq<(usize, &str)>) -> Seq<(usize, Seq<char>)> {
    v.map_values(|p: (usize, &str)| (p.0, p.1@))
}

fn offset_position(base: i64, k: usize) -> (r: i64)
    ensures
        r == offset_pos(base as int, k as int),
{
    let v: i128 = base as i128 + 2 * (k as i128);
    if v > i64::MAX as i128 {
        i64::MAX
    } else {
        v as i64
    }
}

impl App {
    /// The lists the picker offers, with their index.
    pub fn move_to_list_targets(&self) -> (r: Vec<(usize, &str)>)
        requires
            self.doc.wf(),
        ensures
            targets_view(r@) == move_targets(*self),
            forall|k: int| 0 <= k < r@.len() ==> (#[trigger] r@[k]).0 < lists_of(*self).len(),
    {
        let query = crate::text::lowercase_chars(&crate::text::chars_of(self.move_to_list_filter.as_str()));
        let lists = self.doc.ordered_lists();
        let ghost ls = lists_of(*self);
        let mut out: Vec<(usize, &str)> = Vec::new();
        let mut i: usize = 0;
        while i < lists.len()
            invariant
                i <= lists.len(),
                list_refs_view(lists@) == ls,
                query@ == crate::text::lowercase(self.move_to_list_filter@),
                targets_view(out@) == targets_upto(ls, self.selected_list_index, query@, i as int),
                forall|k: int| 0 <= k < out@.len() ==> (#[trigger] out@[k]).0 < ls.len(),
            decreases lists.len() - i,
        {
            assert(ls[i as int] == lists@[i as int]@);
            if i != self.selected_list_index {
                let ok = query.len() == 0 || {
                    let name = crate::text::lowercase_chars(&crate::text::chars_of(lists[i].name.as_str()));
                    crate::text::contains_chars(&name, &query)
                };
                if ok {
                    let ghost before = out@;
                    out.push((i, lists[i].name.as_str()));
                    assert(targets_view(out@) =~= targets_view(before).push((i, ls[i as int].name)));
                }
            }
            i = i + 1;
        }
        out
    }

    /// Opens the list picker for the marked items, or the selected row's
    /// item; not in a view that is not a list, nor with a single list.
    pub fn start_move_to_list(&mut self)
        requires
            old(self).doc.wf(),
        ensures
            move_started(*old(self), *final(self)),
    {
        if self.is_virtual_view() {
            return;
        }
        if self.num_lists() < 2 {
            return;
        }
        let has_items = if self.selected_items.len() == 0 {
            self.resolve_selected_item().is_some()
        } else {
            true
        };
        if !has_items {
            return;
        }
        self.move_to_list_cursor = 0;
        self.move_to_list_filter = String::new();
        self.input_mode = InputMode::MovingToList;
    }

    /// Moves the picker's cursor up.
    pub fn move_to_list_move_up(&mut self)
        ensures
            picker_up(*old(self), *final(self)),
    {
        if self.move_to_list_cursor > 0 {
            self.move_to_list_cursor = self.move_to_list_cursor - 1;
        }
    }

    /// Moves the picker's cursor down.
    pub fn move_to_list_move_down(&mut self)
        requires
            old(self).doc.wf(),
        ensures
            picker_down(*old(self), *final(self)),
    {
        let n = self.move_to_list_targets().len();
        if self.move_to_list_cursor < n && self.move_to_list_cursor + 1 < n {
            self.move_to_list_cursor = self.move_to_list_cursor + 1;
        }
    }

    /// Adds a character to the picker's query.
    pub fn move_to_list_insert_char(&mut self, c: char)
        ensures
            picker_typed(*old(self), *final(self), c),
    {
        let mut v = crate::text::chars_of(self.move_to_list_filter.as_str());
        v.push(c);
        self.move_to_list_filter = crate::text::string_of(v.as_slice());
        self.move_to_list_cursor = 0;
    }

    /// Removes the last character of the picker's query.
    pub fn move_to_list_delete_char(&mut self)
        ensures
            picker_erased(*old(self), *final(self)),
    {
        let mut v = crate::text::chars_of(self.move_to_list_filter.as_str());
        if v.len() > 0 {
            v.pop();
        }
        self.move_to_list_filter = crate::text::string_of(v.as_slice());
        self.move_to_list_cursor = 0;
    }

    /// Closes the list picker.
    pub fn cancel_move_to_list(&mut self)
        ensures
            picker_cancelled(*old(self), *final(self)),
    {
        self.move_to_list_filter = String::new();
        self.input_mode = InputMode::Normal;
    }

    /// Moves the marked items, or the selected row's item, to the end of
    /// the list under the picker's cursor, keeping their display order.
    #[verifier::spinoff_prover]
    #[verifier::rlimit(100)]
    pub fn confirm_move_to_list(&mut self)
        requires
            old(self).wf(),
        ensures
            final(self).wf(),
            moved_to_list(*old(self), *final(self)),
    {
        let target_id = {
            let targets = self.move_to_list_targets();
            if self.move_to_list_cursor >= targets.len() {
                return;
            }
            let ti = targets[self.move_to_list_cursor].0;
            let lists = self.doc.ordered_lists();
            assert(targets_view(targets@)[self.move_to_list_cursor as int].0 == ti);
            assert(list_refs_view(lists@)[ti as int] == lists@[ti as int]@);
            lists[ti].id.clone()
        };
        let ghost a = *self;
        let ghost m = self.doc@.items;
        let ghost sset = move_set(*self);
        let ids: Vec<String> = if self.selected_items.len() == 0 {
            match self.resolve_selected_item() {
                Some(id) => {
                    let ghost idv = id@;
                    let mut v = Vec::new();
                    v.push(id);
                    proof {
                        assert(sset == set![idv]);
                        assert(strings_view(v@)[0] == idv);
                        assert forall|x: Seq<char>| strings_view(v@).to_set().contains(x) <==> sset.contains(x) by {
                            if x == idv {
                                assert(strings_view(v@).contains(x));
                            }
                        }
                        assert(strings_view(v@).to_set() =~= sset);
                    }
                    v
                },
                None => {
                    let v: Vec<String> = Vec::new();
                    assert(strings_view(v@).to_set() =~= sset);
                    v
                },
            }
        } else {
            let mut v: Vec<String> = Vec::new();
            let mut k: usize = 0;
            while k < self.selected_items.len()
                invariant
                    k <= self.selected_items.len(),
                    v@.len() == k,
                    forall|q: int| 0 <= q < k ==> (#[trigger] v@[q])@ == self.selected_items@[q]@,
                decreases self.selected_items.len() - k,
            {
                v.push(self.selected_items[k].clone());
                k = k + 1;
            }
            assert(strings_view(v@) =~= strings_view(self.selected_items@));
            v
        };
        let ghost sv = strings_view(ids@);
        let mut tmp = CrdtDocument::new();
        let mut k: usize = 0;
        while k < ids.len()
            invariant
                k <= ids.len(),
                sv == strings_view(ids@),
                tmp.wf(),
                self.doc.wf(),
                self.doc@.items == m,
                tmp@.items == sel_recs(m, sv.take(k as int).to_set()),
            decreases ids.len() - k,
        {
            let rec = match self.doc.get_item(ids[k].as_str()) {
                Some(x) => x.copy(),
                None => CrdtItem {
                    id: ids[k].clone(),
                    title: String::new(),
                    done: false,
                    tags: Vec::new(),
                    time_secs: 0,
                    list_id: None,
                    position: 0,
                    archived: false,
                },
            };
            proof {
                if m.contains_key(sv[k as int]) {
                    assert(rec@ == m[sv[k as int]]);
                } else {
                    assert(rec@.tags =~= Seq::<Seq<char>>::empty());
                    assert(rec@ == dummy_rec(sv[k as int]));
                }
                lemma_item_map_ids(self.doc.items@);
            }
            crate::crdt::item_put(&mut tmp.items, rec);
            proof {
                lemma_take_to_set(sv, k as int);
                assert(tmp@.items =~= sel_recs(m, sv.take(k + 1).to_set()));
            }
            k = k + 1;
        }
        assert(sv.take(ids.len() as int) == sv);
        assert(sv.to_set() == sset);
        let ghost rs = move_order(m, sset);
        assert(tmp@.items == sel_recs(m, sset));
        let order = {
            let rows = tmp.items_shown(&crate::crdt::ItemFilter::Any);
            assert((|i: ItemRec| crate::crdt::filter_shows(crate::crdt::ItemFilter::Any, i)) == (|i: ItemRec| true));
            proof {
                crate::crdt::lemma_shown_items(tmp@.items, |i: ItemRec| true, item_refs_view(rows@));
                lemma_shown_distinct(tmp@.items, |i: ItemRec| true, item_refs_view(rows@));
            }
            let o = row_ids(&rows);
            proof {
                let rv = item_refs_view(rows@);
                assert(rv == rs);
                assert forall|q: int| 0 <= q < o@.len() implies (#[trigger] o@[q])@ == rs[q].id by {
                    assert(rv[q] == rows@[q]@);
                }
                assert forall|id: Seq<char>| sset.contains(id) implies exists|q: int| 0 <= q < rs.len() && (#[trigger] rs[q]).id == id by {
                    assert(tmp@.items.contains_key(id));
                }
                assert forall|q: int| 0 <= q < rs.len() implies sset.contains((#[trigger] rs[q]).id) by {
                    assert(tmp@.items.contains_key(rs[q].id));
                }
            }
            o
        };
        let base = self.doc.next_position_for_list(target_id.as_str());
        self.push_undo();
        let ghost s0 = *self;
        let ghost t = target_id@;
        let mut i: usize = 0;
        while i < order.len()
            invariant
                i <= order.len(),
                order@.len() == rs.len(),
                forall|q: int| 0 <= q < order@.len() ==> (#[trigger] order@[q])@ == rs[q].id,
                distinct_ids(rs),
                t == target_id@,
                base == crate::doc_ops::next_pos_of(m, Some(t)),
                rs == move_order(m, sset),
                forall|id: Seq<char>| sset.contains(id) <==> exists|q: int| 0 <= q < rs.len() && (#[trigger] rs[q]).id == id,
                self.doc.wf(),
                self.doc@.lists == s0.doc@.lists,
                *self == (App { doc: self.doc, ..s0 }),
                self.doc@.items == Map::new(|id: Seq<char>| m.contains_key(id), |id: Seq<char>| if id_in_prefix(rs, i as int, id) {
                    ItemRec { list_id: Some(t), position: offset_pos(base as int, rank_of(rs, id)), ..m[id] }
                } else {
                    m[id]
                }),
            decreases order.len() - i,
        {
            match self.doc.get_item(order[i].as_str()) {
                Some(x) => {
                    let mut it = x.copy();
                    it.list_id = Some(target_id.clone());
                    it.position = offset_position(base, i);
                    proof {
                        let id = rs[i as int].id;
                        assert(rank_of(rs, id) == i) by {
                            let c = rank_of(rs, id);
                            assert(0 <= c < rs.len() && rs[c].id == id);
                            if c != i {
                                assert(rs[c].id != rs[i as int].id);
                            }
                        }
                    }
                    crate::crdt::item_put(&mut self.doc.items, it);
                },
                None => {},
            }
            proof {
                let id_i = rs[i as int].id;
                let cur = self.doc@.items;
                let want = Map::new(|id: Seq<char>| m.contains_key(id), |id: Seq<char>| if id_in_prefix(rs, i + 1, id) {
                    ItemRec { list_id: Some(t), position: offset_pos(base as int, rank_of(rs, id)), ..m[id] }
                } else {
                    m[id]
                });
                assert forall|id: Seq<char>| #[trigger] id_in_prefix(rs, i + 1, id) <==> (id_in_prefix(rs, i as int, id) || id == id_i) by {
                    if id_in_prefix(rs, i + 1, id) {
                        let q = choose|q: int| 0 <= q < i + 1 && (#[trigger] rs[q]).id == id;
                        if q < i {
                            assert(id_in_prefix(rs, i as int, id));
                        }
                    }
                    if id == id_i {
                        assert(rs[i as int].id == id);
                    }
                    if id_in_prefix(rs, i as int, id) {
                        let q = choose|q: int| 0 <= q < i && (#[trigger] rs[q]).id == id;
                        assert(rs[q].id == id);
                    }
                }
                assert(cur =~= want);
            }
            i = i + 1;
        }
        proof {
            let cur = self.doc@.items;
            assert(cur =~= moved_to(m, sset, t)) by {
                assert forall|id: Seq<char>| cur.contains_key(id) implies cur[id] == moved_to(m, sset, t)[id] by {
                    if sset.contains(id) {
                        let q = choose|q: int| 0 <= q < rs.len() && (#[trigger] rs[q]).id == id;
                        assert(id_in_prefix(rs, order@.len() as int, id));
                    }
                }
            }
        }
        self.selected_items = Vec::new();
        self.move_to_list_filter = String::new();
        self.input_mode = InputMode::Normal;
        self.rebuild_sidebar_entries();
        self.clamp_selection();
        self.save_doc();
    }
}


// ---------------------------------------------------------------------------
// Search
// ---------------------------------------------------------------------------

/// The query occurs in the lowercased text.
pub open spec fn lower_has(s: Seq<char>, q: Seq<char>) -> bool {
    crate::text::has_sub(crate::text::lowercase(s), q)
}

pub open spec fn title_hit(q: Seq<char>) -> spec_fn(ItemRec) -> bool {
    |i: ItemRec| lower_has(i.title, q)
}

/// Some tag of the item holds the query.
pub open spec fn item_tag_hit(i: ItemRec, q: Seq<char>) -> bool {
    exists|k: int| 0 <= k < i.tags.len() && lower_has(#[trigger] i.tags[k], q)
}

pub open spec fn tag_only_hit(q: Seq<char>) -> spec_fn(ItemRec) -> bool {
    |i: ItemRec| item_tag_hit(i, q) && !lower_has(i.title, q)
}

pub open spec fn tag_name_hit(q: Seq<char>) -> spec_fn(Seq<char>) -> bool {
    |t: Seq<char>| lower_has(t, q)
}

/// The rows of the first `n` lists, list after list.
pub open spec fn all_list_rows(m: Map<Seq<char>, ItemRec>, ls: Seq<ListRec>, n: int) -> Seq<ItemRec>
    decreases n,
{
    if n <= 0 {
        Seq::empty()
    } else {
        all_list_rows(m, ls, n - 1) + list_rows(m, ls[n - 1].id)
    }
}

/// The lists among the first `n` whose name holds the query.
pub open spec fn list_hits(ls: Seq<ListRec>, q: Seq<char>, n: int) -> Seq<ResultV>
    decreases n,
{
    if n <= 0 {
        Seq::empty()
    } else if lower_has(ls[n - 1].name, q) {
        list_hits(ls, q, n - 1).push(ResultV::List((n - 1) as usize))
    } else {
        list_hits(ls, q, n - 1)
    }
}

pub open spec fn item_results(rows: Seq<ItemRec>) -> Seq<ResultV> {
    rows.map_values(|i: ItemRec| ResultV::Item(i.id))
}

/// What a search for the typed text finds: lists whose name holds it, then
/// tags that hold it, then items where only a tag holds it, then items
/// whose title holds it, all compared in lowercase; nothing for an empty
/// query.
pub open spec fn search_spec(a: App) -> Seq<ResultV> {
    let q = crate::text::lowercase(a.input_buffer@);
    let m = a.doc@.items;
    let ls = lists_of(a);
    let rows = all_list_rows(m, ls, ls.len() as int);
    if q.len() == 0 {
        Seq::empty()
    } else {
        list_hits(ls, q, ls.len() as int) + doc_tags(m).filter(tag_name_hit(q)).map_values(|t: Seq<char>| ResultV::Tag(t))
            + item_results(rows.filter(tag_only_hit(q))) + item_results(rows.filter(title_hit(q)))
    }
}

fn lower_contains(s: &str, q: &Vec<char>) -> (r: bool)
    ensures
        r == lower_has(s@, q@),
{
    let l = crate::text::lowercase_chars(&crate::text::chars_of(s));
    crate::text::contains_chars(&l, q)
}

proof fn lemma_concat_filter_step(x: Seq<ItemRec>, cur: Seq<ItemRec>, k: int, p: spec_fn(ItemRec) -> bool)
    requires
        0 <= k < cur.len(),
    ensures
        (x + cur.take(k + 1)).filter(p) == (if p(cur[k]) {
            (x + cur.take(k)).filter(p).push(cur[k])
        } else {
            (x + cur.take(k)).filter(p)
        }),
{
    let y = x + cur;
    lemma_filter_take(y, p, x.len() + k);
    assert(y.take(x.len() + k + 1) =~= x + cur.take(k + 1));
    assert(y.take(x.len() + k) =~= x + cur.take(k));
    assert(y[x.len() + k] == cur[k]);
}

impl App {
    /// Opens the search box, empty.
    pub fn start_search(&mut self)
        ensures
            final(self).input_buffer@.len() == 0,
            final(self).search_results@.len() == 0,
            *final(self) == (App {
                input_mode: InputMode::Searching,
                input_buffer: final(self).input_buffer,
                input_pos: 0,
                input_cursor: 0,
                search_results: final(self).search_results,
                search_selected: 0,
                ..*old(self)
            }),
    {
        self.input_mode = InputMode::Searching;
        self.input_buffer = String::new();
        self.input_pos = 0;
        self.input_cursor = 0;
        self.search_results = Vec::new();
        self.search_selected = 0;
    }

    /// Searches for the typed text and keeps the selected hit in range.
    #[verifier::spinoff_prover]
    #[verifier::rlimit(60)]
    pub fn update_search_results(&mut self)
        requires
            old(self).doc.wf(),
        ensures
            search_updated(*old(self), *final(self)),
    {
        let q = crate::text::lowercase_chars(&crate::text::chars_of(self.input_buffer.as_str()));
        if q.len() == 0 {
            self.search_results = Vec::new();
            self.search_selected = 0;
            assert(results_view(self.search_results@) =~= Seq::<ResultV>::empty());
            return;
        }
        let ghost m = self.doc@.items;
        let ghost ls = lists_of(*self);
        let mut list_matches: Vec<SearchResult> = Vec::new();
        let mut tag_item_matches: Vec<SearchResult> = Vec::new();
        let mut title_matches: Vec<SearchResult> = Vec::new();
        let lists = self.doc.ordered_lists();
        let mut li: usize = 0;
        while li < lists.len()
            invariant
                li <= lists.len(),
                list_refs_view(lists@) == ls,
                ls == lists_of(*self),
                m == self.doc@.items,
                self.doc.wf(),
                results_view(list_matches@) == list_hits(ls, q@, li as int),
                results_view(tag_item_matches@) == item_results(all_list_rows(m, ls, li as int).filter(tag_only_hit(q@))),
                results_view(title_matches@) == item_results(all_list_rows(m, ls, li as int).filter(title_hit(q@))),
            decreases lists.len() - li,
        {
            let list = lists[li];
            assert(ls[li as int] == list@);
            if lower_contains(list.name.as_str(), &q) {
                let ghost before = list_matches@;
                list_matches.push(SearchResult::List(li));
                assert(results_view(list_matches@) =~= results_view(before).push(ResultV::List(li)));
            }
            let items = self.doc.items_for_list(list.id.as_str());
            let ghost x = all_list_rows(m, ls, li as int);
            let ghost cur = item_refs_view(items@);
            assert(x + cur.take(0) =~= x);
            let mut k: usize = 0;
            while k < items.len()
                invariant
                    k <= items.len(),
                    cur == item_refs_view(items@),
                    results_view(tag_item_matches@) == item_results((x + cur.take(k as int)).filter(tag_only_hit(q@))),
                    results_view(title_matches@) == item_results((x + cur.take(k as int)).filter(title_hit(q@))),
                decreases items.len() - k,
            {
                let it = items[k];
                assert(cur[k as int] == it@);
                proof {
                    lemma_concat_filter_step(x, cur, k as int, tag_only_hit(q@));
                    lemma_concat_filter_step(x, cur, k as int, title_hit(q@));
                }
                let title_match = lower_contains(it.title.as_str(), &q);
                let mut tag_match = false;
                let mut j: usize = 0;
                while j < it.tags.len()
                    invariant
                        j <= it.tags.len(),
                        tag_match == exists|t: int| 0 <= t < j && lower_has(#[trigger] it@.tags[t], q@),
                    decreases it.tags.len() - j,
                {
                    assert(it@.tags[j as int] == it.tags@[j as int]@);
                    if lower_contains(it.tags[j].as_str(), &q) {
                        tag_match = true;
                    }
                    j = j + 1;
                }
                assert(tag_match == item_tag_hit(it@, q@));
                if tag_match && !title_match {
                    let ghost before = tag_item_matches@;
                    tag_item_matches.push(SearchResult::Item(it.id.clone()));
                    assert(results_view(tag_item_matches@) =~= results_view(before).push(ResultV::Item(it@.id)));
                    assert(item_results((x + cur.take(k + 1)).filter(tag_only_hit(q@))) =~= item_results((x + cur.take(k as int)).filter(tag_only_hit(q@))).push(ResultV::Item(it@.id)));
                } else if title_match {
                    let ghost before = title_matches@;
                    title_matches.push(SearchResult::Item(it.id.clone()));
                    assert(results_view(title_matches@) =~= results_view(before).push(ResultV::Item(it@.id)));
                    assert(item_results((x + cur.take(k + 1)).filter(title_hit(q@))) =~= item_results((x + cur.take(k as int)).filter(title_hit(q@))).push(ResultV::Item(it@.id)));
                }
                k = k + 1;
            }
            assert(cur.take(items.len() as int) == cur);
            assert(all_list_rows(m, ls, li + 1) == x + cur);
            li = li + 1;
        }
        let mut tag_matches: Vec<SearchResult> = Vec::new();
        let tags = self.doc.all_tags();
        let ghost tv = strings_view(tags@);
        let mut t: usize = 0;
        while t < tags.len()
            invariant
                t <= tags.len(),
                tv == strings_view(tags@),
                results_view(tag_matches@) == tv.take(t as int).filter(tag_name_hit(q@)).map_values(|x: Seq<char>| ResultV::Tag(x)),
            decreases tags.len() - t,
        {
            proof {
                lemma_filter_take(tv, tag_name_hit(q@), t as int);
            }
            if lower_contains(tags[t].as_str(), &q) {
                let ghost before = tag_matches@;
                tag_matches.push(SearchResult::Tag(tags[t].clone()));
                assert(results_view(tag_matches@) =~= results_view(before).push(ResultV::Tag(tv[t as int])));
                assert(tv.take(t + 1).filter(tag_name_hit(q@)).map_values(|x: Seq<char>| ResultV::Tag(x)) =~= tv.take(t as int).filter(tag_name_hit(q@)).map_values(|x: Seq<char>| ResultV::Tag(x)).push(ResultV::Tag(tv[t as int])));
            }
            t = t + 1;
        }
        assert(tv.take(tags.len() as int) == tv);
        let ghost a1 = results_view(list_matches@);
        let ghost a2 = results_view(tag_matches@);
        let ghost a3 = results_view(tag_item_matches@);
        let ghost a4 = results_view(title_matches@);
        let mut results = list_matches;
        results.append(&mut tag_matches);
        results.append(&mut tag_item_matches);
        results.append(&mut title_matches);
        assert(results_view(results@) =~= a1 + a2 + a3 + a4);
        self.search_results = results;
        if self.search_results.len() == 0 {
            self.search_selected = 0;
        } else if self.search_selected >= self.search_results.len() {
            self.search_selected = self.search_results.len() - 1;
        }
    }

    /// Selects the next hit.
    pub fn search_select_next(&mut self)
        ensures
            hit_next(*old(self), *final(self)),
    {
        if self.search_selected < self.search_results.len() && self.search_selected + 1 < self.search_results.len() {
            self.search_selected = self.search_selected + 1;
        }
    }

    /// Selects the previous hit.
    pub fn search_select_prev(&mut self)
        ensures
            hit_prev(*old(self), *final(self)),
    {
        if self.search_selected > 0 {
            self.search_selected = self.search_selected - 1;
        }
    }
}


/// The index of the list with this id, if any.
pub open spec fn list_pos(ls: Seq<ListRec>, id: Seq<char>) -> Option<int> {
    if exists|k: int| 0 <= k < ls.len() && ls[k].id == id {
        Some(choose|k: int| 0 <= k < ls.len() && ls[k].id == id && forall|j: int| 0 <= j < k ==> ls[j].id != id)
    } else {
        None
    }
}

/// The index of the first sidebar entry for tag `t`, if any.
pub open spec fn tag_entry_pos(es: Seq<SidebarEntry>, t: Seq<char>) -> Option<int> {
    if exists|k: int| 0 <= k < es.len() && es[k]@ == EntryV::Tag(t) {
        Some(choose|k: int| 0 <= k < es.len() && es[k]@ == EntryV::Tag(t) && forall|j: int| 0 <= j < k ==> es[j]@ != EntryV::Tag(t))
    } else {
        None
    }
}

fn entry_is_tag(e: &SidebarEntry, t: &str) -> (r: bool)
    ensures
        r == (e@ == EntryV::Tag(t@)),
{
    match e {
        SidebarEntry::Tag(x) => crate::text::str_eq(x.as_str(), t),
        _ => false,
    }
}

/// Where a search hit takes the selection.
pub open spec fn goto_hit(a: App, r: ResultV) -> App {
    match r {
        ResultV::List(li) => App { selected_list_index: li, selected_sidebar_index: li, selected_item_index: 0, active_pane: Pane::Main, ..a },
        ResultV::Item(id) => {
            let m = a.doc@.items;
            if !m.contains_key(id) {
                a
            } else {
                let a0 = if m[id].done { App { show_done: true, ..a } } else { a };
                match m[id].list_id {
                    None => a0,
                    Some(l) => match list_pos(lists_of(a0), l) {
                        None => a0,
                        Some(li) => {
                            let a2 = App { selected_list_index: li as usize, selected_sidebar_index: li as usize, active_pane: Pane::Main, ..a0 };
                            match row_index(visible_rows(a2), id) {
                                Some(vi) => App { selected_item_index: vi as usize, ..a2 },
                                None => a2,
                            }
                        },
                    },
                }
            }
        },
        ResultV::Tag(t) => match tag_entry_pos(a.sidebar_entries@, t) {
            Some(i) => App { selected_sidebar_index: i as usize, selected_item_index: 0, active_pane: Pane::Main, ..a },
            None => a,
        },
    }
}

/// `b` is `a` after acting on the selected hit: the selection goes there
/// and the search box closes; with no hit selected nothing changes.
pub open spec fn search_hit_selected(a: App, b: App) -> bool {
    if a.search_selected >= a.search_results@.len() {
        b == a
    } else {
        let a1 = goto_hit(a, a.search_results@[a.search_selected as int]@);
        &&& b.input_buffer@.len() == 0
        &&& b.search_results@.len() == 0
        &&& b == (App {
            input_mode: InputMode::Normal,
            input_buffer: b.input_buffer,
            input_pos: 0,
            input_cursor: 0,
            search_results: b.search_results,
            search_selected: 0,
            ..a1
        })
    }
}

impl App {
    fn find_list(&self, id: &str) -> (r: Option<usize>)
        requires
            self.doc.wf(),
        ensures
            match list_pos(lists_of(*self), id@) {
                Some(k) => r == Some(k as usize),
                None => r.is_none(),
            },
    {
        let lists = self.doc.ordered_lists();
        let ghost ls = lists_of(*self);
        let mut k: usize = 0;
        while k < lists.len() && !crate::text::str_eq(lists[k].id.as_str(), id)
            invariant
                k <= lists.len(),
                list_refs_view(lists@) == ls,
                forall|j: int| 0 <= j < k ==> ls[j].id != id@,
            decreases lists.len() - k,
        {
            assert(ls[k as int] == lists@[k as int]@);
            k = k + 1;
        }
        proof {
            if k < lists.len() {
                assert(ls[k as int] == lists@[k as int]@);
                let c = choose|c: int| 0 <= c < ls.len() && ls[c].id == id@ && forall|j: int| 0 <= j < c ==> ls[j].id != id@;
                if c < k {
                    assert(ls[c].id != id@);
                }
                if c > k {
                    assert(ls[k as int].id != id@);
                }
            }
        }
        if k < lists.len() {
            Some(k)
        } else {
            None
        }
    }

    fn find_row(&self, id: &str) -> (r: Option<usize>)
        requires
            self.doc.wf(),
        ensures
            match row_index(visible_rows(*self), id@) {
                Some(k) => r == Some(k as usize),
                None => r.is_none(),
            },
    {
        let visible = self.visible_items();
        let ghost s = pair_rows(visible@);
        let mut k: usize = 0;
        while k < visible.len() && !crate::text::str_eq(visible[k].0, id)
            invariant
                k <= visible@.len(),
                s == pair_rows(visible@),
                pairs_ok(visible@),
                forall|j: int| 0 <= j < k ==> s[j].id != id@,
            decreases visible.len() - k,
        {
            assert(s[k as int] == visible@[k as int].1@);
            k = k + 1;
        }
        proof {
            if k < visible@.len() {
                assert(s[k as int] == visible@[k as int].1@);
                let c = choose|c: int| 0 <= c < s.len() && s[c].id == id@ && forall|j: int| 0 <= j < c ==> s[j].id != id@;
                if c < k {
                    assert(s[c].id != id@);
                }
                if c > k {
                    assert(s[k as int].id != id@);
                }
            }
        }
        if k < visible.len() {
            Some(k)
        } else {
            None
        }
    }

    fn find_tag_entry(&self, t: &str) -> (r: Option<usize>)
        ensures
            match tag_entry_pos(self.sidebar_entries@, t@) {
                Some(k) => r == Some(k as usize),
                None => r.is_none(),
            },
    {
        let es = &self.sidebar_entries;
        let mut k: usize = 0;
        while k < es.len() && !entry_is_tag(&es[k], t)
            invariant
                k <= es@.len(),
                forall|j: int| 0 <= j < k ==> es@[j]@ != EntryV::Tag(t@),
            decreases es.len() - k,
        {
            k = k + 1;
        }
        proof {
            if k < es@.len() {
                assert(es@[k as int]@ == EntryV::Tag(t@));
                let c = choose|c: int| 0 <= c < es@.len() && es@[c]@ == EntryV::Tag(t@) && forall|j: int| 0 <= j < c ==> es@[j]@ != EntryV::Tag(t@);
                if c < k {
                    assert(es@[c]@ != EntryV::Tag(t@));
                }
                if c > k {
                    assert(es@[k as int]@ != EntryV::Tag(t@));
                }
            }
        }
        if k < es.len() {
            Some(k)
        } else {
            None
        }
    }

    fn goto_item_hit(&mut self, item_id: &String)
        requires
            old(self).doc.wf(),
        ensures
            *final(self) == goto_hit(*old(self), ResultV::Item(item_id@)),
    {
        match self.doc.get_item(item_id.as_str()) {
            Some(it) => {
                let done = it.done;
                let lid = match &it.list_id {
                    Some(l) => Some(l.clone()),
                    None => None,
                };
                if done {
                    self.show_done = true;
                }
                match lid {
                    Some(l) => {
                        match self.find_list(l.as_str()) {
                            Some(li) => {
                                self.selected_list_index = li;
                                self.selected_sidebar_index = li;
                                self.active_pane = Pane::Main;
                                match self.find_row(item_id.as_str()) {
                                    Some(vi) => {
                                        self.selected_item_index = vi;
                                    },
                                    None => {},
                                }
                            },
                            None => {},
                        }
                    },
                    None => {},
                }
            },
            None => {},
        }
    }

    fn goto_tag_hit(&mut self, name: &String)
        ensures
            *final(self) == goto_hit(*old(self), ResultV::Tag(name@)),
    {
        match self.find_tag_entry(name.as_str()) {
            Some(idx) => {
                self.selected_sidebar_index = idx;
                self.selected_item_index = 0;
                self.active_pane = Pane::Main;
            },
            None => {},
        }
    }

    /// Acts on the selected search hit: selects the list, the item (showing
    /// done items if it is done) or the tag view, and closes the search box.
    pub fn select_search_result(&mut self)
        requires
            old(self).doc.wf(),
        ensures
            search_hit_selected(*old(self), *final(self)),
    {
        if self.search_selected >= self.search_results.len() {
            return;
        }
        let ghost a = *self;
        let ghost rv = self.search_results@[self.search_selected as int]@;
        let hit = match &self.search_results[self.search_selected] {
            SearchResult::List(li) => SearchResult::List(*li),
            SearchResult::Item(id) => SearchResult::Item(id.clone()),
            SearchResult::Tag(t) => SearchResult::Tag(t.clone()),
        };
        assert(hit@ == rv);
        match &hit {
            SearchResult::List(li) => {
                let li = *li;
                self.selected_list_index = li;
                self.selected_sidebar_index = li;
                self.selected_item_index = 0;
                self.active_pane = Pane::Main;
            },
            SearchResult::Item(item_id) => {
                self.goto_item_hit(item_id);
            },
            SearchResult::Tag(name) => {
                self.goto_tag_hit(name);
            },
        }
        assert(*self == goto_hit(a, rv));
        self.input_mode = InputMode::Normal;
        self.input_buffer = String::new();
        self.input_pos = 0;
        self.input_cursor = 0;
        self.search_results = Vec::new();
        self.search_selected = 0;
    }
}


// ---------------------------------------------------------------------------
// Tag completion
// ---------------------------------------------------------------------------

/// The index of the last `@` in `s`, if any.
pub open spec fn last_at(s: Seq<char>) -> Option<int> {
    if exists|i: int| 0 <= i < s.len() && s[i] == '@' {
        Some(choose|i: int| 0 <= i < s.len() && s[i] == '@' && forall|j: int| i < j < s.len() ==> s[j] != '@')
    } else {
        None
    }
}

pub open spec fn completes(partial: Seq<char>) -> spec_fn(Seq<char>) -> bool {
    |t: Seq<char>| crate::text::has_prefix(crate::text::lowercase(t), crate::text::lowercase(partial))
}

/// The tags that complete the word being typed: it starts with `@` (at the
/// start of the text or after a space), has no space after it, and some tag
/// starts with what follows the `@`, ignoring case.
pub open spec fn completions(a: App) -> Option<Seq<Seq<char>>> {
    let before = a.input_buffer@.take(a.input_pos as int);
    match last_at(before) {
        Some(p) => if p == 0 || before[p - 1] == ' ' {
            let partial = before.skip(p + 1);
            if !partial.contains(' ') {
                let sug = doc_tags(a.doc@.items).filter(completes(partial));
                if sug.len() > 0 { Some(sug) } else { None }
            } else {
                None
            }
        } else {
            None
        },
        None => None,
    }
}

/// The input modes where tags are completed.
pub open spec fn completing_mode(m: InputMode) -> bool {
    m == InputMode::AddingItem || m == InputMode::EditingItem || m == InputMode::EditingTags
}

fn last_at_exec(v: &Vec<char>, end: usize) -> (r: Option<usize>)
    requires
        end <= v@.len(),
    ensures
        last_at(v@.take(end as int)) == (match r {
            Some(i) => Some(i as int),
            None => None,
        }),
        r matches Some(p) ==> p < end && v@[p as int] == '@',
{
    let ghost s = v@.take(end as int);
    let mut i: usize = end;
    while i > 0 && v[i - 1] != '@'
        invariant
            i <= end,
            end <= v@.len(),
            s == v@.take(end as int),
            forall|j: int| i <= j < end ==> s[j] != '@',
        decreases i,
    {
        i = i - 1;
    }
    proof {
        if i > 0 {
            let p = (i - 1) as int;
            assert(s[p] == '@');
            let c = choose|c: int| 0 <= c < s.len() && s[c] == '@' && forall|j: int| c < j < s.len() ==> s[j] != '@';
            if c < p {
                assert(s[p] != '@');
            }
            if c > p {
                assert(s[c] != '@');
            }
        } else {
            assert(!(exists|k: int| 0 <= k < s.len() && s[k] == '@'));
        }
    }
    if i > 0 {
        Some(i - 1)
    } else {
        None
    }
}

impl App {
    /// Offers the tags that complete the word being typed, in the modes
    /// that complete tags.
    #[verifier::spinoff_prover]
    #[verifier::rlimit(40)]
    pub fn update_autocomplete(&mut self)
        requires
            old(self).doc.wf(),
            old(self).input_pos <= old(self).input_buffer@.len(),
        ensures
            completion_updated(*old(self), *final(self)),
    {
        let mode = self.input_mode;
        if !(mode == InputMode::AddingItem || mode == InputMode::EditingItem || mode == InputMode::EditingTags) {
            self.autocomplete_active = false;
            self.autocomplete_suggestions = Vec::new();
            return;
        }
        let v = crate::text::chars_of(self.input_buffer.as_str());
        assert(v@ == self.input_buffer@);
        let ghost before = v@.take(self.input_pos as int);
        let ghost comp = completions(*self);
        match last_at_exec(&v, self.input_pos) {
            Some(at) => {
                if !(at == 0 || v[at - 1] == ' ') {
                    assert(before[at - 1] == v@[at - 1]);
                    assert(comp.is_none());
                }
                if at == 0 || v[at - 1] == ' ' {
                    assert(at > 0 ==> before[at - 1] == v@[at - 1]);
                    let partial = crate::text::sub_chars(&v, at + 1, self.input_pos);
                    assert(partial@ =~= before.skip(at + 1));
                    let mut has_space = false;
                    let mut k: usize = 0;
                    while k < partial.len()
                        invariant
                            k <= partial.len(),
                            has_space == exists|j: int| 0 <= j < k && partial@[j] == ' ',
                        decreases partial.len() - k,
                    {
                        if partial[k] == ' ' {
                            has_space = true;
                        }
                        k = k + 1;
                    }
                    assert(has_space == partial@.contains(' '));
                    if has_space {
                        assert(comp.is_none());
                    }
                    if !has_space {
                        let lp = crate::text::lowercase_chars(&partial);
                        let tags = self.doc.all_tags();
                        let ghost tv = strings_view(tags@);
                        let mut sug: Vec<String> = Vec::new();
                        let mut t: usize = 0;
                        while t < tags.len()
                            invariant
                                t <= tags.len(),
                                tv == strings_view(tags@),
                                lp@ == crate::text::lowercase(partial@),
                                strings_view(sug@) == tv.take(t as int).filter(completes(partial@)),
                            decreases tags.len() - t,
                        {
                            proof {
                                lemma_filter_take(tv, completes(partial@), t as int);
                            }
                            let lt = crate::text::lowercase_chars(&crate::text::chars_of(tags[t].as_str()));
                            if crate::text::starts_with(&lt, &lp) {
                                let ghost b = sug@;
                                sug.push(tags[t].clone());
                                assert(strings_view(sug@) =~= strings_view(b).push(tv[t as int]));
                            }
                            t = t + 1;
                        }
                        assert(tv.take(tags.len() as int) == tv);
                        if sug.len() > 0 {
                            assert(comp == Some(strings_view(sug@)));
                        } else {
                            assert(comp.is_none());
                        }
                        if sug.len() > 0 {
                            self.autocomplete_suggestions = sug;
                            self.autocomplete_cursor = 0;
                            self.autocomplete_active = true;
                            return;
                        }
                    }
                }
            },
            None => {
                assert(comp.is_none());
            },
        }
        self.autocomplete_active = false;
        self.autocomplete_suggestions = Vec::new();
    }

    /// Replaces the word being typed by the suggestion under the cursor.
    #[verifier::spinoff_prover]
    #[verifier::rlimit(40)]
    pub fn accept_autocomplete(&mut self)
        requires
            old(self).wf(),
        ensures
            final(self).wf(),
            completion_accepted(*old(self), *final(self)),
    {
        if !self.autocomplete_active || self.autocomplete_cursor >= self.autocomplete_suggestions.len() {
            return;
        }
        let sug = crate::text::chars_of(self.autocomplete_suggestions[self.autocomplete_cursor].as_str());
        let v = crate::text::chars_of(self.input_buffer.as_str());
        assert(v@ == self.input_buffer@);
        match last_at_exec(&v, self.input_pos) {
            Some(at) => {
                let mut out = crate::text::sub_chars(&v, 0, at);
                out.push('@');
                crate::text::push_all(&mut out, &sug);
                let tail = crate::text::sub_chars(&v, self.input_pos, v.len());
                crate::text::push_all(&mut out, &tail);
                assert(out@ =~= v@.take(at as int) + seq!['@'] + sug@ + v@.skip(self.input_pos as int));
                let n = out.len();
                assert(at + 1 + sug@.len() <= n);
                self.input_buffer = crate::text::string_of(out.as_slice());
                self.input_pos = at + 1 + sug.len();
                self.input_cursor = byte_offset(&out, self.input_pos);
            },
            None => {},
        }
        self.autocomplete_active = false;
        self.autocomplete_suggestions = Vec::new();
    }

    /// Hides the suggestions.
    pub fn dismiss_autocomplete(&mut self)
        ensures
            completion_dismissed(*old(self), *final(self)),
    {
        self.autocomplete_active = false;
        self.autocomplete_suggestions = Vec::new();
        self.autocomplete_cursor = 0;
    }

    /// Moves the suggestion cursor up.
    pub fn autocomplete_move_up(&mut self)
        ensures
            completion_up(*old(self), *final(self)),
    {
        if self.autocomplete_cursor > 0 {
            self.autocomplete_cursor = self.autocomplete_cursor - 1;
        }
    }

    /// Moves the suggestion cursor down.
    pub fn autocomplete_move_down(&mut self)
        ensures
            completion_down(*old(self), *final(self)),
    {
        if self.autocomplete_cursor < self.autocomplete_suggestions.len() && self.autocomplete_cursor + 1 < self.autocomplete_suggestions.len() {
            self.autocomplete_cursor = self.autocomplete_cursor + 1;
        }
    }
}


// ---------------------------------------------------------------------------
// Confirming the input line, contexts
// ---------------------------------------------------------------------------

/// `b` is `a` after setting the selected item's title.
pub open spec fn title_set(a: App, b: App, t: Seq<char>) -> bool {
    match selected_item_spec(a) {
        None => b == a,
        Some(id) => doc_edit(a, b, with_item(a.doc@, id, ItemRec { title: t, ..a.doc@.items[id] })),
    }
}

/// `b` is `a` after setting the selected item's tags to those typed.
pub open spec fn tags_set(a: App, b: App, s: Seq<char>) -> bool {
    match selected_item_spec(a) {
        None => b == a,
        Some(id) => doc_edit_rebuilt(a, b, with_item(a.doc@, id, ItemRec { tags: typed_tags(s), ..a.doc@.items[id] })),
    }
}

/// `b` is `a` after setting the selected item's time.
pub open spec fn time_set(a: App, b: App, secs: u64) -> bool {
    match selected_item_spec(a) {
        None => b == a,
        Some(id) => doc_edit(a, b, with_item(a.doc@, id, ItemRec { time_secs: secs, ..a.doc@.items[id] })),
    }
}

/// `b` is `a` after renaming the selected list; a blank name changes
/// nothing.
pub open spec fn list_renamed(a: App, b: App, name: Seq<char>) -> bool {
    if crate::text::trim(name).len() == 0 {
        b == a
    } else {
        match selected_list_spec(a) {
            None => b == a,
            Some(l) => doc_edit(a, b, with_list(a.doc@, l, ListRec { name, ..a.doc@.lists[l] })),
        }
    }
}

/// The directory name of a context: its name in lowercase, spaces turned
/// into dashes.
pub open spec fn context_slug_spec(name: Seq<char>) -> Seq<char> {
    crate::text::lowercase(name).map_values(|c: char| if c == ' ' { '-' } else { c })
}

/// The seconds typed in the time editor; 0 where the text is no duration
/// or does not fit.
pub open spec fn typed_secs(s: Seq<char>) -> u64 {
    if crate::storage::time_fits(s) {
        match crate::storage::time_value(s) {
            Some(v) => v as u64,
            None => 0,
        }
    } else {
        0
    }
}

/// `b` is `a` after confirming the input line, `r` the context it asks to
/// create: the text goes to the action of the mode, then the line closes;
/// for a new context, a blank name closes it and any other name is handed
/// back with the state unchanged.
pub open spec fn input_confirmed(a: App, b: App, r: Option<String>) -> bool {
    let mid = App { input_mode: a.input_mode, input_buffer: a.input_buffer, input_pos: a.input_pos, input_cursor: a.input_cursor, ..b };
    let text = a.input_buffer@;
    if a.input_mode == InputMode::CreatingContext {
        let slug = context_slug_spec(text);
        if slug.len() == 0 {
            r.is_none() && b == (App { input_mode: InputMode::Normal, ..a })
        } else {
            opt_view(r) == Some(slug) && b == a
        }
    } else {
        &&& r.is_none()
        &&& b.input_mode == InputMode::Normal
        &&& b.input_buffer@.len() == 0
        &&& b.input_pos == 0
        &&& b.input_cursor == 0
        &&& match a.input_mode {
            InputMode::AddingItem => exists|id: Seq<char>| #[trigger] todo_added(a, mid, text, id),
            InputMode::AddingList => exists|id: Seq<char>| #[trigger] list_added(a, mid, text, id),
            InputMode::RenamingList => list_renamed(a, mid, text),
            InputMode::EditingItem => title_set(a, mid, text),
            InputMode::EditingTags => tags_set(a, mid, text),
            InputMode::EditingTime => time_set(a, mid, typed_secs(text)),
            _ => mid == a,
        }
    }
}

/// The directory name of a context.
pub fn context_slug(name: &str) -> (r: String)
    ensures
        r@ == context_slug_spec(name@),
{
    let l = crate::text::lowercase_chars(&crate::text::chars_of(name));
    let mut out: Vec<char> = Vec::new();
    let mut i: usize = 0;
    while i < l.len()
        invariant
            i <= l.len(),
            out@ == l@.take(i as int).map_values(|c: char| if c == ' ' { '-' } else { c }),
        decreases l.len() - i,
    {
        let c = l[i];
        out.push(if c == ' ' { '-' } else { c });
        assert(l@.take(i + 1) == l@.take(i as int).push(c));
        assert(out@ =~= l@.take(i + 1).map_values(|c: char| if c == ' ' { '-' } else { c }));
        i = i + 1;
    }
    assert(l@.take(l.len() as int) == l@);
    crate::text::string_of(out.as_slice())
}

/// The contexts the switcher offers: every other context whose name holds
/// the typed query, ignoring case.
pub open spec fn context_offer(a: App, available: Seq<Seq<char>>) -> Seq<Seq<char>> {
    let q = crate::text::lowercase(a.context_filter@);
    available.filter(|c: Seq<char>| c != a.current_context@ && (q.len() == 0 || crate::text::has_sub(crate::text::lowercase(c), q)))
}

impl App {
    /// Acts on the input line; returns the name of a context to create and
    /// switch to, if that is what was typed.
    #[verifier::spinoff_prover]
    #[verifier::rlimit(40)]
    pub fn confirm_input(&mut self) -> (r: Option<String>)
        requires
            old(self).wf(),
        ensures
            final(self).wf(),
            input_confirmed(*old(self), *final(self), r),
    {
        let buffer = self.input_buffer.clone();
        let ghost a = *self;
        match self.input_mode {
            InputMode::AddingItem => {
                self.add_todo(buffer);
            },
            InputMode::AddingList => {
                self.add_list(buffer);
            },
            InputMode::RenamingList => {
                self.rename_list(buffer);
            },
            InputMode::EditingItem => {
                self.edit_todo_title(buffer);
            },
            InputMode::EditingTags => {
                self.edit_todo_tags(buffer);
            },
            InputMode::EditingTime => {
                let secs = if crate::storage::time_fits_str(buffer.as_str()) {
                    match crate::storage::parse_time_str(buffer.as_str()) {
                        Some(v) => v,
                        None => 0,
                    }
                } else {
                    0
                };
                self.set_item_time(secs);
            },
            InputMode::CreatingContext => {
                let slug = context_slug(buffer.as_str());
                if crate::text::chars_of(slug.as_str()).len() == 0 {
                    self.input_mode = InputMode::Normal;
                    return None;
                }
                return Some(slug);
            },
            _ => {},
        }
        let ghost mid = *self;
        self.input_mode = InputMode::Normal;
        self.input_buffer = String::new();
        self.input_pos = 0;
        self.input_cursor = 0;
        assert(mid == (App { input_mode: a.input_mode, input_buffer: a.input_buffer, input_pos: a.input_pos, input_cursor: a.input_cursor, ..*self }));
        None
    }

    /// The contexts the switcher offers, out of those that exist.
    pub fn context_targets(&self, available: &Vec<String>) -> (r: Vec<String>)
        ensures
            strings_view(r@) == context_offer(*self, strings_view(available@)),
    {
        let q = crate::text::lowercase_chars(&crate::text::chars_of(self.context_filter.as_str()));
        let ghost av = strings_view(available@);
        let ghost p = |c: Seq<char>| c != self.current_context@ && (q@.len() == 0 || crate::text::has_sub(crate::text::lowercase(c), q@));
        let mut out: Vec<String> = Vec::new();
        let mut i: usize = 0;
        while i < available.len()
            invariant
                i <= available.len(),
                av == strings_view(available@),
                q@ == crate::text::lowercase(self.context_filter@),
                p == (|c: Seq<char>| c != self.current_context@ && (q@.len() == 0 || crate::text::has_sub(crate::text::lowercase(c), q@))),
                strings_view(out@) == av.take(i as int).filter(p),
            decreases available.len() - i,
        {
            proof {
                lemma_filter_take(av, p, i as int);
            }
            let c = &available[i];
            let keep = !crate::text::str_eq(c.as_str(), self.current_context.as_str()) && (q.len() == 0 || {
                let lc = crate::text::lowercase_chars(&crate::text::chars_of(c.as_str()));
                crate::text::contains_chars(&lc, &q)
            });
            if keep {
                let ghost b = out@;
                out.push(c.clone());
                assert(strings_view(out@) =~= strings_view(b).push(av[i as int]));
            }
            i = i + 1;
        }
        assert(av.take(available.len() as int) == av);
        out
    }

    /// Opens the context switcher.
    pub fn start_switch_context(&mut self)
        ensures
            final(self).context_filter@.len() == 0,
            *final(self) == (App {
                context_cursor: 0,
                context_filter: final(self).context_filter,
                input_mode: InputMode::SwitchingContext,
                ..*old(self)
            }),
    {
        self.context_cursor = 0;
        self.context_filter = String::new();
        self.input_mode = InputMode::SwitchingContext;
    }

    /// Moves the switcher's cursor up.
    pub fn context_move_up(&mut self)
        ensures
            switcher_up(*old(self), *final(self)),
    {
        if self.context_cursor > 0 {
            self.context_cursor = self.context_cursor - 1;
        }
    }

    /// Moves the switcher's cursor down; the last place is the entry that
    /// creates a new context.
    pub fn context_move_down(&mut self, available: &Vec<String>)
        ensures
            switcher_down(*old(self), *final(self), available@),
    {
        let n = self.context_targets(available).len();
        if self.context_cursor < n {
            self.context_cursor = self.context_cursor + 1;
        }
    }

    /// Adds a character to the switcher's query.
    pub fn context_insert_char(&mut self, c: char)
        ensures
            switcher_typed(*old(self), *final(self), c),
    {
        let mut v = crate::text::chars_of(self.context_filter.as_str());
        v.push(c);
        self.context_filter = crate::text::string_of(v.as_slice());
        self.context_cursor = 0;
    }

    /// Removes the last character of the switcher's query.
    pub fn context_delete_char(&mut self)
        ensures
            switcher_erased(*old(self), *final(self)),
    {
        let mut v = crate::text::chars_of(self.context_filter.as_str());
        if v.len() > 0 {
            v.pop();
        }
        self.context_filter = crate::text::string_of(v.as_slice());
        self.context_cursor = 0;
    }

    /// Acts on the switcher: returns the context under the cursor to switch
    /// to, or, on the last entry, opens the input line for a new context.
    pub fn confirm_context_switch(&mut self, available: &Vec<String>) -> (r: Option<String>)
        ensures
            ({
                let offer = context_offer(*old(self), strings_view(available@));
                if old(self).context_cursor < offer.len() {
                    opt_view(r) == Some(offer[old(self).context_cursor as int]) && *final(self) == *old(self)
                } else {
                    &&& r.is_none()
                    &&& final(self).context_filter@.len() == 0
                    &&& final(self).input_buffer@.len() == 0
                    &&& *final(self) == (App {
                        context_filter: final(self).context_filter,
                        input_mode: InputMode::CreatingContext,
                        input_buffer: final(self).input_buffer,
                        input_pos: 0,
                        input_cursor: 0,
                        ..*old(self)
                    })
                }
            }),
    {
        let targets = self.context_targets(available);
        if self.context_cursor < targets.len() {
            return Some(targets[self.context_cursor].clone());
        }
        self.context_filter = String::new();
        self.input_mode = InputMode::CreatingContext;
        self.input_buffer = String::new();
        self.input_pos = 0;
        self.input_cursor = 0;
        None
    }

    /// Closes the switcher.
    pub fn cancel_context_switch(&mut self)
        ensures
            switcher_cancelled(*old(self), *final(self)),
    {
        self.context_filter = String::new();
        self.input_mode = InputMode::Normal;
    }

    /// Takes up the document of context `name`, just loaded: selections,
    /// history, marks and the tag filter start afresh.
    pub fn enter_context(&mut self, name: String, doc: CrdtDocument)
        requires
            old(self).wf(),
            doc.wf(),
        ensures
            final(self).wf(),
            final(self).doc == doc,
            final(self).current_context == name,
            final(self).undo_stack@.len() == 0,
            final(self).redo_stack@.len() == 0,
            final(self).selected_items@.len() == 0,
            final(self).filter_tags@.len() == 0,
            entries_view(final(self).sidebar_entries@) == sidebar_spec(doc@),
            *final(self) == (App {
                doc: final(self).doc,
                current_context: final(self).current_context,
                selected_list_index: 0,
                selected_item_index: 0,
                selected_sidebar_index: 0,
                undo_stack: final(self).undo_stack,
                redo_stack: final(self).redo_stack,
                selected_items: final(self).selected_items,
                filter_tags: final(self).filter_tags,
                sidebar_entries: final(self).sidebar_entries,
                input_mode: InputMode::Normal,
                ..*old(self)
            }),
    {
        self.current_context = name;
        self.doc = doc;
        self.selected_list_index = 0;
        self.selected_item_index = 0;
        self.selected_sidebar_index = 0;
        self.undo_stack = Vec::new();
        self.redo_stack = Vec::new();
        self.selected_items = Vec::new();
        self.filter_tags = Vec::new();
        self.rebuild_sidebar_entries();
        self.input_mode = InputMode::Normal;
    }

    /// Takes up a document that the sync server merged in.
    pub fn apply_remote_doc(&mut self, doc: CrdtDocument)
        requires
            old(self).wf(),
            doc.wf(),
        ensures
            final(self).wf(),
            final(self).doc == doc,
            entries_view(final(self).sidebar_entries@) == sidebar_spec(doc@),
            *final(self) == (App {
                doc: final(self).doc,
                sidebar_entries: final(self).sidebar_entries,
                selected_sidebar_index: rebuilt_index(old(self).selected_sidebar_index, final(self).sidebar_entries@.len() as int),
                dirty: true,
                ..*old(self)
            }),
    {
        self.doc = doc;
        self.rebuild_sidebar_entries();
        self.dirty = true;
    }

    /// Notes whether the sync server is connected.
    pub fn set_sync_connected(&mut self, connected: bool)
        ensures
            *final(self) == (App { sync_connected: connected, ..*old(self) }),
    {
        self.sync_connected = connected;
    }

    /// Stops the main loop; the caller writes the document and stops sync.
    pub fn quit(&mut self)
        ensures
            *final(self) == (App { running: false, ..*old(self) }),
    {
        self.running = false;
    }

    /// The document has changes not yet written.
    pub fn is_dirty(&self) -> (r: bool)
        ensures
            r == self.dirty,
    {
        self.dirty
    }

    /// Notes that the document was written.
    pub fn mark_saved(&mut self)
        ensures
            *final(self) == (App { dirty: false, needs_full_reconcile: false, ..*old(self) }),
    {
        self.dirty = false;
        self.needs_full_reconcile = false;
    }
}


// ---------------------------------------------------------------------------
// Named transitions
// ---------------------------------------------------------------------------

/// `b` is `a` with the first sidebar entry or row selected.
pub open spec fn jumped_first(a: App, b: App) -> bool {
    match a.active_pane {
        Pane::Sidebar => if a.selected_sidebar_index != 0 {
            synced(a, 0, b)
        } else {
            b == a
        },
        Pane::Main => b == (App { selected_item_index: 0, ..a })
    }
}

/// `b` is `a` with the selection moved down by a page.
pub open spec fn paged_down(a: App, b: App, page_size: usize) -> bool {
    match a.active_pane {
        Pane::Sidebar => {
            let n = a.sidebar_entries@.len();
            let cur = a.selected_sidebar_index;
            let target = if cur + page_size < n - 1 { cur + page_size } else { n - 1 };
            if n > 0 && target != cur {
                synced(a, target as usize, b)
            } else {
                b == a
            }
        },
        Pane::Main => {
            let n = nav_rows(a).len();
            let cur = a.selected_item_index;
            if n > 0 {
                b == (App { selected_item_index: (if cur + page_size < n - 1 { cur + page_size } else { n - 1 }) as usize, ..a })
            } else {
                b == a
            }
        }
    }
}

/// `b` is `a` with the selection moved up by a page.
pub open spec fn paged_up(a: App, b: App, page_size: usize) -> bool {
    match a.active_pane {
        Pane::Sidebar => {
            let cur = a.selected_sidebar_index;
            let target = if cur >= page_size { cur - page_size } else { 0 };
            if target != cur {
                synced(a, target as usize, b)
            } else {
                b == a
            }
        },
        Pane::Main => {
            let cur = a.selected_item_index;
            b == (App { selected_item_index: (if cur >= page_size { cur - page_size } else { 0 }) as usize, ..a })
        }
    }
}

/// `b` is `a` with the last sidebar entry or row selected.
pub open spec fn jumped_last(a: App, b: App) -> bool {
    match a.active_pane {
        Pane::Sidebar => {
            let n = a.sidebar_entries@.len();
            if n > 0 && a.selected_sidebar_index != n - 1 {
                synced(a, (n - 1) as usize, b)
            } else {
                b == a
            }
        },
        Pane::Main => {
            let n = nav_rows(a).len();
            if n > 0 {
                b == (App { selected_item_index: (n - 1) as usize, ..a })
            } else {
                b == a
            }
        }
    }
}

/// `b` is `a` with the selection moved up by one.
pub open spec fn selection_up(a: App, b: App) -> bool {
    match a.active_pane {
        Pane::Sidebar => if a.selected_sidebar_index > 0 {
            synced(a, (a.selected_sidebar_index - 1) as usize, b)
        } else {
            b == a
        },
        Pane::Main => if a.selected_item_index > 0 {
            b == (App { selected_item_index: (a.selected_item_index - 1) as usize, ..a })
        } else {
            b == a
        }
    }
}

/// `b` is `a` with the selection moved down by one.
pub open spec fn selection_down(a: App, b: App) -> bool {
    match a.active_pane {
        Pane::Sidebar => if a.selected_sidebar_index + 1 < a.sidebar_entries@.len() {
            synced(a, (a.selected_sidebar_index + 1) as usize, b)
        } else {
            b == a
        },
        Pane::Main => if a.selected_item_index + 1 < nav_rows(a).len() {
            b == (App { selected_item_index: (a.selected_item_index + 1) as usize, ..a })
        } else {
            b == a
        }
    }
}

/// `b` is `a` with the selected item marked done or not done.
pub open spec fn done_toggled(a: App, b: App) -> bool {
    match selected_item_spec(a) {
        None => b == a,
        Some(id) => doc_edit(a, b, with_item(a.doc@, id, ItemRec {
            done: !a.doc@.items[id].done,
            ..a.doc@.items[id]
        }))
    }
}

/// `b` is `a` with the tag toggled on the selected item.
pub open spec fn tag_toggled(a: App, b: App, tag: Seq<char>) -> bool {
    match selected_item_spec(a) {
        None => b == a,
        Some(id) => doc_edit_rebuilt(a, b, with_item(a.doc@, id, ItemRec {
            tags: toggled_tags(a.doc@.items[id].tags, tag),
            ..a.doc@.items[id]
        }))
    }
}

/// `b` is `a` with done items shown or hidden.
pub open spec fn show_done_toggled(a: App, b: App) -> bool {
    &&& b == clamped(App { show_done: !a.show_done, selected_items: b.selected_items, ..a })
    &&& b.selected_items@.len() == 0
}

/// `b` is `a` with the tag filter picker opened.
pub open spec fn filter_started(a: App, b: App) -> bool {
    if in_tag_view(a) || filter_offer(a).len() == 0 {
        b == a
    } else {
        let tags = filter_offer(a);
        &&& strings_view(b.filter_available_tags@) == tags
        &&& b.filter_selected@ == tags.map_values(|t: Seq<char>| strings_view(a.filter_tags@).contains(t))
        &&& b == (App {
            filter_available_tags: b.filter_available_tags,
            filter_selected: b.filter_selected,
            filter_cursor: 0,
            input_mode: InputMode::FilteringTags,
            ..a
        })
    }
}

/// `b` is `a` with the selected item marked or unmarked.
pub open spec fn select_toggled(a: App, b: App) -> bool {
    if in_tag_view(a) || in_unassigned_view(a) || selected_item_spec(a).is_none() {
        b == a
    } else {
        let id = selected_item_spec(a).unwrap();
        &&& marked(b) == (if marked(a).contains(id) {
            marked(a).remove(id)
        } else {
            marked(a).insert(id)
        })
        &&& b == (App { selected_items: b.selected_items, ..a })
    }
}

/// `b` is `a` with the marked items, or the selected one, deleted.
pub open spec fn selected_deleted(a: App, b: App) -> bool {
    if a.selected_items@.len() == 0 {
        todo_deleted(a, b)
    } else {
        batch_edit(a, b, DocV { items: a.doc@.items.remove_keys(marked(a)), lists: a.doc@.lists })
    }
}

/// `b` is `a` with the done flag of the marked items, or the selected one, flipped.
pub open spec fn selected_done_toggled(a: App, b: App) -> bool {
    if a.selected_items@.len() == 0 {
        match selected_item_spec(a) {
            None => b == a,
            Some(id) => doc_edit(a, b, with_item(a.doc@, id, ItemRec {
                done: !a.doc@.items[id].done,
                ..a.doc@.items[id]
            })),
        }
    } else {
        batch_edit(a, b, DocV { items: flipped_done(a.doc@.items, marked(a)), lists: a.doc@.lists })
    }
}

/// `b` is `a` with archiving asked for.
pub open spec fn archive_started(a: App, b: App) -> bool {
    if selected_list_spec(a).is_some() && list_rows(a.doc@.items, selected_list_spec(a).unwrap()).filter(|i: ItemRec| i.done).len() > 0 {
        b == (App { input_mode: InputMode::ConfirmArchive, ..a })
    } else {
        b == a
    }
}

/// `b` is `a` with the list picker opened.
pub open spec fn move_started(a: App, b: App) -> bool {
    if in_tag_view(a) || in_unassigned_view(a) || lists_of(a).len() < 2
        || (a.selected_items@.len() == 0 && selected_item_spec(a).is_none()) {
        b == a
    } else {
        &&& b.move_to_list_filter@.len() == 0
        &&& b == (App {
            move_to_list_cursor: 0,
            move_to_list_filter: b.move_to_list_filter,
            input_mode: InputMode::MovingToList,
            ..a
        })
    }
}


// ---------------------------------------------------------------------------
// Named transitions of the input line, pickers and focus
// ---------------------------------------------------------------------------

/// `b` is `a` with `c` typed at the cursor.
pub open spec fn char_inserted(a: App, b: App, c: char) -> bool {
    &&& b.input_buffer@ == a.input_buffer@.insert(a.input_pos as int, c)
    &&& b == (App {
        input_buffer: b.input_buffer,
        input_pos: (a.input_pos + 1) as usize,
        input_cursor: cursor_bytes(b.input_buffer@, a.input_pos + 1),
        ..a
    })
}

/// `b` is `a` with the character before the cursor deleted.
pub open spec fn char_deleted(a: App, b: App) -> bool {
    if a.input_pos > 0 {
        &&& b.input_buffer@ == a.input_buffer@.remove(a.input_pos - 1)
        &&& b == (App {
            input_buffer: b.input_buffer,
            input_pos: (a.input_pos - 1) as usize,
            input_cursor: cursor_bytes(b.input_buffer@, a.input_pos - 1),
            ..a
        })
    } else {
        b == a
    }
}

/// `b` is `a` with the cursor one character left.
pub open spec fn cursor_left(a: App, b: App) -> bool {
    b == (App {
        input_pos: if a.input_pos > 0 { (a.input_pos - 1) as usize } else { 0 },
        input_cursor: if a.input_pos > 0 { cursor_bytes(a.input_buffer@, a.input_pos - 1) } else { a.input_cursor },
        ..a
    })
}

/// `b` is `a` with the cursor one character right.
pub open spec fn cursor_right(a: App, b: App) -> bool {
    b == (App {
        input_pos: if a.input_pos < a.input_buffer@.len() {
            (a.input_pos + 1) as usize
        } else {
            a.input_pos
        },
        input_cursor: if a.input_pos < a.input_buffer@.len() {
            cursor_bytes(a.input_buffer@, a.input_pos + 1)
        } else {
            a.input_cursor
        },
        ..a
    })
}

/// `b` is `a` with the input line closed.
pub open spec fn input_cancelled(a: App, b: App) -> bool {
    &&& b.input_buffer@.len() == 0
    &&& b.search_results@.len() == 0
    &&& b == (App {
        input_mode: InputMode::Normal,
        input_buffer: b.input_buffer,
        input_pos: 0,
        input_cursor: 0,
        search_results: b.search_results,
        search_selected: 0,
        ..a
    })
}

/// `b` is `a` with the hits of the typed text.
pub open spec fn search_updated(a: App, b: App) -> bool {
    &&& results_view(b.search_results@) == search_spec(a)
    &&& b == (App {
        search_results: b.search_results,
        search_selected: clamp_index(a.search_selected, b.search_results@.len() as int),
        ..a
    })
}

/// `b` is `a` with the next hit selected.
pub open spec fn hit_next(a: App, b: App) -> bool {
    b == (App {
        search_selected: if a.search_selected + 1 < a.search_results@.len() {
            (a.search_selected + 1) as usize
        } else {
            a.search_selected
        },
        ..a
    })
}

/// `b` is `a` with the previous hit selected.
pub open spec fn hit_prev(a: App, b: App) -> bool {
    b == (App {
        search_selected: if a.search_selected > 0 { (a.search_selected - 1) as usize } else { 0 },
        ..a
    })
}

/// `b` is `a` with the completions of the typed word.
pub open spec fn completion_updated(a: App, b: App) -> bool {
    match (if completing_mode(a.input_mode) { completions(a) } else { None }) {
        Some(sug) => strings_view(b.autocomplete_suggestions@) == sug && b == (App {
            autocomplete_suggestions: b.autocomplete_suggestions,
            autocomplete_cursor: 0,
            autocomplete_active: true,
            ..a
        }),
        None => b.autocomplete_suggestions@.len() == 0 && b == (App {
            autocomplete_suggestions: b.autocomplete_suggestions,
            autocomplete_active: false,
            ..a
        }),
    }
}

/// `b` is `a` with the word completed.
pub open spec fn completion_accepted(a: App, b: App) -> bool {
    if !a.autocomplete_active || a.autocomplete_cursor >= a.autocomplete_suggestions@.len() {
        b == a
    } else {
        let sug = a.autocomplete_suggestions@[a.autocomplete_cursor as int]@;
        let buf = a.input_buffer@;
        let c = a.input_pos as int;
        &&& b.autocomplete_suggestions@.len() == 0
        &&& match last_at(buf.take(c)) {
            Some(p) => {
                &&& b.input_buffer@ == buf.take(p) + seq!['@'] + sug + buf.skip(c)
                &&& b.input_pos == p + 1 + sug.len()
                &&& b.input_cursor == cursor_bytes(b.input_buffer@, b.input_pos as int)
            },
            None => b.input_buffer == a.input_buffer && b.input_pos == a.input_pos && b.input_cursor == a.input_cursor,
        }
        &&& b == (App {
            input_buffer: b.input_buffer,
            input_pos: b.input_pos,
            input_cursor: b.input_cursor,
            autocomplete_active: false,
            autocomplete_suggestions: b.autocomplete_suggestions,
            ..a
        })
    }
}

/// `b` is `a` with the completions hidden.
pub open spec fn completion_dismissed(a: App, b: App) -> bool {
    &&& b.autocomplete_suggestions@.len() == 0
    &&& b == (App {
        autocomplete_active: false,
        autocomplete_suggestions: b.autocomplete_suggestions,
        autocomplete_cursor: 0,
        ..a
    })
}

/// `b` is `a` with the completion cursor up.
pub open spec fn completion_up(a: App, b: App) -> bool {
    b == (App {
        autocomplete_cursor: if a.autocomplete_cursor > 0 { (a.autocomplete_cursor - 1) as usize } else { 0 },
        ..a
    })
}

/// `b` is `a` with the completion cursor down.
pub open spec fn completion_down(a: App, b: App) -> bool {
    b == (App {
        autocomplete_cursor: if a.autocomplete_cursor + 1 < a.autocomplete_suggestions@.len() {
            (a.autocomplete_cursor + 1) as usize
        } else {
            a.autocomplete_cursor
        },
        ..a
    })
}

/// `b` is `a` with the ticked tags as the filter.
pub open spec fn filter_confirmed(a: App, b: App) -> bool {
    &&& strings_view(b.filter_tags@) == ticked(strings_view(a.filter_available_tags@), a.filter_selected@, a.filter_available_tags@.len() as int)
    &&& b.filter_available_tags@.len() == 0
    &&& b.filter_selected@.len() == 0
    &&& b.selected_items@.len() == 0
    &&& b == clamped(App {
        filter_tags: b.filter_tags,
        input_mode: InputMode::Normal,
        filter_available_tags: b.filter_available_tags,
        filter_selected: b.filter_selected,
        filter_cursor: 0,
        selected_items: b.selected_items,
        ..a
    })
}

/// `b` is `a` with the filter picker closed.
pub open spec fn filter_cancelled(a: App, b: App) -> bool {
    &&& b.filter_available_tags@.len() == 0
    &&& b.filter_selected@.len() == 0
    &&& b == (App {
        input_mode: InputMode::Normal,
        filter_available_tags: b.filter_available_tags,
        filter_selected: b.filter_selected,
        filter_cursor: 0,
        ..a
    })
}

/// `b` is `a` with the tag under the cursor ticked or unticked.
pub open spec fn filter_ticked(a: App, b: App) -> bool {
    if a.filter_cursor < a.filter_selected@.len() {
        &&& b.filter_selected@ == a.filter_selected@.update(a.filter_cursor as int, !a.filter_selected@[a.filter_cursor as int])
        &&& b == (App { filter_selected: b.filter_selected, ..a })
    } else {
        b == a
    }
}

/// `b` is `a` with the filter cursor up.
pub open spec fn filter_up(a: App, b: App) -> bool {
    b == (App {
        filter_cursor: if a.filter_cursor > 0 { (a.filter_cursor - 1) as usize } else { 0 },
        ..a
    })
}

/// `b` is `a` with the filter cursor down.
pub open spec fn filter_down(a: App, b: App) -> bool {
    b == (App {
        filter_cursor: if a.filter_cursor + 1 < a.filter_available_tags@.len() {
            (a.filter_cursor + 1) as usize
        } else {
            a.filter_cursor
        },
        ..a
    })
}

/// `b` is `a` with the picker cursor up.
pub open spec fn picker_up(a: App, b: App) -> bool {
    b == (App {
        move_to_list_cursor: if a.move_to_list_cursor > 0 { (a.move_to_list_cursor - 1) as usize } else { 0 },
        ..a
    })
}

/// `b` is `a` with the picker cursor down.
pub open spec fn picker_down(a: App, b: App) -> bool {
    b == (App {
        move_to_list_cursor: if a.move_to_list_cursor + 1 < move_targets(a).len() {
            (a.move_to_list_cursor + 1) as usize
        } else {
            a.move_to_list_cursor
        },
        ..a
    })
}

/// `b` is `a` with `c` added to the picker query.
pub open spec fn picker_typed(a: App, b: App, c: char) -> bool {
    &&& b.move_to_list_filter@ == a.move_to_list_filter@.push(c)
    &&& b == (App { move_to_list_filter: b.move_to_list_filter, move_to_list_cursor: 0, ..a })
}

/// `b` is `a` with the last character of the picker query removed.
pub open spec fn picker_erased(a: App, b: App) -> bool {
    &&& b.move_to_list_filter@ == (if a.move_to_list_filter@.len() > 0 {
        a.move_to_list_filter@.drop_last()
    } else {
        a.move_to_list_filter@
    })
    &&& b == (App { move_to_list_filter: b.move_to_list_filter, move_to_list_cursor: 0, ..a })
}

/// `b` is `a` with the list picker closed.
pub open spec fn picker_cancelled(a: App, b: App) -> bool {
    &&& b.move_to_list_filter@.len() == 0
    &&& b == (App { move_to_list_filter: b.move_to_list_filter, input_mode: InputMode::Normal, ..a })
}

/// `b` is `a` with the switcher cursor up.
pub open spec fn switcher_up(a: App, b: App) -> bool {
    b == (App {
        context_cursor: if a.context_cursor > 0 { (a.context_cursor - 1) as usize } else { 0 },
        ..a
    })
}

/// `b` is `a` with the switcher cursor down.
pub open spec fn switcher_down(a: App, b: App, available: Seq<String>) -> bool {
    b == (App {
        context_cursor: if a.context_cursor < context_offer(a, strings_view(available)).len() {
            (a.context_cursor + 1) as usize
        } else {
            a.context_cursor
        },
        ..a
    })
}

/// `b` is `a` with `c` added to the switcher query.
pub open spec fn switcher_typed(a: App, b: App, c: char) -> bool {
    &&& b.context_filter@ == a.context_filter@.push(c)
    &&& b == (App { context_filter: b.context_filter, context_cursor: 0, ..a })
}

/// `b` is `a` with the last character of the switcher query removed.
pub open spec fn switcher_erased(a: App, b: App) -> bool {
    &&& b.context_filter@ == (if a.context_filter@.len() > 0 {
        a.context_filter@.drop_last()
    } else {
        a.context_filter@
    })
    &&& b == (App { context_filter: b.context_filter, context_cursor: 0, ..a })
}

/// `b` is `a` with the switcher closed.
pub open spec fn switcher_cancelled(a: App, b: App) -> bool {
    &&& b.context_filter@.len() == 0
    &&& b == (App { context_filter: b.context_filter, input_mode: InputMode::Normal, ..a })
}

/// `b` is `a` with the focus session paused or resumed at `now`.
pub open spec fn focus_paused(a: App, b: App, now: u64) -> bool {
    match a.focus_start {
        Some(_) => b == (App {
            focus_accumulated: a.focus_elapsed_at_spec(now),
            focus_start: None,
            ..a
        }),
        None => b == (App { focus_start: Some(now), ..a }),
    }
}

/// `b` is `a` with the focus session ended at `now`.
pub open spec fn focus_stopped(a: App, b: App, now: u64) -> bool {
    ({
        let secs = a.focus_elapsed_at_spec(now);
        let m = a.doc@.items;
        let d = match a.focus_item_id {
            Some(id) => if m.contains_key(id@) {
                with_item(a.doc@, id@, ItemRec {
                    time_secs: if m[id@].time_secs + secs > u64::MAX { u64::MAX } else { (m[id@].time_secs + secs) as u64 },
                    ..m[id@]
                })
            } else {
                a.doc@
            },
            None => a.doc@,
        };
        &&& b.doc@ == d
        &&& b == (App {
            doc: b.doc,
            focus_start: None,
            focus_accumulated: 0,
            input_mode: InputMode::Normal,
            dirty: true,
            needs_full_reconcile: true,
            ..a
        })
    })
}


impl App {
    /// Pauses the focus session now, or resumes it.
    pub fn toggle_pause_focus(&mut self)
        ensures
            exists|now: u64| #[trigger] focus_paused(*old(self), *final(self), now),
    {
        let now = self.clock_now();
        self.toggle_pause_focus_at(now);
        assert(focus_paused(*old(self), *final(self), now));
    }

    /// Ends the focus session now.
    pub fn stop_focus(&mut self)
        requires
            old(self).wf(),
        ensures
            final(self).wf(),
            exists|now: u64| #[trigger] focus_stopped(*old(self), *final(self), now),
    {
        let now = self.clock_now();
        self.stop_focus_at(now);
        assert(focus_stopped(*old(self), *final(self), now));
    }

    /// The seconds of the focus session now.
    pub fn focus_elapsed_secs(&self) -> (r: u64)
        ensures
            exists|now: u64| r == #[trigger] self.focus_elapsed_at_spec(now),
    {
        let now = self.clock_now();
        let r = self.focus_elapsed_secs_at(now);
        assert(r == self.focus_elapsed_at_spec(now));
        r
    }
}


// ---------------------------------------------------------------------------
// Daily lists
// ---------------------------------------------------------------------------

/// A list is due for its daily reset on `today`: it is daily and was last
/// reset on an earlier day, or never.
pub open spec fn due_reset(l: ListRec, today: Seq<char>) -> bool {
    l.list_type == "daily"@ && match l.last_reset {
        None => true,
        Some(d) => crate::text::lex_lt(d, today),
    }
}

/// The done items of list `l`, archived ones included, in display order.
pub open spec fn done_rows_of(m: Map<Seq<char>, ItemRec>, l: Seq<char>) -> Seq<ItemRec> {
    crate::crdt::shown_items(m, |i: ItemRec| i.done && i.list_id == Some(l))
}

/// The item after the daily reset: a done item of a list due for reset is
/// open again, with no time, and goes after the list's items, keeping the
/// order of the done ones.
pub open spec fn reset_item(m: Map<Seq<char>, ItemRec>, lists: Map<Seq<char>, ListRec>, today: Seq<char>, id: Seq<char>) -> ItemRec {
    let r = m[id];
    match r.list_id {
        Some(l) => if r.done && lists.contains_key(l) && due_reset(lists[l], today) {
            ItemRec {
                done: false,
                time_secs: 0,
                position: offset_pos(crate::doc_ops::next_pos_of(m, Some(l)), rank_of(done_rows_of(m, l), id)),
                ..r
            }
        } else {
            r
        },
        None => r,
    }
}

/// The document after the daily reset on `today`: due lists have their
/// done items reopened and are marked reset today.
pub open spec fn reset_doc(d: DocV, today: Seq<char>) -> DocV {
    DocV {
        items: Map::new(|id: Seq<char>| d.items.contains_key(id), |id: Seq<char>| reset_item(d.items, d.lists, today, id)),
        lists: Map::new(|id: Seq<char>| d.lists.contains_key(id), |id: Seq<char>| if due_reset(d.lists[id], today) {
            ListRec { last_reset: Some(today), ..d.lists[id] }
        } else {
            d.lists[id]
        }),
    }
}

/// Resetting the daily lists twice on the same day does no more than
/// resetting them once: after a reset no list is due again that day.
pub proof fn law_daily_reset_idempotent(d: DocV, today: Seq<char>)
    ensures
        reset_doc(reset_doc(d, today), today) == reset_doc(d, today),
        forall|l: Seq<char>| #[trigger] reset_doc(d, today).lists.contains_key(l) ==> !due_reset(reset_doc(d, today).lists[l], today),
{
    let d2 = reset_doc(d, today);
    crate::text::lemma_lex_lt_irreflexive(today);
    assert forall|l: Seq<char>| #[trigger] d2.lists.contains_key(l) implies !due_reset(d2.lists[l], today) by {
        if due_reset(d.lists[l], today) {
            assert(d2.lists[l].last_reset == Some(today));
        }
    }
    let d3 = reset_doc(d2, today);
    assert(d3.lists =~= d2.lists);
    assert forall|id: Seq<char>| #[trigger] d2.items.contains_key(id) implies d3.items[id] == d2.items[id] by {
        let r = d2.items[id];
        match r.list_id {
            Some(l) => {
                if d2.lists.contains_key(l) {
                    assert(!due_reset(d2.lists[l], today));
                }
            },
            None => {},
        }
    }
    assert(d3.items =~= d2.items);
}

/// The item `id` is reopened by the reset, through a list among `ls`.
pub open spec fn reset_target(m: Map<Seq<char>, ItemRec>, lists: Map<Seq<char>, ListRec>, today: Seq<char>, ls: Seq<CrdtList>, n: int, id: Seq<char>) -> bool {
    &&& m.contains_key(id)
    &&& m[id].done
    &&& exists|j: int| 0 <= j < n && #[trigger] ls[j].id@ == m[id].list_id.unwrap_or(Seq::empty()) && m[id].list_id is Some
        && due_reset(ls[j]@, today)
}

fn is_due(l: &CrdtList, today: &str) -> (r: bool)
    ensures
        r == due_reset(l@, today@),
{
    let daily = "daily";
    proof {
        reveal_strlit("daily");
    }
    if !crate::text::str_eq(l.list_type.as_str(), daily) {
        return false;
    }
    match &l.last_reset {
        None => true,
        Some(d) => crate::text::lex_less(&crate::text::chars_of(d.as_str()), &crate::text::chars_of(today)),
    }
}

impl App {
    /// Reopens the done items of the daily lists not yet reset on `today`
    /// and marks those lists reset; then rebuilds the sidebar and asks for
    /// the document to be written.
    #[verifier::spinoff_prover]
    #[verifier::rlimit(80)]
    pub fn reset_daily_lists_on(&mut self, today: &str)
        requires
            old(self).wf(),
        ensures
            final(self).wf(),
            final(self).doc@ == reset_doc(old(self).doc@, today@),
            entries_view(final(self).sidebar_entries@) == sidebar_spec(final(self).doc@),
            *final(self) == (App {
                doc: final(self).doc,
                sidebar_entries: final(self).sidebar_entries,
                selected_sidebar_index: rebuilt_index(old(self).selected_sidebar_index, final(self).sidebar_entries@.len() as int),
                dirty: true,
                needs_full_reconcile: true,
                ..*old(self)
            }),
    {
        let ghost m = self.doc@.items;
        let ghost lm = self.doc@.lists;
        let ghost ls = self.doc.lists@;
        let ghost t = today@;
        let mut item_updates: Vec<CrdtItem> = Vec::new();
        let mut list_updates: Vec<CrdtList> = Vec::new();
        let mut li: usize = 0;
        while li < self.doc.lists.len()
            invariant
                li <= self.doc.lists.len(),
                self.doc@.items == m,
                self.doc@.lists == lm,
                self.doc.lists@ == ls,
                self.doc.wf(),
                t == today@,
                crate::crdt::item_ids_unique(item_updates@),
                forall|k: int| 0 <= k < item_updates@.len() ==> #[trigger] item_updates@[k]@ == reset_item(m, lm, t, item_updates@[k].id@)
                    && reset_target(m, lm, t, ls, li as int, item_updates@[k].id@),
                forall|id: Seq<char>| #[trigger] reset_target(m, lm, t, ls, li as int, id) ==> crate::crdt::item_map(item_updates@).contains_key(id),
                crate::crdt::list_ids_unique(list_updates@),
                forall|k: int| 0 <= k < list_updates@.len() ==> (#[trigger] list_updates@[k])@ == (ListRec { last_reset: Some(t), ..lm[list_updates@[k].id@] })
                    && lm.contains_key(list_updates@[k].id@) && due_reset(lm[list_updates@[k].id@], t)
                    && exists|j: int| 0 <= j < li && ls[j].id@ == list_updates@[k].id@,
                forall|j: int| 0 <= j < li && due_reset(#[trigger] ls[j]@, t) ==> crate::crdt::list_map(list_updates@).contains_key(ls[j].id@),
            decreases self.doc.lists.len() - li,
        {
            proof {
                crate::crdt::lemma_list_map_entry(ls, li as int);
            }
            let l = &self.doc.lists[li];
            if is_due(l, today) {
                let base = self.doc.next_position_for_list(l.id.as_str());
                let f = crate::crdt::ItemFilter::DoneInList(l.id.clone());
                let rows = self.doc.items_shown(&f);
                let ghost lid = l.id@;
                let ghost p = |i: ItemRec| i.done && i.list_id == Some(lid);
                assert((|i: ItemRec| crate::crdt::filter_shows(f, i)) == p);
                let ghost rs = item_refs_view(rows@);
                proof {
                    crate::crdt::lemma_shown_items(m, p, rs);
                    lemma_shown_distinct(m, p, rs);
                }
                let ghost before_updates = item_updates@;
                proof {
                    assert forall|q: int| 0 <= q < before_updates.len() implies reset_target(m, lm, t, ls, li as int, #[trigger] before_updates[q].id@) by {
                        assert(before_updates[q]@ == reset_item(m, lm, t, before_updates[q].id@));
                    }
                }
                let mut k: usize = 0;
                while k < rows.len()
                    invariant
                        k <= rows.len(),
                        rs == item_refs_view(rows@),
                        rs == done_rows_of(m, lid),
                        distinct_ids(rs),
                        rows_in(m, rs),
                        crate::crdt::shows_exactly(m, p, rs),
                        p == (|i: ItemRec| i.done && i.list_id == Some(lid)),
                        lid == ls[li as int].id@,
                        li < ls.len(),
                        crate::crdt::list_ids_unique(ls),
                        lm.contains_key(lid),
                        lm[lid] == ls[li as int]@,
                        due_reset(ls[li as int]@, t),
                        base == crate::doc_ops::next_pos_of(m, Some(lid)),
                        t == today@,
                        item_updates@.len() == before_updates.len() + k,
                        forall|q: int| 0 <= q < before_updates.len() ==> #[trigger] item_updates@[q] == before_updates[q],
                        forall|q: int| 0 <= q < k ==> #[trigger] item_updates@[before_updates.len() + q]@.id == rs[q].id,
                        crate::crdt::item_ids_unique(item_updates@),
                        forall|q: int| 0 <= q < item_updates@.len() ==> #[trigger] item_updates@[q]@ == reset_item(m, lm, t, item_updates@[q].id@)
                            && reset_target(m, lm, t, ls, li + 1, item_updates@[q].id@),
                        forall|q: int| 0 <= q < before_updates.len() ==> reset_target(m, lm, t, ls, li as int, #[trigger] before_updates[q].id@),
                    decreases rows.len() - k,
                {
                    let mut it = rows[k].copy();
                    it.done = false;
                    it.time_secs = 0;
                    it.position = offset_position(base, k);
                    proof {
                        let id = rs[k as int].id;
                        assert(rs[k as int] == rows@[k as int]@);
                        assert(m[id] == rs[k as int]);
                        assert(p(rs[k as int]));
                        assert(rank_of(rs, id) == k) by {
                            let c = rank_of(rs, id);
                            assert(0 <= c < rs.len() && rs[c].id == id);
                            if c != k {
                                assert(rs[c].id != rs[k as int].id);
                            }
                        }
                        assert(it@ == reset_item(m, lm, t, id));
                        assert(ls[li as int].id@ == m[id].list_id.unwrap_or(Seq::empty()));
                        assert(reset_target(m, lm, t, ls, li + 1, id));
                        assert forall|q: int| 0 <= q < item_updates@.len() implies item_updates@[q].id@ != id by {
                            if q < before_updates.len() {
                                assert(reset_target(m, lm, t, ls, li as int, before_updates[q].id@));
                                if before_updates[q].id@ == id {
                                    let j = choose|j: int| 0 <= j < li && #[trigger] ls[j].id@ == m[id].list_id.unwrap_or(Seq::empty()) && m[id].list_id is Some
                                        && due_reset(ls[j]@, t);
                                    assert(ls[j].id@ == ls[li as int].id@);
                                }
                            } else {
                                let qq = q - before_updates.len();
                                assert(item_updates@[before_updates.len() + qq]@.id == rs[qq].id);
                            }
                        }
                    }
                    let ghost old_u = item_updates@;
                    item_updates.push(it);
                    proof {
                        assert forall|a: int, b: int| 0 <= a < b < item_updates@.len() implies (#[trigger] item_updates@[a]).id@ != (#[trigger] item_updates@[b]).id@ by {
                            if b < old_u.len() {
                                assert(item_updates@[a] == old_u[a] && item_updates@[b] == old_u[b]);
                            } else {
                                assert(item_updates@[a] == old_u[a]);
                            }
                        }
                        assert forall|q: int| 0 <= q < item_updates@.len() implies #[trigger] item_updates@[q]@ == reset_item(m, lm, t, item_updates@[q].id@)
                            && reset_target(m, lm, t, ls, li + 1, item_updates@[q].id@) by {
                            if q < old_u.len() {
                                assert(item_updates@[q] == old_u[q]);
                            }
                        }
                    }
                    k = k + 1;
                }
                proof {
                    // every target through list `li` is now among the updates
                    assert forall|id: Seq<char>| #[trigger] reset_target(m, lm, t, ls, li + 1, id) implies crate::crdt::item_map(item_updates@).contains_key(id) by {
                        let j = choose|j: int| 0 <= j < li + 1 && #[trigger] ls[j].id@ == m[id].list_id.unwrap_or(Seq::empty()) && m[id].list_id is Some
                            && due_reset(ls[j]@, t);
                        if j < li {
                            assert(reset_target(m, lm, t, ls, li as int, id));
                            assert(crate::crdt::item_map(before_updates).contains_key(id));
                            crate::crdt::lemma_item_map_key(before_updates, id);
                            let q = choose|q: int| 0 <= q < before_updates.len() && (#[trigger] before_updates[q]).id@ == id;
                            assert(item_updates@[q] == before_updates[q]);
                            crate::crdt::lemma_item_map_entry(item_updates@, q);
                        } else {
                            assert(p(m[id]));
                            let q = choose|q: int| 0 <= q < rs.len() && rs[q].id == id;
                            assert(item_updates@[before_updates.len() + q]@.id == rs[q].id);
                            crate::crdt::lemma_item_map_entry(item_updates@, before_updates.len() + q);
                        }
                    }
                    assert forall|q: int| 0 <= q < before_updates.len() implies reset_target(m, lm, t, ls, li + 1, #[trigger] before_updates[q].id@) by {
                        let j = choose|j: int| 0 <= j < li && #[trigger] ls[j].id@ == m[before_updates[q].id@].list_id.unwrap_or(Seq::empty())
                            && m[before_updates[q].id@].list_id is Some && due_reset(ls[j]@, t);
                    }
                }
                let mut lu = l.copy();
                lu.last_reset = Some(today.to_owned());
                proof {
                    assert forall|k2: int| 0 <= k2 < list_updates@.len() implies (#[trigger] list_updates@[k2]).id@ != lu.id@ by {
                        let j = choose|j: int| 0 <= j < li && ls[j].id@ == list_updates@[k2].id@;
                        assert(ls[j].id@ != ls[li as int].id@);
                    }
                }
                let ghost old_l = list_updates@;
                list_updates.push(lu);
                proof {
                    assert forall|a: int, b: int| 0 <= a < b < list_updates@.len() implies (#[trigger] list_updates@[a]).id@ != (#[trigger] list_updates@[b]).id@ by {
                        if b < old_l.len() {
                            assert(list_updates@[a] == old_l[a] && list_updates@[b] == old_l[b]);
                        } else {
                            assert(list_updates@[a] == old_l[a]);
                        }
                    }
                    assert forall|k2: int| 0 <= k2 < list_updates@.len() implies (#[trigger] list_updates@[k2])@ == (ListRec { last_reset: Some(t), ..lm[list_updates@[k2].id@] })
                        && lm.contains_key(list_updates@[k2].id@) && due_reset(lm[list_updates@[k2].id@], t)
                        && exists|j: int| 0 <= j < li + 1 && ls[j].id@ == list_updates@[k2].id@ by {
                        if k2 < old_l.len() {
                            assert(list_updates@[k2] == old_l[k2]);
                            let j = choose|j: int| 0 <= j < li && ls[j].id@ == old_l[k2].id@;
                        } else {
                            assert(ls[li as int].id@ == list_updates@[k2].id@);
                        }
                    }
                    assert forall|j: int| 0 <= j < li + 1 && due_reset(#[trigger] ls[j]@, t) implies crate::crdt::list_map(list_updates@).contains_key(ls[j].id@) by {
                        if j < li {
                            assert(crate::crdt::list_map(old_l).contains_key(ls[j].id@));
                            crate::crdt::lemma_list_map_key(old_l, ls[j].id@);
                            let q = choose|q: int| 0 <= q < old_l.len() && (#[trigger] old_l[q]).id@ == ls[j].id@;
                            assert(list_updates@[q] == old_l[q]);
                            crate::crdt::lemma_list_map_entry(list_updates@, q);
                        } else {
                            crate::crdt::lemma_list_map_entry(list_updates@, old_l.len() as int);
                        }
                    }
                }
            } else {
                proof {
                    assert forall|id: Seq<char>| #[trigger] reset_target(m, lm, t, ls, li + 1, id) implies crate::crdt::item_map(item_updates@).contains_key(id) by {
                        let j = choose|j: int| 0 <= j < li + 1 && #[trigger] ls[j].id@ == m[id].list_id.unwrap_or(Seq::empty()) && m[id].list_id is Some
                            && due_reset(ls[j]@, t);
                        assert(j != li);
                        assert(reset_target(m, lm, t, ls, li as int, id));
                    }
                    assert forall|k2: int| 0 <= k2 < item_updates@.len() implies #[trigger] item_updates@[k2]@ == reset_item(m, lm, t, item_updates@[k2].id@)
                        && reset_target(m, lm, t, ls, li + 1, item_updates@[k2].id@) by {
                        let id = item_updates@[k2].id@;
                        let j = choose|j: int| 0 <= j < li && #[trigger] ls[j].id@ == m[id].list_id.unwrap_or(Seq::empty()) && m[id].list_id is Some
                            && due_reset(ls[j]@, t);
                    }
                    assert forall|k2: int| 0 <= k2 < list_updates@.len() implies (#[trigger] list_updates@[k2])@ == (ListRec { last_reset: Some(t), ..lm[list_updates@[k2].id@] })
                        && lm.contains_key(list_updates@[k2].id@) && due_reset(lm[list_updates@[k2].id@], t)
                        && exists|j: int| 0 <= j < li + 1 && ls[j].id@ == list_updates@[k2].id@ by {
                        let j = choose|j: int| 0 <= j < li && ls[j].id@ == list_updates@[k2].id@;
                    }
                }
            }
            li = li + 1;
        }
        // Apply the updates.
        let ghost iu = item_updates@;
        let ghost lu = list_updates@;
        let ghost s0 = *self;
        let mut k: usize = 0;
        while k < item_updates.len()
            invariant
                k <= item_updates.len(),
                item_updates@ == iu,
                self.doc.wf(),
                self.doc@.lists == lm,
                *self == (App { doc: self.doc, ..s0 }),
                self.doc@.items == m.union_prefer_right(crate::crdt::item_map(iu.take(k as int))),
            decreases item_updates.len() - k,
        {
            crate::crdt::item_put(&mut self.doc.items, item_updates[k].copy());
            assert(iu.take(k + 1).drop_last() == iu.take(k as int));
            assert(self.doc@.items =~= m.union_prefer_right(crate::crdt::item_map(iu.take(k + 1))));
            k = k + 1;
        }
        assert(iu.take(iu.len() as int) == iu);
        let mut q: usize = 0;
        while q < list_updates.len()
            invariant
                q <= list_updates.len(),
                list_updates@ == lu,
                self.doc.wf(),
                self.doc@.items == m.union_prefer_right(crate::crdt::item_map(iu)),
                *self == (App { doc: self.doc, ..s0 }),
                self.doc@.lists == lm.union_prefer_right(crate::crdt::list_map(lu.take(q as int))),
            decreases list_updates.len() - q,
        {
            crate::crdt::list_put(&mut self.doc.lists, list_updates[q].copy());
            assert(lu.take(q + 1).drop_last() == lu.take(q as int));
            assert(self.doc@.lists =~= lm.union_prefer_right(crate::crdt::list_map(lu.take(q + 1))));
            q = q + 1;
        }
        assert(lu.take(lu.len() as int) == lu);
        proof {
            let want = reset_doc(DocV { items: m, lists: lm }, t);
            let im = crate::crdt::item_map(iu);
            lemma_item_map_ids(iu);
            assert forall|id: Seq<char>| im.contains_key(id) implies im[id] == reset_item(m, lm, t, id) && m.contains_key(id) by {
                crate::crdt::lemma_item_map_key(iu, id);
                let j = choose|j: int| 0 <= j < iu.len() && (#[trigger] iu[j]).id@ == id;
                crate::crdt::lemma_item_map_entry(iu, j);
            }
            assert forall|id: Seq<char>| m.contains_key(id) && !im.contains_key(id) implies reset_item(m, lm, t, id) == m[id] by {
                if m[id].list_id is Some && m[id].done {
                    let l = m[id].list_id.unwrap();
                    if lm.contains_key(l) && due_reset(lm[l], t) {
                        crate::crdt::lemma_list_map_key(ls, l);
                        let j = choose|j: int| 0 <= j < ls.len() && (#[trigger] ls[j]).id@ == l;
                        crate::crdt::lemma_list_map_entry(ls, j);
                        assert(reset_target(m, lm, t, ls, ls.len() as int, id));
                    }
                }
            }
            assert(self.doc@.items =~= want.items);
            let lmap = crate::crdt::list_map(lu);
            assert forall|id: Seq<char>| lmap.contains_key(id) implies lmap[id] == (ListRec { last_reset: Some(t), ..lm[id] }) && lm.contains_key(id) && due_reset(lm[id], t) by {
                crate::crdt::lemma_list_map_key(lu, id);
                let j = choose|j: int| 0 <= j < lu.len() && (#[trigger] lu[j]).id@ == id;
                crate::crdt::lemma_list_map_entry(lu, j);
            }
            assert forall|id: Seq<char>| lm.contains_key(id) && due_reset(lm[id], t) implies lmap.contains_key(id) by {
                crate::crdt::lemma_list_map_key(ls, id);
                let j = choose|j: int| 0 <= j < ls.len() && (#[trigger] ls[j]).id@ == id;
                crate::crdt::lemma_list_map_entry(ls, j);
            }
            assert forall|id: Seq<char>| #[trigger] self.doc@.lists.contains_key(id) <==> want.lists.contains_key(id) by {
                if lmap.contains_key(id) {
                    crate::crdt::lemma_list_map_key(lu, id);
                    let j = choose|j: int| 0 <= j < lu.len() && (#[trigger] lu[j]).id@ == id;
                    crate::crdt::lemma_list_map_entry(lu, j);
                }
            }
            assert forall|id: Seq<char>| #[trigger] self.doc@.lists.contains_key(id) implies self.doc@.lists[id] == want.lists[id] by {
                if lmap.contains_key(id) {
                    assert(self.doc@.lists[id] == lmap[id]);
                } else {
                    assert(self.doc@.lists[id] == lm[id]);
                    assert(!due_reset(lm[id], t));
                }
            }
            assert(self.doc@.lists =~= want.lists);
        }
        self.rebuild_sidebar_entries();
        self.save_doc();
    }

    /// Resets the daily lists as of the local date.
    pub fn reset_daily_lists(&mut self)
        requires
            old(self).wf(),
        ensures
            final(self).wf(),
            exists|today: Seq<char>| #[trigger] reset_doc(old(self).doc@, today) == final(self).doc@
                && entries_view(final(self).sidebar_entries@) == sidebar_spec(final(self).doc@),
            *final(self) == (App {
                doc: final(self).doc,
                sidebar_entries: final(self).sidebar_entries,
                selected_sidebar_index: rebuilt_index(old(self).selected_sidebar_index, final(self).sidebar_entries@.len() as int),
                dirty: true,
                needs_full_reconcile: true,
                ..*old(self)
            }),
    {
        let today = today_string();
        self.reset_daily_lists_on(today.as_str());
        assert(reset_doc(old(self).doc@, today@) == self.doc@);
    }
}

} // verus!
