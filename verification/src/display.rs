use vstd::prelude::*;

use crate::app::{current_rows, lists_of, pair_rows, App};
use crate::crdt::ItemRec;
use crate::input::tags_line;
use crate::model::{strings_view, InputMode, Pane, ResultV, SearchResult};
use crate::storage::time_text;

verus! {

// ---------------------------------------------------------------------------
// The rows of the main pane
// ---------------------------------------------------------------------------

/// The mark of an item: `[x]` or `[ ]` in ASCII mode, else a check mark or
/// an empty box.
pub open spec fn checkbox_glyph(ascii: bool, done: bool) -> Seq<char> {
    if ascii {
        if done {
            seq!['[', 'x', ']']
        } else {
            seq!['[', ' ', ']']
        }
    } else if done {
        seq!['\u{2714}']
    } else {
        seq!['\u{2751}']
    }
}

fn push_checkbox(out: &mut Vec<char>, ascii: bool, done: bool)
    ensures
        final(out)@ == old(out)@ + checkbox_glyph(ascii, done),
{
    if ascii {
        out.push('[');
        out.push(if done { 'x' } else { ' ' });
        out.push(']');
    } else {
        out.push(if done { '\u{2714}' } else { '\u{2751}' });
    }
}

/// The first part of a row: two spaces, the mark, a space and the title.
pub open spec fn row_text(ascii: bool, i: ItemRec) -> Seq<char> {
    seq![' ', ' '] + checkbox_glyph(ascii, i.done) + seq![' '] + i.title
}

/// The time part of a row: two spaces and the time, or nothing.
pub open spec fn row_time(i: ItemRec) -> Seq<char> {
    if i.time_secs > 0 {
        seq![' ', ' '] + time_text(i.time_secs as nat)
    } else {
        Seq::empty()
    }
}

/// The tag part of a row: two spaces and the tags with `@`, or nothing.
pub open spec fn row_tags(i: ItemRec) -> Seq<char> {
    if i.tags.len() > 0 {
        seq![' ', ' '] + tags_line(i.tags)
    } else {
        Seq::empty()
    }
}

/// The first row shown when `height` rows fit and row `sel` is selected.
pub open spec fn window_start(sel: int, height: int) -> int {
    if sel >= height {
        sel - height + 1
    } else {
        0
    }
}

/// How many of `n` rows are shown from `start` when `height` fit.
pub open spec fn window_len(n: int, start: int, height: int) -> int {
    if start >= n {
        0
    } else if n - start < height {
        n - start
    } else {
        height
    }
}

/// A row of the main pane, in parts that are drawn in different styles.
pub struct ItemRow {
    pub text: String,
    pub time: String,
    pub tags: String,
    pub done: bool,
    pub selected: bool,
}

/// `r` shows item `i`, selected or not.
pub open spec fn row_shows(r: ItemRow, ascii: bool, i: ItemRec, selected: bool) -> bool {
    &&& r.text@ == row_text(ascii, i)
    &&& r.time@ == row_time(i)
    &&& r.tags@ == row_tags(i)
    &&& r.done == i.done
    &&& r.selected == selected
}

fn item_row(ascii: bool, item: &crate::crdt::CrdtItem, selected: bool) -> (r: ItemRow)
    ensures
        row_shows(r, ascii, item@, selected),
{
    let mut text: Vec<char> = Vec::new();
    text.push(' ');
    text.push(' ');
    push_checkbox(&mut text, ascii, item.done);
    text.push(' ');
    crate::text::push_str(&mut text, item.title.as_str());
    assert(text@ == row_text(ascii, item@));
    let time = if item.time_secs > 0 {
        let mut t: Vec<char> = Vec::new();
        t.push(' ');
        t.push(' ');
        let f = crate::storage::format_time(item.time_secs);
        crate::text::push_str(&mut t, f.as_str());
        assert(t@ == row_time(item@));
        crate::text::string_of(t.as_slice())
    } else {
        let t: Vec<char> = Vec::new();
        assert(t@ == row_time(item@));
        crate::text::string_of(t.as_slice())
    };
    let tags = if item.tags.len() > 0 {
        let mut t: Vec<char> = Vec::new();
        t.push(' ');
        t.push(' ');
        let line = crate::input::prefill_tags(&item.tags);
        assert(strings_view(item.tags@) == item@.tags);
        crate::text::push_str(&mut t, line.as_str());
        assert(t@ == row_tags(item@));
        crate::text::string_of(t.as_slice())
    } else {
        let t: Vec<char> = Vec::new();
        assert(strings_view(item.tags@).len() == 0);
        assert(t@ == row_tags(item@));
        crate::text::string_of(t.as_slice())
    };
    ItemRow { text: crate::text::string_of(text.as_slice()), time, tags, done: item.done, selected }
}

/// The rows the main pane shows when `height` rows fit: the window that
/// keeps the selected row in view, each row with its mark (in ASCII when
/// asked), title, time and tags, and the selected one marked while the main
/// pane is active.
pub fn item_rows(app: &App, height: usize) -> (r: Vec<ItemRow>)
    requires
        app.doc.wf(),
    ensures
        ({
            let rows = current_rows(*app);
            let start = window_start(app.selected_item_index as int, height as int);
            &&& r@.len() == window_len(rows.len() as int, start, height as int)
            &&& forall|k: int|
                0 <= k < r@.len() ==> row_shows(
                    #[trigger] r@[k],
                    app.ascii_mode,
                    rows[start + k],
                    app.active_pane == Pane::Main && start + k == app.selected_item_index,
                )
        }),
{
    let items = app.current_items();
    let ghost rows = current_rows(*app);
    let sel = app.selected_item_index;
    if height == 0 {
        return Vec::new();
    }
    let start: usize = if sel >= height { sel - (height - 1) } else { 0 };
    let n = items.len();
    assert(rows.len() == n);
    let count: usize = if start >= n { 0 } else if n - start < height { n - start } else { height };
    let main = app.active_pane == Pane::Main;
    let mut out: Vec<ItemRow> = Vec::new();
    let mut k: usize = 0;
    while k < count
        invariant
            k <= count,
            count == window_len(n as int, start as int, height as int),
            start == window_start(sel as int, height as int),
            sel == app.selected_item_index,
            n == items@.len(),
            pair_rows(items@) == rows,
            main == (app.active_pane == Pane::Main),
            out@.len() == k,
            forall|q: int| 0 <= q < k ==> row_shows(#[trigger] out@[q], app.ascii_mode, rows[start + q], main && start + q == sel),
        decreases count - k,
    {
        let i = start + k;
        assert(rows[i as int] == items@[i as int].1@);
        let row = item_row(app.ascii_mode, items[i].1, main && i == sel);
        out.push(row);
        k = k + 1;
    }
    out
}

/// The hint the main pane shows in place of rows: when no row is shown and
/// no item is being typed, that all items are done and hidden (for a list
/// whose done items are hidden) or that there are none.
pub open spec fn empty_hint_spec(a: App) -> Option<Seq<char>> {
    let typing = a.input_mode == InputMode::AddingItem || a.input_mode == InputMode::EditingItem
        || a.input_mode == InputMode::EditingTags;
    if current_rows(a).len() == 0 && !typing {
        if a.selected_list_index < lists_of(a).len() && !a.show_done {
            Some("All items completed. Press Shift+D to show."@)
        } else {
            Some("No items. Press n to add one."@)
        }
    } else {
        None
    }
}

/// The hint the main pane shows in place of rows, if any.
pub fn empty_hint(app: &App) -> (r: Option<String>)
    requires
        app.doc.wf(),
    ensures
        match r {
            Some(s) => empty_hint_spec(*app) == Some(s@),
            None => empty_hint_spec(*app).is_none(),
        },
{
    let typing = match app.input_mode {
        InputMode::AddingItem | InputMode::EditingItem | InputMode::EditingTags => true,
        _ => false,
    };
    let n = app.current_items().len();
    if n == 0 && !typing {
        let has_list = app.current_list().is_some();
        if has_list && !app.show_done {
            let s = "All items completed. Press Shift+D to show.";
            Some(s.to_owned())
        } else {
            let s = "No items. Press n to add one.";
            Some(s.to_owned())
        }
    } else {
        None
    }
}

// ---------------------------------------------------------------------------
// The focus screen
// ---------------------------------------------------------------------------

/// A count as two digits at least.
pub open spec fn two_digits(n: nat) -> Seq<char> {
    if n < 10 {
        seq!['0'] + crate::text::decimal(n)
    } else {
        crate::text::decimal(n)
    }
}

fn push_two_digits(out: &mut Vec<char>, n: u64)
    ensures
        final(out)@ == old(out)@ + two_digits(n as nat),
{
    if n < 10 {
        out.push('0');
    }
    let d = crate::text::decimal_chars(n);
    crate::text::push_all(out, &d);
}

/// The session's seconds as `HH:MM:SS`.
pub open spec fn clock_text(secs: nat) -> Seq<char> {
    two_digits(secs / 3600) + seq![':'] + two_digits((secs % 3600) / 60) + seq![':'] + two_digits(secs % 60)
}

/// What the focus screen shows.
pub struct FocusText {
    pub title: String,
    pub clock: String,
    pub total: String,
    pub hint: String,
    pub paused: bool,
}

/// The focus screen at time `now`: the item's title, the session clock
/// (with `  PAUSED` while paused), the item's time with the session's
/// (`0m` for none) and the keys.
pub open spec fn focus_text_spec(a: App, title: Seq<char>, time_secs: u64, session: u64) -> (Seq<char>, Seq<char>, Seq<char>, Seq<char>) {
    let paused = a.focus_start.is_none();
    let total = if time_secs + session > u64::MAX { u64::MAX as nat } else { (time_secs + session) as nat };
    let t = time_text(total);
    (
        title,
        clock_text(session as nat) + (if paused { "  PAUSED"@ } else { Seq::empty() }),
        "Total: "@ + (if t.len() == 0 { "0m"@ } else { t }),
        if paused { "Esc: stop  Space: resume"@ } else { "Esc: stop  Space: pause"@ },
    )
}

/// The item under focus, if it is in the document.
pub open spec fn focus_item(a: App) -> Option<ItemRec> {
    match a.focus_item_id {
        Some(id) => if a.doc@.items.contains_key(id@) { Some(a.doc@.items[id@]) } else { None },
        None => None,
    }
}

/// The text of the focus screen at time `now`; `None` where the item under
/// focus is gone.
pub fn focus_text(app: &App, now: u64) -> (r: Option<FocusText>)
    requires
        app.doc.wf(),
    ensures
        match focus_item(*app) {
            Some(i) => r matches Some(f) && (f.title@, f.clock@, f.total@, f.hint@) == focus_text_spec(
                *app,
                i.title,
                i.time_secs,
                app.focus_elapsed_at_spec(now),
            ) && f.paused == app.focus_start.is_none(),
            None => r is None,
        },
{
    let item = match &app.focus_item_id {
        Some(id) => match app.doc.get_item(id.as_str()) {
            Some(i) => i,
            None => {
                return None;
            },
        },
        None => {
            return None;
        },
    };
    let session = app.focus_elapsed_secs_at(now);
    let paused = app.focus_start.is_none();
    let mut clock: Vec<char> = Vec::new();
    push_two_digits(&mut clock, session / 3600);
    clock.push(':');
    push_two_digits(&mut clock, (session % 3600) / 60);
    clock.push(':');
    push_two_digits(&mut clock, session % 60);
    if paused {
        crate::text::push_str(&mut clock, "  PAUSED");
    }
    let total_secs: u64 = if item.time_secs > u64::MAX - session { u64::MAX } else { item.time_secs + session };
    let t = crate::storage::format_time(total_secs);
    let mut total: Vec<char> = Vec::new();
    crate::text::push_str(&mut total, "Total: ");
    if crate::text::chars_of(t.as_str()).len() == 0 {
        crate::text::push_str(&mut total, "0m");
    } else {
        crate::text::push_str(&mut total, t.as_str());
    }
    let hint = if paused { "Esc: stop  Space: resume" } else { "Esc: stop  Space: pause" };
    proof {
        reveal_strlit("  PAUSED");
        reveal_strlit("Total: ");
        reveal_strlit("0m");
        reveal_strlit("Esc: stop  Space: resume");
        reveal_strlit("Esc: stop  Space: pause");
    }
    Some(FocusText {
        title: item.title.clone(),
        clock: crate::text::string_of(clock.as_slice()),
        total: crate::text::string_of(total.as_slice()),
        hint: hint.to_owned(),
        paused,
    })
}


// ---------------------------------------------------------------------------
// The search box
// ---------------------------------------------------------------------------

/// The name of the list an item belongs to, or nothing.
pub open spec fn list_name_of(a: App, l: Option<Seq<char>>) -> Seq<char> {
    match l {
        Some(id) => if a.doc@.lists.contains_key(id) { a.doc@.lists[id].name } else { Seq::empty() },
        None => Seq::empty(),
    }
}

/// How a hit is listed: a list as `  # name`; an item with its mark, title
/// and time, then a dash and its list's name; a tag as `  @tag`.
pub open spec fn hit_text(a: App, h: ResultV) -> Seq<char> {
    match h {
        ResultV::List(i) => "  # "@ + (if i < lists_of(a).len() { lists_of(a)[i as int].name } else { Seq::empty() }),
        ResultV::Item(id) => if a.doc@.items.contains_key(id) {
            row_text(a.ascii_mode, a.doc@.items[id]) + row_time(a.doc@.items[id]) + "  \u{2014} "@ + list_name_of(
                a,
                a.doc@.items[id].list_id,
            )
        } else {
            Seq::empty()
        },
        ResultV::Tag(t) => "  @"@ + t,
    }
}

fn hit_line(app: &App, h: &SearchResult) -> (r: String)
    requires
        app.doc.wf(),
    ensures
        r@ == hit_text(*app, h@),
{
    let mut out: Vec<char> = Vec::new();
    proof {
        reveal_strlit("  # ");
        reveal_strlit("  \u{2014} ");
        reveal_strlit("  @");
    }
    match h {
        SearchResult::List(i) => {
            crate::text::push_str(&mut out, "  # ");
            match app.nth_list(*i) {
                Some(l) => crate::text::push_str(&mut out, l.name.as_str()),
                None => {},
            }
        },
        SearchResult::Item(id) => {
            match app.doc.get_item(id.as_str()) {
                Some(it) => {
                    let row = item_row(app.ascii_mode, it, false);
                    crate::text::push_str(&mut out, row.text.as_str());
                    crate::text::push_str(&mut out, row.time.as_str());
                    crate::text::push_str(&mut out, "  \u{2014} ");
                    match &it.list_id {
                        Some(l) => match app.doc.get_list(l.as_str()) {
                            Some(list) => crate::text::push_str(&mut out, list.name.as_str()),
                            None => {},
                        },
                        None => {},
                    }
                },
                None => {},
            }
        },
        SearchResult::Tag(t) => {
            crate::text::push_str(&mut out, "  @");
            crate::text::push_str(&mut out, t.as_str());
        },
    }
    crate::text::string_of(out.as_slice())
}

/// The hits the search box lists when `height` rows fit: the window that
/// keeps the selected hit in view.
pub fn search_rows(app: &App, height: usize) -> (r: Vec<String>)
    requires
        app.doc.wf(),
    ensures
        ({
            let hits = app.search_results@;
            let start = window_start(app.search_selected as int, height as int);
            &&& r@.len() == window_len(hits.len() as int, start, height as int)
            &&& forall|k: int| 0 <= k < r@.len() ==> (#[trigger] r@[k])@ == hit_text(*app, hits[start + k]@)
        }),
{
    if height == 0 {
        return Vec::new();
    }
    let sel = app.search_selected;
    let start: usize = if sel >= height { sel - (height - 1) } else { 0 };
    let n = app.search_results.len();
    let count: usize = if start >= n { 0 } else if n - start < height { n - start } else { height };
    let mut out: Vec<String> = Vec::new();
    let mut k: usize = 0;
    while k < count
        invariant
            k <= count,
            count == window_len(n as int, start as int, height as int),
            start == window_start(sel as int, height as int),
            sel == app.search_selected,
            n == app.search_results@.len(),
            app.doc.wf(),
            out@.len() == k,
            forall|q: int| 0 <= q < k ==> (#[trigger] out@[q])@ == hit_text(*app, app.search_results@[start + q]@),
        decreases count - k,
    {
        let line = hit_line(app, &app.search_results[start + k]);
        out.push(line);
        k = k + 1;
    }
    out
}

/// What the search box shows in place of hits: a prompt while nothing is
/// typed, else a note that nothing matches.
pub open spec fn search_hint_spec(a: App) -> Option<Seq<char>> {
    if a.input_buffer@.len() == 0 {
        Some("Type to search..."@)
    } else if a.search_results@.len() == 0 {
        Some("No matches"@)
    } else {
        None
    }
}

/// What the search box shows in place of hits, if anything.
pub fn search_hint(app: &App) -> (r: Option<String>)
    ensures
        match r {
            Some(s) => search_hint_spec(*app) == Some(s@),
            None => search_hint_spec(*app).is_none(),
        },
{
    if crate::text::chars_of(app.input_buffer.as_str()).len() == 0 {
        Some("Type to search...".to_owned())
    } else if app.search_results.len() == 0 {
        Some("No matches".to_owned())
    } else {
        None
    }
}

} // verus!
