use vstd::prelude::*;

use crate::app::{
    all_list_rows, done_keep, first_index, focus_paused, focus_stopped, item_tag_hit, tag_only_hit, toggled_tags, item_results, lists_of, rows_for_list, search_spec, search_updated,
    selected_list_spec, start_focus_spec, tags_set, title_hit, typed_tags, undone_keep, visible_rows, with_item, App,
};
use crate::crdt::{list_rows, ItemRec};
use crate::input::tags_line;
use crate::model::{results_view, strings_view, ResultV};
use crate::text::{has_sub, is_ws, join, lemma_words_join, lowercase, no_ws, words};

verus! {

// ---------------------------------------------------------------------------
// Searching
// ---------------------------------------------------------------------------

proof fn lemma_row_in_all(m: Map<Seq<char>, ItemRec>, ls: Seq<crate::crdt::ListRec>, n: int, k: int, j: int)
    requires
        0 <= k < n <= ls.len(),
        0 <= j < list_rows(m, ls[k].id).len(),
    ensures
        all_list_rows(m, ls, n).contains(list_rows(m, ls[k].id)[j]),
    decreases n,
{
    let prev = all_list_rows(m, ls, n - 1);
    let last = list_rows(m, ls[n - 1].id);
    assert(all_list_rows(m, ls, n) == prev + last);
    if k == n - 1 {
        assert((prev + last)[prev.len() + j] == last[j]);
    } else {
        lemma_row_in_all(m, ls, n - 1, k, j);
        let q = choose|q: int| 0 <= q < prev.len() && prev[q] == list_rows(m, ls[k].id)[j];
        assert((prev + last)[q] == prev[q]);
    }
}

/// A search for a non-empty text finds every item of every list whose title
/// holds the text, compared in lowercase, whatever its tags.
pub proof fn law_search_finds_titles(a: App, b: App, k: int, j: int)
    requires
        search_updated(a, b),
        lowercase(a.input_buffer@).len() > 0,
        0 <= k < lists_of(a).len(),
        0 <= j < list_rows(a.doc@.items, lists_of(a)[k].id).len(),
        has_sub(lowercase(list_rows(a.doc@.items, lists_of(a)[k].id)[j].title), lowercase(a.input_buffer@)),
    ensures
        results_view(b.search_results@).contains(ResultV::Item(list_rows(a.doc@.items, lists_of(a)[k].id)[j].id)),
{
    let m = a.doc@.items;
    let ls = lists_of(a);
    let q = lowercase(a.input_buffer@);
    let x = list_rows(m, ls[k].id)[j];
    let rows = all_list_rows(m, ls, ls.len() as int);
    lemma_row_in_all(m, ls, ls.len() as int, k, j);
    let p = choose|p: int| 0 <= p < rows.len() && rows[p] == x;
    assert(title_hit(q)(rows[p]));
    rows.lemma_filter_contains(title_hit(q), p);
    let hits = rows.filter(title_hit(q));
    let h = choose|h: int| 0 <= h < hits.len() && hits[h] == x;
    let ir = item_results(hits);
    assert(ir[h] == ResultV::Item(x.id));
    let r = search_spec(a);
    let front = r.take(r.len() - ir.len());
    assert(r.len() >= ir.len());
    assert(r == front + ir);
    assert(r[front.len() + h] == ResultV::Item(x.id));
    assert(results_view(b.search_results@) == r);
}

// ---------------------------------------------------------------------------
// Filtering by tags
// ---------------------------------------------------------------------------

/// With a tag filter set, every row shown, open or done, carries at least
/// one of the filter's tags.
pub proof fn law_filter_rows_tagged(a: App, k: int)
    requires
        a.filter_tags@.len() > 0,
        0 <= k < visible_rows(a).len(),
    ensures
        exists|j: int| 0 <= j < a.filter_tags@.len() && visible_rows(a)[k].tags.contains(#[trigger] a.filter_tags@[j]@),
{
    reveal(rows_for_list);
    let l = selected_list_spec(a)->0;
    let s = list_rows(a.doc@.items, l);
    let ft = strings_view(a.filter_tags@);
    let fu = undone_keep(ft);
    let fd = done_keep(ft, a.show_done);
    let v = visible_rows(a);
    assert(v == s.filter(fu) + s.filter(fd));
    s.filter_lemma(fu);
    s.filter_lemma(fd);
    let x = v[k];
    if k < s.filter(fu).len() {
        assert(fu(s.filter(fu)[k]));
    } else {
        assert(fd(s.filter(fd)[k - s.filter(fu).len()]));
    }
    assert(crate::app::tag_ok(ft, x));
    let j = choose|j: int| 0 <= j < ft.len() && x.tags.contains(#[trigger] ft[j]);
    assert(ft[j] == a.filter_tags@[j]@);
}

// ---------------------------------------------------------------------------
// Focus time
// ---------------------------------------------------------------------------

/// Stopping a focus session adds its seconds to the time the item already
/// had (up to the largest `u64`): time tracked earlier is kept.
pub proof fn law_focus_time_adds(a: App, b: App, now: u64, id: Seq<char>)
    requires
        focus_stopped(a, b, now),
        a.focus_item_id matches Some(f) && f@ == id,
        a.doc@.items.contains_key(id),
    ensures
        b.doc@.items[id].time_secs as int == if a.doc@.items[id].time_secs + a.focus_elapsed_at_spec(now) > u64::MAX {
            u64::MAX as int
        } else {
            a.doc@.items[id].time_secs + a.focus_elapsed_at_spec(now)
        },
        b.doc@.items[id].time_secs >= a.doc@.items[id].time_secs,
        forall|o: Seq<char>| o != id && #[trigger] a.doc@.items.contains_key(o) ==> b.doc@.items[o] == a.doc@.items[o],
{
}

/// Starting a focus session on the selected item at `t0` and stopping it
/// at `t1` adds `t1 - t0` seconds to the time the item already had (up to
/// the largest `u64`).
pub proof fn law_focus_session_adds(a: App, b: App, c: App, t0: u64, t1: u64, id: Seq<char>)
    requires
        crate::app::selected_item_spec(a) == Some(id),
        start_focus_spec(a, b, t0),
        focus_stopped(b, c, t1),
        t0 <= t1,
        a.doc@.items.contains_key(id),
    ensures
        c.doc@.items[id].time_secs as int == if a.doc@.items[id].time_secs + (t1 - t0) > u64::MAX {
            u64::MAX as int
        } else {
            a.doc@.items[id].time_secs + (t1 - t0)
        },
{
    assert(b.doc == a.doc);
    assert(b.focus_start == Some(t0) && b.focus_accumulated == 0);
    assert(b.focus_elapsed_at_spec(t1) == (t1 - t0) as u64);
}

// ---------------------------------------------------------------------------
// Editing tags
// ---------------------------------------------------------------------------

proof fn lemma_filter_all(s: Seq<Seq<char>>, f: spec_fn(Seq<char>) -> bool)
    requires
        forall|i: int| 0 <= i < s.len() ==> #[trigger] f(s[i]),
    ensures
        s.filter(f) == s,
    decreases s.len(),
{
    reveal(Seq::filter);
    if s.len() > 0 {
        let d = s.drop_last();
        assert forall|i: int| 0 <= i < d.len() implies #[trigger] f(d[i]) by {
            assert(d[i] == s[i]);
        }
        lemma_filter_all(d, f);
        assert(f(s[s.len() - 1]));
        assert(d.push(s.last()) == s);
    }
}

/// Reading back what the tag editor shows for some tags (each `@tag`,
/// separated by spaces) gives those tags, each without its `@`, when no tag
/// is empty or holds whitespace.
pub proof fn law_tag_line_read_back(tags: Seq<Seq<char>>)
    requires
        forall|i: int| 0 <= i < tags.len() ==> (#[trigger] tags[i]).len() > 0 && no_ws(tags[i]),
    ensures
        typed_tags(tags_line(tags)) == tags,
{
    let ws = tags.map_values(|t: Seq<char>| seq!['@'] + t);
    assert forall|i: int| 0 <= i < ws.len() implies (#[trigger] ws[i]).len() > 0 && no_ws(ws[i]) by {
        assert(ws[i] == seq!['@'] + tags[i]);
        assert(!is_ws('@'));
        assert forall|c: int| 0 <= c < ws[i].len() implies !is_ws(#[trigger] ws[i][c]) by {
            if c > 0 {
                assert(ws[i][c] == tags[i][c - 1]);
            }
        }
    }
    lemma_words_join(ws);
    assert(tags_line(tags) == join(ws, seq![' ']));
    assert(words(tags_line(tags)) == ws);
    let st = ws.map_values(|w: Seq<char>| crate::app::strip_at(w));
    assert forall|i: int| 0 <= i < st.len() implies st[i] == tags[i] by {
        assert(ws[i] == seq!['@'] + tags[i]);
        assert((seq!['@'] + tags[i]).drop_first() == tags[i]);
    }
    assert(st == tags);
    assert forall|i: int| 0 <= i < st.len() implies #[trigger] crate::app::nonempty()(st[i]) by {}
    lemma_filter_all(st, crate::app::nonempty());
}

/// Opening the tag editor on the selected item and confirming it unchanged
/// leaves the item as it was, when none of its tags is empty or holds
/// whitespace.
pub proof fn law_tag_editor_keeps_tags(a: App, b: App, id: Seq<char>)
    requires
        crate::app::selected_item_spec(a) == Some(id),
        a.doc@.items.contains_key(id),
        forall|i: int| 0 <= i < a.doc@.items[id].tags.len() ==> (#[trigger] a.doc@.items[id].tags[i]).len() > 0 && no_ws(
            a.doc@.items[id].tags[i],
        ),
        tags_set(a, b, tags_line(a.doc@.items[id].tags)),
    ensures
        b.doc@.items[id] == a.doc@.items[id],
        b.doc@.items == a.doc@.items,
{
    law_tag_line_read_back(a.doc@.items[id].tags);
    let x = a.doc@.items[id];
    assert((ItemRec { tags: typed_tags(tags_line(x.tags)), ..x }) == x);
    assert(a.doc@.items.insert(id, x) =~= a.doc@.items);
}

// ---------------------------------------------------------------------------
// More on searching
// ---------------------------------------------------------------------------

/// A search for a non-empty text finds every item of every list where some
/// tag holds the text and the title does not, compared in lowercase.
pub proof fn law_search_finds_tagged(a: App, b: App, k: int, j: int, t: int)
    requires
        search_updated(a, b),
        lowercase(a.input_buffer@).len() > 0,
        0 <= k < lists_of(a).len(),
        0 <= j < list_rows(a.doc@.items, lists_of(a)[k].id).len(),
        0 <= t < list_rows(a.doc@.items, lists_of(a)[k].id)[j].tags.len(),
        has_sub(lowercase(list_rows(a.doc@.items, lists_of(a)[k].id)[j].tags[t]), lowercase(a.input_buffer@)),
        !has_sub(lowercase(list_rows(a.doc@.items, lists_of(a)[k].id)[j].title), lowercase(a.input_buffer@)),
    ensures
        results_view(b.search_results@).contains(ResultV::Item(list_rows(a.doc@.items, lists_of(a)[k].id)[j].id)),
{
    let m = a.doc@.items;
    let ls = lists_of(a);
    let q = lowercase(a.input_buffer@);
    let x = list_rows(m, ls[k].id)[j];
    let rows = all_list_rows(m, ls, ls.len() as int);
    lemma_row_in_all(m, ls, ls.len() as int, k, j);
    let p = choose|p: int| 0 <= p < rows.len() && rows[p] == x;
    assert(item_tag_hit(x, q));
    assert(tag_only_hit(q)(rows[p]));
    rows.lemma_filter_contains(tag_only_hit(q), p);
    let hits = rows.filter(tag_only_hit(q));
    let h = choose|h: int| 0 <= h < hits.len() && hits[h] == x;
    let ir = item_results(hits);
    assert(ir[h] == ResultV::Item(x.id));
    let r = search_spec(a);
    let tail_part = item_results(rows.filter(title_hit(q)));
    let front = r.take(r.len() - ir.len() - tail_part.len());
    assert(r == front + ir + tail_part);
    assert(r[front.len() + h] == ResultV::Item(x.id));
    assert(results_view(b.search_results@) == r);
}

proof fn lemma_list_hits_lists(ls: Seq<crate::crdt::ListRec>, q: Seq<char>, n: int)
    ensures
        forall|i: int| 0 <= i < crate::app::list_hits(ls, q, n).len() ==> (#[trigger] crate::app::list_hits(ls, q, n)[i]) is List,
    decreases n,
{
    if n > 0 {
        lemma_list_hits_lists(ls, q, n - 1);
    }
}

proof fn lemma_row_from_list(m: Map<Seq<char>, ItemRec>, ls: Seq<crate::crdt::ListRec>, n: int, x: ItemRec)
    requires
        0 <= n <= ls.len(),
        all_list_rows(m, ls, n).contains(x),
    ensures
        exists|k: int, j: int| 0 <= k < n && 0 <= j < list_rows(m, ls[k].id).len() && #[trigger] list_rows(m, ls[k].id)[j] == x,
    decreases n,
{
    if n > 0 {
        let prev = all_list_rows(m, ls, n - 1);
        let last = list_rows(m, ls[n - 1].id);
        assert(all_list_rows(m, ls, n) == prev + last);
        let p = choose|p: int| 0 <= p < (prev + last).len() && (prev + last)[p] == x;
        if p < prev.len() {
            assert(prev[p] == x);
            lemma_row_from_list(m, ls, n - 1, x);
        } else {
            assert(last[p - prev.len()] == x);
        }
    } else {
        assert(all_list_rows(m, ls, 0).len() == 0);
    }
}

/// Every item that a search finds is an item of one of the lists whose
/// title or some tag holds the text, compared in lowercase.
pub proof fn law_search_items_hit(a: App, b: App, id: Seq<char>)
    requires
        search_updated(a, b),
        results_view(b.search_results@).contains(ResultV::Item(id)),
    ensures
        exists|k: int, j: int|
            0 <= k < lists_of(a).len() && 0 <= j < list_rows(a.doc@.items, lists_of(a)[k].id).len()
                && (#[trigger] list_rows(a.doc@.items, lists_of(a)[k].id)[j]).id == id && (has_sub(
                lowercase(list_rows(a.doc@.items, lists_of(a)[k].id)[j].title),
                lowercase(a.input_buffer@),
            ) || exists|t: int|
                0 <= t < list_rows(a.doc@.items, lists_of(a)[k].id)[j].tags.len() && has_sub(
                    lowercase(#[trigger] list_rows(a.doc@.items, lists_of(a)[k].id)[j].tags[t]),
                    lowercase(a.input_buffer@),
                )),
{
    let m = a.doc@.items;
    let ls = lists_of(a);
    let q = lowercase(a.input_buffer@);
    let r = search_spec(a);
    assert(results_view(b.search_results@) == r);
    let p = choose|p: int| 0 <= p < r.len() && r[p] == ResultV::Item(id);
    assert(q.len() > 0);
    let rows = all_list_rows(m, ls, ls.len() as int);
    let lh = crate::app::list_hits(ls, q, ls.len() as int);
    let th = crate::doc_ops::doc_tags(m).filter(crate::app::tag_name_hit(q)).map_values(|t: Seq<char>| ResultV::Tag(t));
    let ia = rows.filter(tag_only_hit(q));
    let ib = rows.filter(title_hit(q));
    assert(r == lh + th + item_results(ia) + item_results(ib));
    lemma_list_hits_lists(ls, q, ls.len() as int);
    let x: ItemRec = if p < lh.len() {
        assert(r[p] == lh[p]);
        assert(false);
        ia[0]
    } else if p < lh.len() + th.len() {
        assert(r[p] == th[p - lh.len()]);
        assert(false);
        ia[0]
    } else if p < lh.len() + th.len() + ia.len() {
        let h = p - lh.len() - th.len();
        assert(r[p] == item_results(ia)[h]);
        rows.filter_lemma(tag_only_hit(q));
        assert(ia.contains(ia[h]));
        rows.lemma_filter_contains_rev(tag_only_hit(q), ia[h]);
        assert(tag_only_hit(q)(ia[h]));
        ia[h]
    } else {
        let h = p - lh.len() - th.len() - ia.len();
        assert(r[p] == item_results(ib)[h]);
        rows.filter_lemma(title_hit(q));
        assert(ib.contains(ib[h]));
        rows.lemma_filter_contains_rev(title_hit(q), ib[h]);
        assert(title_hit(q)(ib[h]));
        ib[h]
    };
    assert(x.id == id);
    lemma_row_from_list(m, ls, ls.len() as int, x);
    let (k, j) = choose|k: int, j: int| 0 <= k < ls.len() && 0 <= j < list_rows(m, ls[k].id).len() && #[trigger] list_rows(m, ls[k].id)[j] == x;
    if !has_sub(lowercase(x.title), q) {
        assert(item_tag_hit(x, q));
        let t = choose|t: int| 0 <= t < x.tags.len() && crate::app::lower_has(#[trigger] x.tags[t], q);
        assert(has_sub(lowercase(list_rows(m, ls[k].id)[j].tags[t]), q));
    }
}

// ---------------------------------------------------------------------------
// More on filtering
// ---------------------------------------------------------------------------

/// With a tag filter set, every row of the selected list that carries one
/// of the filter's tags is shown, if it is open or done items are shown.
pub proof fn law_filter_shows_tagged(a: App, j: int, f: int)
    requires
        selected_list_spec(a) is Some,
        0 <= j < list_rows(a.doc@.items, selected_list_spec(a)->0).len(),
        0 <= f < a.filter_tags@.len(),
        list_rows(a.doc@.items, selected_list_spec(a)->0)[j].tags.contains(a.filter_tags@[f]@),
        !list_rows(a.doc@.items, selected_list_spec(a)->0)[j].done || a.show_done,
    ensures
        visible_rows(a).contains(list_rows(a.doc@.items, selected_list_spec(a)->0)[j]),
{
    reveal(rows_for_list);
    let l = selected_list_spec(a)->0;
    let s = list_rows(a.doc@.items, l);
    let ft = strings_view(a.filter_tags@);
    let fu = undone_keep(ft);
    let fd = done_keep(ft, a.show_done);
    let v = visible_rows(a);
    assert(v == s.filter(fu) + s.filter(fd));
    assert(ft[f] == a.filter_tags@[f]@);
    assert(crate::app::tag_ok(ft, s[j]));
    if !s[j].done {
        assert(fu(s[j]));
        s.lemma_filter_contains(fu, j);
        let q = choose|q: int| 0 <= q < s.filter(fu).len() && s.filter(fu)[q] == s[j];
        assert(v[q] == s[j]);
    } else {
        assert(fd(s[j]));
        s.lemma_filter_contains(fd, j);
        let q = choose|q: int| 0 <= q < s.filter(fd).len() && s.filter(fd)[q] == s[j];
        assert(v[s.filter(fu).len() + q] == s[j]);
    }
}

// ---------------------------------------------------------------------------
// More on focus time
// ---------------------------------------------------------------------------

/// Starting a focus session at `t0`, pausing it at `t1` and stopping it at
/// any later time adds `t1 - t0` seconds to the item's time (up to the
/// largest `u64`): paused time is not counted.
pub proof fn law_paused_time_not_counted(a: App, b: App, c: App, d: App, t0: u64, t1: u64, t2: u64, id: Seq<char>)
    requires
        crate::app::selected_item_spec(a) == Some(id),
        start_focus_spec(a, b, t0),
        focus_paused(b, c, t1),
        focus_stopped(c, d, t2),
        t0 <= t1,
        a.doc@.items.contains_key(id),
    ensures
        d.doc@.items[id].time_secs as int == if a.doc@.items[id].time_secs + (t1 - t0) > u64::MAX {
            u64::MAX as int
        } else {
            a.doc@.items[id].time_secs + (t1 - t0)
        },
{
    assert(b.doc == a.doc);
    assert(b.focus_start == Some(t0) && b.focus_accumulated == 0);
    assert(c.focus_accumulated == (t1 - t0) as u64 && c.focus_start.is_none());
    assert(c.doc == a.doc);
    assert(c.focus_elapsed_at_spec(t2) == (t1 - t0) as u64);
}

// ---------------------------------------------------------------------------
// Toggling a tag
// ---------------------------------------------------------------------------

/// Toggling a tag that the item lacks adds it at the end; toggling one it
/// has removes its first occurrence and keeps the others in order; and
/// toggling a tag it lacks twice gives back its tags.
pub proof fn law_toggle_tag(tags: Seq<Seq<char>>, t: Seq<char>)
    ensures
        !tags.contains(t) ==> toggled_tags(tags, t) == tags.push(t),
        tags.contains(t) ==> exists|i: int|
            0 <= i < tags.len() && tags[i] == t && (forall|j: int| 0 <= j < i ==> tags[j] != t) && toggled_tags(tags, t)
                == tags.remove(i),
        !tags.contains(t) ==> toggled_tags(toggled_tags(tags, t), t) == tags,
{
    if tags.contains(t) {
        let k = choose|k: int| 0 <= k < tags.len() && tags[k] == t;
        lemma_first_tag(tags, t, k);
        let i = first_index(tags, t);
        assert(0 <= i < tags.len() && tags[i] == t && (forall|j: int| 0 <= j < i ==> tags[j] != t));
    } else {
        let p = tags.push(t);
        assert(p[tags.len() as int] == t);
        assert(p.contains(t));
        assert(forall|j: int| 0 <= j < tags.len() ==> p[j] != t) by {
            assert forall|j: int| 0 <= j < tags.len() implies p[j] != t by {
                assert(p[j] == tags[j]);
            }
        }
        let i = first_index(p, t);
        assert(0 <= tags.len() < p.len() && p[tags.len() as int] == t && forall|j: int| 0 <= j < tags.len() ==> p[j] != t);
        assert(i == tags.len());
        assert(p.remove(tags.len() as int) == tags);
    }
}

proof fn lemma_first_tag(tags: Seq<Seq<char>>, t: Seq<char>, k: int)
    requires
        0 <= k < tags.len(),
        tags[k] == t,
    ensures
        exists|i: int| 0 <= i < tags.len() && tags[i] == t && forall|j: int| 0 <= j < i ==> tags[j] != t,
    decreases k,
{
    if exists|j: int| 0 <= j < k && tags[j] == t {
        let j = choose|j: int| 0 <= j < k && tags[j] == t;
        lemma_first_tag(tags, t, j);
    } else {
        assert(forall|j: int| 0 <= j < k ==> tags[j] != t);
    }
}

} // verus!
