use vstd::prelude::*;

use crate::app::{
    item_moved_up, swapped_items, goto_hit, list_pos, row_index, search_hit_selected, current_rows, doc_edit_rebuilt, done_keep, done_rows_of, due_reset, entry_at, has_unassigned, in_tag_view,
    in_unassigned_view, lists_of, new_item, new_item_list, offset_pos, rank_of, rebuilt_index, reset_doc, rows_for_list,
    selected_item_spec, selected_list_spec, sidebar_spec, todo_added, undone_keep, visible_rows, with_item, App,
};
use crate::crdt::{
    DocV, list_ids_unique, lemma_list_map_key, list_before, list_map, lists_exactly, doc_lists, ListRec, CrdtList, CrdtItem, item_before, item_ids_unique, item_map, lemma_item_map_key, lemma_shown_items, list_rows, shows_exactly, CrdtDocument,
    ItemRec,
};
use crate::doc_ops::{doc_tags, law_next_position_above, next_item_position, next_pos_of, step_after};
use crate::model::{entries_view, strings_view, EntryV, InputMode, Pane, ResultV};
use crate::text::{lemma_lex_lt_transitive, lemma_lex_lt_trichotomy, trim};

verus! {

// ---------------------------------------------------------------------------
// Where a new item lands among the rows
// ---------------------------------------------------------------------------

/// Every row of `s` before index `k` comes before `r` in display order,
/// every row from `k` on after it.
pub open spec fn place_of(s: Seq<ItemRec>, r: ItemRec, k: int) -> bool {
    &&& 0 <= k <= s.len()
    &&& forall|j: int| 0 <= j < k ==> item_before(#[trigger] s[j], r)
    &&& forall|j: int| k <= j < s.len() ==> item_before(r, #[trigger] s[j])
}

proof fn lemma_before_trans(a: ItemRec, b: ItemRec, c: ItemRec)
    requires
        item_before(a, b),
        item_before(b, c),
    ensures
        item_before(a, c),
{
    if a.position == b.position && b.position == c.position {
        lemma_lex_lt_transitive(a.id, b.id, c.id);
    }
}

proof fn lemma_before_total(a: ItemRec, b: ItemRec)
    requires
        a.id != b.id,
    ensures
        item_before(a, b) || item_before(b, a),
        !(item_before(a, b) && item_before(b, a)),
{
    lemma_lex_lt_trichotomy(a.id, b.id);
}

proof fn lemma_place(s: Seq<ItemRec>, r: ItemRec) -> (k: int)
    requires
        forall|a: int, b: int| 0 <= a < b < s.len() ==> item_before(#[trigger] s[a], #[trigger] s[b]),
        forall|j: int| 0 <= j < s.len() ==> (#[trigger] s[j]).id != r.id,
    ensures
        place_of(s, r, k),
    decreases s.len(),
{
    if s.len() == 0 {
        0
    } else {
        let n = s.len() - 1;
        let d = s.drop_last();
        let x = s[n];
        lemma_before_total(x, r);
        if item_before(x, r) {
            assert forall|j: int| 0 <= j < s.len() implies item_before(#[trigger] s[j], r) by {
                if j < n {
                    lemma_before_trans(s[j], x, r);
                }
            }
            s.len() as int
        } else {
            assert forall|a: int, b: int| 0 <= a < b < d.len() implies item_before(#[trigger] d[a], #[trigger] d[b]) by {
                assert(d[a] == s[a] && d[b] == s[b]);
            }
            assert forall|j: int| 0 <= j < d.len() implies (#[trigger] d[j]).id != r.id by {
                assert(d[j] == s[j]);
            }
            let k = lemma_place(d, r);
            assert forall|j: int| 0 <= j < k implies item_before(#[trigger] s[j], r) by {
                assert(d[j] == s[j]);
            }
            assert forall|j: int| k <= j < s.len() implies item_before(r, #[trigger] s[j]) by {
                if j < n {
                    assert(d[j] == s[j]);
                }
            }
            k
        }
    }
}

proof fn lemma_insert_shows(m: Map<Seq<char>, ItemRec>, p: spec_fn(ItemRec) -> bool, s: Seq<ItemRec>, r: ItemRec, k: int)
    requires
        shows_exactly(m, p, s),
        !m.contains_key(r.id),
        p(r),
        place_of(s, r, k),
    ensures
        shows_exactly(m.insert(r.id, r), p, s.insert(k, r)),
{
    let t = s.insert(k, r);
    let m2 = m.insert(r.id, r);
    assert forall|q: int| 0 <= q < t.len() implies m2.contains_key(#[trigger] t[q].id) && m2[t[q].id] == t[q] && p(t[q]) by {
        if q < k {
            assert(t[q] == s[q]);
            assert(m.contains_key(s[q].id));
        } else if q > k {
            assert(t[q] == s[q - 1]);
            assert(m.contains_key(s[q - 1].id));
        }
    }
    assert forall|id: Seq<char>| #[trigger] m2.contains_key(id) && p(m2[id]) implies exists|q: int| 0 <= q < t.len() && t[q].id == id by {
        if id == r.id {
            assert(t[k].id == id);
        } else {
            let q = choose|q: int| 0 <= q < s.len() && s[q].id == id;
            if q < k {
                assert(t[q] == s[q]);
            } else {
                assert(t[q + 1] == s[q]);
            }
        }
    }
    assert forall|a: int, b: int| 0 <= a < b < t.len() implies item_before(#[trigger] t[a], #[trigger] t[b]) by {
        if b < k {
            assert(t[a] == s[a] && t[b] == s[b]);
        } else if b == k {
            assert(t[a] == s[a]);
        } else if a < k {
            assert(t[a] == s[a] && t[b] == s[b - 1]);
        } else if a == k {
            assert(t[b] == s[b - 1]);
        } else {
            assert(t[a] == s[a - 1] && t[b] == s[b - 1]);
        }
    }
}

/// Some sequence shows exactly the items of a document's map that pass `p`.
proof fn lemma_rows_exist(s: Seq<crate::crdt::CrdtItem>, p: spec_fn(ItemRec) -> bool)
    requires
        item_ids_unique(s),
    ensures
        exists|r: Seq<ItemRec>| shows_exactly(item_map(s), p, r),
    decreases s.len(),
{
    if s.len() == 0 {
        assert(shows_exactly(item_map(s), p, Seq::<ItemRec>::empty()));
    } else {
        let d = s.drop_last();
        assert forall|i: int, j: int| 0 <= i < j < d.len() implies (#[trigger] d[i]).id@ != (#[trigger] d[j]).id@ by {
            assert(d[i] == s[i] && d[j] == s[j]);
        }
        lemma_rows_exist(d, p);
        let r = choose|r: Seq<ItemRec>| shows_exactly(item_map(d), p, r);
        let x = s.last()@;
        let m = item_map(d);
        if m.contains_key(x.id) {
            lemma_item_map_key(d, x.id);
            let q = choose|q: int| 0 <= q < d.len() && (#[trigger] d[q]).id@ == x.id;
            assert(s[q] == d[q]);
            assert(s[s.len() - 1].id@ == x.id);
        }
        assert(item_map(s) == m.insert(x.id, x));
        if p(x) {
            assert forall|j: int| 0 <= j < r.len() implies (#[trigger] r[j]).id != x.id by {
                assert(m.contains_key(r[j].id));
            }
            let k = lemma_place(r, x);
            lemma_insert_shows(m, p, r, x, k);
        } else {
            let m2 = m.insert(x.id, x);
            assert forall|q: int| 0 <= q < r.len() implies m2.contains_key(#[trigger] r[q].id) && m2[r[q].id] == r[q] && p(r[q]) by {
                assert(m.contains_key(r[q].id));
            }
            assert(shows_exactly(m2, p, r));
        }
    }
}

/// Keeping the rows that pass `f` after `r` is put in at index `k`: `r` is
/// put in after the kept rows that came before index `k`, where it passes.
proof fn lemma_filter_insert(s: Seq<ItemRec>, r: ItemRec, k: int, f: spec_fn(ItemRec) -> bool)
    requires
        0 <= k <= s.len(),
    ensures
        f(r) ==> s.insert(k, r).filter(f) == s.filter(f).insert(s.take(k).filter(f).len() as int, r),
        !f(r) ==> s.insert(k, r).filter(f) == s.filter(f),
        s.filter(f) == s.take(k).filter(f) + s.skip(k).filter(f),
{
    assert(s == s.take(k) + s.skip(k));
    assert(s.insert(k, r) == s.take(k) + seq![r] + s.skip(k));
    Seq::filter_distributes_over_add(s.take(k), s.skip(k), f);
    Seq::filter_distributes_over_add(s.take(k) + seq![r], s.skip(k), f);
    Seq::filter_distributes_over_add(s.take(k), seq![r], f);
    reveal(Seq::filter);
    assert(seq![r].drop_last() == Seq::<ItemRec>::empty());
    let a = s.take(k).filter(f);
    let b = s.skip(k).filter(f);
    if f(r) {
        assert(seq![r].filter(f) == seq![r]);
        assert(a + seq![r] + b == (a + b).insert(a.len() as int, r));
    } else {
        assert(seq![r].last() == r);
        assert(seq![r].drop_last().filter(f) == Seq::<ItemRec>::empty());
        assert(seq![r].filter(f) == Seq::<ItemRec>::empty());
        assert(a + Seq::<ItemRec>::empty() == a);
    }
}

/// Adding an item while a row of a list is selected, with no tag filter
/// and a sidebar that shows the document, puts the new item in the rows
/// shown at or above the selected row, and the selection stays on the
/// item it was on, one row further down; where the selected item's
/// position is not the least that an `i64` holds.
pub proof fn law_new_row_above(a: App, b: App, title: Seq<char>, id: Seq<char>)
    requires
        a.doc.wf(),
        todo_added(a, b, title, id),
        trim(title).len() > 0,
        !a.doc@.items.contains_key(id),
        entries_view(a.sidebar_entries@) == sidebar_spec(a.doc@),
        entry_at(a) matches Some(EntryV::List(_)),
        a.filter_tags@.len() == 0,
        selected_item_spec(a) is Some,
        a.doc@.items[selected_item_spec(a)->0].position > i64::MIN,
    ensures
        b.selected_item_index == a.selected_item_index + 1,
        selected_item_spec(b) == selected_item_spec(a),
        current_rows(b).len() == current_rows(a).len() + 1,
        exists|k: int| 0 <= k <= a.selected_item_index && current_rows(b)[k] == new_item(a, title, id),
{
    let sid = selected_item_spec(a)->0;
    let i = a.selected_item_index as int;
    let m = a.doc@.items;
    let r = new_item(a, title, id);
    let b0 = App { selected_item_index: a.selected_item_index, ..b };
    let d2 = with_item(a.doc@, id, r);
    assert(doc_edit_rebuilt(a, b0, d2));
    assert(b.doc == b0.doc && b.sidebar_entries == b0.sidebar_entries && b.selected_sidebar_index == b0.selected_sidebar_index);
    assert(b.selected_list_index == a.selected_list_index && b.filter_tags == a.filter_tags && b.show_done == a.show_done);
    // The selected entry is a list entry, in the list part of the sidebar,
    // before and after the sidebar is rebuilt.
    let nl = lists_of(a).len();
    let ssi = a.selected_sidebar_index as int;
    assert(entry_at(a) == Some(entries_view(a.sidebar_entries@)[ssi]));
    let es = sidebar_spec(a.doc@);
    let lp = Seq::new(nl, |q: int| EntryV::List(q as usize));
    let up = if has_unassigned(a.doc@.items) { seq![EntryV::Unassigned] } else { Seq::<EntryV>::empty() };
    let tp = doc_tags(a.doc@.items).map_values(|t: Seq<char>| EntryV::Tag(t));
    let lu = lp + up;
    assert(es == lu + tp);
    assert(ssi < es.len());
    if ssi >= nl {
        if ssi < lu.len() {
            assert(es[ssi] == lu[ssi]);
            assert(lu[ssi] == up[ssi - nl]);
            assert(es[ssi] == EntryV::Unassigned);
        } else {
            let j = ssi - lu.len();
            assert(es[ssi] == tp[j]);
            assert(tp[j] == EntryV::Tag(doc_tags(a.doc@.items)[j]));
        }
        assert(false);
    }
    assert(es[ssi] == EntryV::List(ssi as usize));
    assert(b.doc@ == d2);
    assert(lists_of(b) == lists_of(a));
    let es2 = sidebar_spec(d2);
    assert(es2.len() >= nl);
    assert(es2[ssi] == EntryV::List(ssi as usize));
    assert(b.selected_sidebar_index == rebuilt_index(a.selected_sidebar_index, b.sidebar_entries@.len() as int));
    assert(entries_view(b.sidebar_entries@).len() == b.sidebar_entries@.len());
    assert(b.selected_sidebar_index == a.selected_sidebar_index);
    assert(entry_at(b) == Some(entries_view(b.sidebar_entries@)[ssi]));
    assert(entry_at(b) == entry_at(a));
    assert(!in_tag_view(a) && !in_unassigned_view(a) && !in_tag_view(b) && !in_unassigned_view(b));
    assert(selected_list_spec(b) == selected_list_spec(a));
    // The rows of the selected list, before and after.
    let ft = strings_view(a.filter_tags@);
    assert(ft.len() == 0);
    reveal(rows_for_list);
    assert(current_rows(a) == visible_rows(a));
    assert(current_rows(b) == visible_rows(b));
    let l = selected_list_spec(a)->0;
    assert(new_item_list(a) == Some(l));
    let p = |it: ItemRec| !it.archived && it.list_id == Some(l);
    lemma_rows_exist(a.doc.items@, p);
    let w = choose|w: Seq<ItemRec>| shows_exactly(item_map(a.doc.items@), p, w);
    lemma_shown_items(m, p, w);
    let s = list_rows(m, l);
    assert(s == w);
    assert(r.id == id && p(r));
    assert forall|j: int| 0 <= j < s.len() implies (#[trigger] s[j]).id != r.id by {
        assert(m.contains_key(s[j].id));
    }
    let k = lemma_place(s, r);
    lemma_insert_shows(m, p, s, r, k);
    let t = s.insert(k, r);
    let m2 = m.insert(id, r);
    assert(b.doc@.items == m2);
    lemma_shown_items(m2, p, t);
    assert(list_rows(m2, l) == t);
    let fu = undone_keep(ft);
    let fd = done_keep(ft, a.show_done);
    assert(fu(r));
    assert(!fd(r));
    lemma_filter_insert(s, r, k, fu);
    lemma_filter_insert(s, r, k, fd);
    let uu = s.filter(fu);
    let dd = s.filter(fd);
    let kk = s.take(k).filter(fu).len() as int;
    let u2 = uu.insert(kk, r);
    assert(current_rows(a) == uu + dd);
    assert(current_rows(b) == u2 + dd);
    // The selected row lies after the new item in display order.
    let x = current_rows(a)[i];
    assert(x.id == sid);
    if i < uu.len() {
        assert(x == uu[i]);
        s.filter_lemma(fu);
        assert(s.filter(fu).contains(x));
        s.lemma_filter_contains_rev(fu, x);
    } else {
        assert(x == dd[i - uu.len()]);
        s.filter_lemma(fd);
        assert(s.filter(fd).contains(x));
        s.lemma_filter_contains_rev(fd, x);
    }
    let q = choose|q: int| 0 <= q < s.len() && s[q] == x;
    assert(m.contains_key(s[q].id) && m[s[q].id] == s[q]);
    assert(x.position == m[sid].position);
    assert(r.position == x.position - 1);
    assert(item_before(r, x));
    lemma_before_total(r, x);
    if q < k {
        assert(item_before(s[q], r));
        assert(false);
    }
    if i < uu.len() && kk > i {
        let pre = s.take(k);
        assert(uu[i] == pre.filter(fu)[i]);
        pre.filter_lemma(fu);
        assert(pre.filter(fu).contains(x));
        pre.lemma_filter_contains_rev(fu, x);
        let q2 = choose|q2: int| 0 <= q2 < pre.len() && pre[q2] == x;
        assert(s[q2] == x);
        assert(item_before(s[q2], r));
        assert(false);
    }
    assert(kk <= uu.len());
    assert(u2[kk] == r);
    assert(current_rows(b)[kk] == r);
    if i < uu.len() {
        assert(u2[i + 1] == uu[i]);
    } else {
        assert((u2 + dd)[i + 1] == dd[i - uu.len()]);
    }
    assert(current_rows(b)[i + 1] == x);
    assert(b.selected_item_index == a.selected_item_index + 1);
    assert(selected_item_spec(b) == Some(x.id));
}

// ---------------------------------------------------------------------------
// The order of a list after its daily reset
// ---------------------------------------------------------------------------

/// `x` opened again at position `p`, with no time recorded.
pub open spec fn reopened(x: ItemRec, p: int) -> ItemRec {
    ItemRec { done: false, time_secs: 0, position: p, ..x }
}

pub open spec fn open_row() -> spec_fn(ItemRec) -> bool {
    |x: ItemRec| !x.done
}

pub open spec fn done_row() -> spec_fn(ItemRec) -> bool {
    |x: ItemRec| x.done
}

proof fn lemma_filter_sorted(s: Seq<ItemRec>, f: spec_fn(ItemRec) -> bool)
    requires
        forall|a: int, b: int| 0 <= a < b < s.len() ==> item_before(#[trigger] s[a], #[trigger] s[b]),
    ensures
        forall|a: int, b: int| 0 <= a < b < s.filter(f).len() ==> item_before(#[trigger] s.filter(f)[a], #[trigger] s.filter(f)[b]),
    decreases s.len(),
{
    reveal(Seq::filter);
    if s.len() > 0 {
        let d = s.drop_last();
        assert forall|a: int, b: int| 0 <= a < b < d.len() implies item_before(#[trigger] d[a], #[trigger] d[b]) by {
            assert(d[a] == s[a] && d[b] == s[b]);
        }
        lemma_filter_sorted(d, f);
        let fd = d.filter(f);
        if f(s.last()) {
            let t = s.filter(f);
            assert(t == fd.push(s.last()));
            assert forall|a: int, b: int| 0 <= a < b < t.len() implies item_before(#[trigger] t[a], #[trigger] t[b]) by {
                if b == t.len() - 1 {
                    assert(t[a] == fd[a]);
                    d.filter_lemma(f);
                    assert(fd.contains(fd[a]));
                    d.lemma_filter_contains_rev(f, fd[a]);
                    let q = choose|q: int| 0 <= q < d.len() && d[q] == fd[a];
                    assert(s[q] == d[q]);
                    assert(item_before(s[q], s[s.len() - 1]));
                } else {
                    assert(t[a] == fd[a] && t[b] == fd[b]);
                }
            }
        }
    }
}

/// Some position is the next one for list `l` of a document's map.
proof fn lemma_next_exists(s: Seq<crate::crdt::CrdtItem>, l: Option<Seq<char>>)
    requires
        item_ids_unique(s),
    ensures
        exists|r: int| next_item_position(item_map(s), l, r),
    decreases s.len(),
{
    if s.len() == 0 {
        assert(next_item_position(item_map(s), l, 0));
    } else {
        let d = s.drop_last();
        assert forall|i: int, j: int| 0 <= i < j < d.len() implies (#[trigger] d[i]).id@ != (#[trigger] d[j]).id@ by {
            assert(d[i] == s[i] && d[j] == s[j]);
        }
        lemma_next_exists(d, l);
        let m0 = item_map(d);
        let r0 = choose|r: int| next_item_position(m0, l, r);
        let x = s.last()@;
        if m0.contains_key(x.id) {
            lemma_item_map_key(d, x.id);
            let q = choose|q: int| 0 <= q < d.len() && (#[trigger] d[q]).id@ == x.id;
            assert(s[q] == d[q]);
            assert(s[s.len() - 1].id@ == x.id);
        }
        let m = item_map(s);
        assert(m == m0.insert(x.id, x));
        if x.list_id != l {
            if exists|id: Seq<char>| #[trigger] m0.contains_key(id) && m0[id].list_id == l {
                let w = choose|w: Seq<char>|
                    #[trigger] m0.contains_key(w) && m0[w].list_id == l && r0 == step_after(m0[w].position) && forall|id2: Seq<char>|
                        #[trigger] m0.contains_key(id2) && m0[id2].list_id == l ==> m0[id2].position <= m0[w].position;
                assert(m[w] == m0[w]);
                assert forall|id2: Seq<char>| #[trigger] m.contains_key(id2) && m[id2].list_id == l implies m[id2].position <= m[w].position by {
                    if id2 != x.id {
                        assert(m0.contains_key(id2) && m[id2] == m0[id2]);
                    }
                }
                assert(m.contains_key(w) && m[w].list_id == l && r0 == step_after(m[w].position));
                assert(next_item_position(m, l, r0));
            } else {
                assert forall|id: Seq<char>| #[trigger] m.contains_key(id) implies m[id].list_id != l by {
                    if id != x.id {
                        assert(m0.contains_key(id) && m[id] == m0[id]);
                    }
                }
                assert(next_item_position(m, l, r0));
            }
        } else {
            if exists|id: Seq<char>| #[trigger] m0.contains_key(id) && m0[id].list_id == l {
                let w = choose|w: Seq<char>|
                    #[trigger] m0.contains_key(w) && m0[w].list_id == l && r0 == step_after(m0[w].position) && forall|id2: Seq<char>|
                        #[trigger] m0.contains_key(id2) && m0[id2].list_id == l ==> m0[id2].position <= m0[w].position;
                if x.position <= m0[w].position {
                    assert(m[w] == m0[w]);
                    assert forall|id2: Seq<char>| #[trigger] m.contains_key(id2) && m[id2].list_id == l implies m[id2].position <= m[w].position by {
                        if id2 != x.id {
                            assert(m0.contains_key(id2) && m[id2] == m0[id2]);
                        }
                    }
                    assert(m.contains_key(w) && m[w].list_id == l && r0 == step_after(m[w].position));
                    assert(next_item_position(m, l, r0));
                } else {
                    assert(m[x.id] == x);
                    assert forall|id2: Seq<char>| #[trigger] m.contains_key(id2) && m[id2].list_id == l implies m[id2].position <= m[x.id].position by {
                        if id2 != x.id {
                            assert(m0.contains_key(id2) && m[id2] == m0[id2]);
                            assert(m0[id2].position <= m0[w].position);
                        }
                    }
                    assert(m.contains_key(x.id) && m[x.id].list_id == l);
                    assert(next_item_position(m, l, step_after(x.position)));
                }
            } else {
                assert(m[x.id] == x);
                assert forall|id2: Seq<char>| #[trigger] m.contains_key(id2) && m[id2].list_id == l implies m[id2].position <= m[x.id].position by {
                    if id2 != x.id {
                        assert(m0.contains_key(id2) && m[id2] == m0[id2]);
                    }
                }
                assert(m.contains_key(x.id) && m[x.id].list_id == l);
                assert(next_item_position(m, l, step_after(x.position)));
            }
        }
    }
}

/// The daily reset of a list that is due puts its rows in this order: the
/// open ones first, unchanged and in the order they had, then the done ones
/// opened again with no time, in the order they had; where the positions
/// it hands out stay within an `i64`.
pub proof fn law_reset_order(doc: CrdtDocument, today: Seq<char>, l: Seq<char>)
    requires
        doc.wf(),
        doc@.lists.contains_key(l),
        due_reset(doc@.lists[l], today),
        next_pos_of(doc@.items, Some(l)) + 2 * done_rows_of(doc@.items, l).len() <= i64::MAX,
    ensures
        ({
            let m = doc@.items;
            let s = list_rows(m, l);
            let nb = next_pos_of(m, Some(l));
            let dr = done_rows_of(m, l);
            list_rows(reset_doc(doc@, today).items, l) == s.filter(open_row()) + s.filter(done_row()).map_values(
                |x: ItemRec| reopened(x, offset_pos(nb, rank_of(dr, x.id))),
            )
        }),
{
    let m = doc@.items;
    let p = |i: ItemRec| !i.archived && i.list_id == Some(l);
    let pd = |i: ItemRec| i.done && i.list_id == Some(l);
    lemma_rows_exist(doc.items@, p);
    let w = choose|w: Seq<ItemRec>| shows_exactly(item_map(doc.items@), p, w);
    lemma_shown_items(m, p, w);
    let s = list_rows(m, l);
    assert(s == w);
    lemma_rows_exist(doc.items@, pd);
    let wd = choose|w: Seq<ItemRec>| shows_exactly(item_map(doc.items@), pd, w);
    lemma_shown_items(m, pd, wd);
    let dr = done_rows_of(m, l);
    assert(dr == wd);
    lemma_next_exists(doc.items@, Some(l));
    let nb = next_pos_of(m, Some(l));
    assert(next_item_position(m, Some(l), nb));
    let u = s.filter(open_row());
    let sd = s.filter(done_row());
    let reo = |x: ItemRec| reopened(x, offset_pos(nb, rank_of(dr, x.id)));
    let d2 = sd.map_values(reo);
    let t = u + d2;
    let m2 = reset_doc(doc@, today).items;
    s.filter_lemma(open_row());
    s.filter_lemma(done_row());
    lemma_filter_sorted(s, open_row());
    lemma_filter_sorted(s, done_row());
    // Where each row of the list stands among the done rows.
    assert forall|x: ItemRec| s.contains(x) && x.done implies {
        let k = rank_of(dr, x.id);
        0 <= k < dr.len() && dr[k] == x
    } by {
        let q = choose|q: int| 0 <= q < s.len() && s[q] == x;
        assert(m.contains_key(x.id) && m[x.id] == x);
        assert(pd(m[x.id]));
        let k0 = choose|k: int| 0 <= k < dr.len() && dr[k].id == x.id;
        assert(dr[k0] == m[dr[k0].id]);
    }
    assert forall|q: int| 0 <= q < t.len() implies m2.contains_key(#[trigger] t[q].id) && m2[t[q].id] == t[q] && p(t[q]) by {
        if q < u.len() {
            let x = u[q];
            assert(u.contains(x));
            s.lemma_filter_contains_rev(open_row(), x);
            let j = choose|j: int| 0 <= j < s.len() && s[j] == x;
            assert(m.contains_key(x.id) && m[x.id] == x);
            assert(t[q] == x);
        } else {
            let x = sd[q - u.len()];
            assert(sd.contains(x));
            s.lemma_filter_contains_rev(done_row(), x);
            let j = choose|j: int| 0 <= j < s.len() && s[j] == x;
            assert(m.contains_key(x.id) && m[x.id] == x);
            assert(t[q] == reo(x));
        }
    }
    assert forall|id: Seq<char>| #[trigger] m2.contains_key(id) && p(m2[id]) implies exists|q: int| 0 <= q < t.len() && t[q].id == id by {
        assert(m.contains_key(id));
        assert(p(m[id]));
        let j = choose|j: int| 0 <= j < s.len() && s[j].id == id;
        assert(m[s[j].id] == s[j]);
        if s[j].done {
            assert(sd.contains(s[j]));
            let q = choose|q: int| 0 <= q < sd.len() && sd[q] == s[j];
            assert(t[u.len() + q].id == id);
        } else {
            assert(u.contains(s[j]));
            let q = choose|q: int| 0 <= q < u.len() && u[q] == s[j];
            assert(t[q].id == id);
        }
    }
    assert forall|a: int, b: int| 0 <= a < b < t.len() implies item_before(#[trigger] t[a], #[trigger] t[b]) by {
        if b < u.len() {
            assert(t[a] == u[a] && t[b] == u[b]);
        } else {
            let y = sd[b - u.len()];
            assert(sd.contains(y));
            s.lemma_filter_contains_rev(done_row(), y);
            let kb = rank_of(dr, y.id);
            assert(t[b].position == nb + 2 * kb);
            if a < u.len() {
                let x = u[a];
                assert(u.contains(x));
                s.lemma_filter_contains_rev(open_row(), x);
                let j = choose|j: int| 0 <= j < s.len() && s[j] == x;
                assert(m.contains_key(x.id) && m[x.id] == x);
                law_next_position_above(m, Some(l), nb, x.id);
                assert(t[a] == x);
            } else {
                let x = sd[a - u.len()];
                assert(sd.contains(x));
                s.lemma_filter_contains_rev(done_row(), x);
                let ka = rank_of(dr, x.id);
                assert(t[a].position == nb + 2 * ka);
                assert(item_before(x, y));
                if ka >= kb {
                    lemma_lex_lt_trichotomy(x.id, y.id);
                    if ka == kb {
                        assert(x == y);
                        crate::text::lemma_lex_lt_irreflexive(x.id);
                    } else {
                        assert(item_before(dr[kb], dr[ka]));
                    }
                    assert(false);
                }
            }
        }
    }
    assert(shows_exactly(m2, p, t));
    lemma_shown_items(m2, p, t);
}

// ---------------------------------------------------------------------------
// Where a search hit takes the selection
// ---------------------------------------------------------------------------

proof fn lemma_first_list(ls: Seq<crate::crdt::ListRec>, id: Seq<char>, k: int)
    requires
        0 <= k < ls.len(),
        ls[k].id == id,
    ensures
        exists|c: int| 0 <= c < ls.len() && ls[c].id == id && forall|j: int| 0 <= j < c ==> ls[j].id != id,
    decreases k,
{
    if exists|j: int| 0 <= j < k && ls[j].id == id {
        let j = choose|j: int| 0 <= j < k && ls[j].id == id;
        lemma_first_list(ls, id, j);
    } else {
        assert(forall|j: int| 0 <= j < k ==> ls[j].id != id);
    }
}

proof fn lemma_first_row(s: Seq<ItemRec>, id: Seq<char>, k: int)
    requires
        0 <= k < s.len(),
        s[k].id == id,
    ensures
        exists|c: int| 0 <= c < s.len() && s[c].id == id && forall|j: int| 0 <= j < c ==> s[j].id != id,
    decreases k,
{
    if exists|j: int| 0 <= j < k && s[j].id == id {
        let j = choose|j: int| 0 <= j < k && s[j].id == id;
        lemma_first_row(s, id, j);
    } else {
        assert(forall|j: int| 0 <= j < k ==> s[j].id != id);
    }
}

/// Rows shown exactly once each and in display order are no more than the
/// items they come from.
proof fn lemma_rows_fit(items: Seq<CrdtItem>, p: spec_fn(ItemRec) -> bool, rows: Seq<ItemRec>)
    requires
        item_ids_unique(items),
        shows_exactly(item_map(items), p, rows),
    ensures
        rows.len() <= items.len(),
{
    let m = item_map(items);
    let ir = rows.map_values(|r: ItemRec| r.id);
    let ii = items.map_values(|c: CrdtItem| c.id@);
    assert forall|a: int, b: int| 0 <= a < b < ir.len() implies ir[a] != ir[b] by {
        if ir[a] == ir[b] {
            assert(rows[a] == m[rows[a].id] && rows[b] == m[rows[b].id]);
            assert(item_before(rows[a], rows[b]));
            crate::text::lemma_lex_lt_irreflexive(rows[a].id);
        }
    }
    assert(ir.no_duplicates());
    ir.unique_seq_to_set();
    ii.lemma_cardinality_of_set();
    assert forall|x: Seq<char>| ir.to_set().contains(x) implies ii.to_set().contains(x) by {
        let k = choose|k: int| 0 <= k < ir.len() && ir[k] == x;
        assert(m.contains_key(rows[k].id));
        lemma_item_map_key(items, x);
        let q = choose|q: int| 0 <= q < items.len() && (#[trigger] items[q]).id@ == x;
        assert(ii[q] == x);
    }
    vstd::seq_lib::seq_to_set_is_finite(ii);
    vstd::set_lib::lemma_len_subset(ir.to_set(), ii.to_set());
}

/// The lists in display order are no more than the lists they come from.
proof fn lemma_lists_fit(lists: Seq<CrdtList>, r: Seq<ListRec>)
    requires
        lists_exactly(list_map(lists), r),
    ensures
        r.len() <= lists.len(),
{
    let m = list_map(lists);
    let ir = r.map_values(|x: ListRec| x.id);
    let ii = lists.map_values(|c: CrdtList| c.id@);
    assert forall|a: int, b: int| 0 <= a < b < ir.len() implies ir[a] != ir[b] by {
        if ir[a] == ir[b] {
            assert(r[a] == m[r[a].id] && r[b] == m[r[b].id]);
            assert(list_before(r[a], r[b]));
            crate::text::lemma_lex_lt_irreflexive(r[a].id);
        }
    }
    assert(ir.no_duplicates());
    ir.unique_seq_to_set();
    ii.lemma_cardinality_of_set();
    assert forall|x: Seq<char>| ir.to_set().contains(x) implies ii.to_set().contains(x) by {
        let k = choose|k: int| 0 <= k < ir.len() && ir[k] == x;
        assert(m.contains_key(r[k].id));
        lemma_list_map_key(lists, x);
        let q = choose|q: int| 0 <= q < lists.len() && (#[trigger] lists[q]).id@ == x;
        assert(ii[q] == x);
    }
    vstd::seq_lib::seq_to_set_is_finite(ii);
    vstd::set_lib::lemma_len_subset(ir.to_set(), ii.to_set());
}

proof fn lemma_list_place(s: Seq<ListRec>, r: ListRec) -> (k: int)
    requires
        forall|a: int, b: int| 0 <= a < b < s.len() ==> list_before(#[trigger] s[a], #[trigger] s[b]),
        forall|j: int| 0 <= j < s.len() ==> (#[trigger] s[j]).id != r.id,
    ensures
        0 <= k <= s.len(),
        forall|j: int| 0 <= j < k ==> list_before(#[trigger] s[j], r),
        forall|j: int| k <= j < s.len() ==> list_before(r, #[trigger] s[j]),
    decreases s.len(),
{
    if s.len() == 0 {
        0
    } else {
        let n = s.len() - 1;
        let d = s.drop_last();
        let x = s[n];
        lemma_lex_lt_trichotomy(x.id, r.id);
        if list_before(x, r) {
            assert forall|j: int| 0 <= j < s.len() implies list_before(#[trigger] s[j], r) by {
                if j < n {
                    assert(list_before(s[j], x));
                    if s[j].position == x.position && x.position == r.position {
                        lemma_lex_lt_transitive(s[j].id, x.id, r.id);
                    }
                }
            }
            s.len() as int
        } else {
            assert forall|a: int, b: int| 0 <= a < b < d.len() implies list_before(#[trigger] d[a], #[trigger] d[b]) by {
                assert(d[a] == s[a] && d[b] == s[b]);
            }
            assert forall|j: int| 0 <= j < d.len() implies (#[trigger] d[j]).id != r.id by {
                assert(d[j] == s[j]);
            }
            let k = lemma_list_place(d, r);
            assert forall|j: int| 0 <= j < k implies list_before(#[trigger] s[j], r) by {
                assert(d[j] == s[j]);
            }
            assert forall|j: int| k <= j < s.len() implies list_before(r, #[trigger] s[j]) by {
                if j < n {
                    assert(d[j] == s[j]);
                }
            }
            k
        }
    }
}

/// Some sequence holds exactly the lists of a document's map, in display
/// order.
proof fn lemma_lists_exist(s: Seq<CrdtList>)
    requires
        list_ids_unique(s),
    ensures
        exists|r: Seq<ListRec>| lists_exactly(list_map(s), r),
    decreases s.len(),
{
    if s.len() == 0 {
        assert(lists_exactly(list_map(s), Seq::<ListRec>::empty()));
    } else {
        let d = s.drop_last();
        assert forall|i: int, j: int| 0 <= i < j < d.len() implies (#[trigger] d[i]).id@ != (#[trigger] d[j]).id@ by {
            assert(d[i] == s[i] && d[j] == s[j]);
        }
        lemma_lists_exist(d);
        let r = choose|r: Seq<ListRec>| lists_exactly(list_map(d), r);
        let x = s.last()@;
        let m = list_map(d);
        if m.contains_key(x.id) {
            lemma_list_map_key(d, x.id);
            let q = choose|q: int| 0 <= q < d.len() && (#[trigger] d[q]).id@ == x.id;
            assert(s[q] == d[q]);
            assert(s[s.len() - 1].id@ == x.id);
        }
        let m2 = list_map(s);
        assert(m2 == m.insert(x.id, x));
        assert forall|j: int| 0 <= j < r.len() implies (#[trigger] r[j]).id != x.id by {
            assert(m.contains_key(r[j].id));
        }
        let k = lemma_list_place(r, x);
        let t = r.insert(k, x);
        assert forall|q: int| 0 <= q < t.len() implies m2.contains_key(#[trigger] t[q].id) && m2[t[q].id] == t[q] by {
            if q < k {
                assert(t[q] == r[q]);
                assert(m.contains_key(r[q].id));
            } else if q > k {
                assert(t[q] == r[q - 1]);
                assert(m.contains_key(r[q - 1].id));
            }
        }
        assert forall|id: Seq<char>| #[trigger] m2.contains_key(id) implies exists|q: int| 0 <= q < t.len() && t[q].id == id by {
            if id == x.id {
                assert(t[k].id == id);
            } else {
                let q = choose|q: int| 0 <= q < r.len() && r[q].id == id;
                if q < k {
                    assert(t[q] == r[q]);
                } else {
                    assert(t[q + 1] == r[q]);
                }
            }
        }
        assert forall|a: int, b: int| 0 <= a < b < t.len() implies list_before(#[trigger] t[a], #[trigger] t[b]) by {
            if b < k {
                assert(t[a] == r[a] && t[b] == r[b]);
            } else if b == k {
                assert(t[a] == r[a]);
            } else if a < k {
                assert(t[a] == r[a] && t[b] == r[b - 1]);
            } else if a == k {
                assert(t[b] == r[b - 1]);
            } else {
                assert(t[a] == r[a - 1] && t[b] == r[b - 1]);
            }
        }
        assert(lists_exactly(m2, t));
    }
}

/// Rows kept by two tests that no row passes both are no more than the
/// rows.
proof fn lemma_split_len(s: Seq<ItemRec>, f: spec_fn(ItemRec) -> bool, g: spec_fn(ItemRec) -> bool)
    requires
        forall|x: ItemRec| !(#[trigger] f(x) && g(x)),
    ensures
        s.filter(f).len() + s.filter(g).len() <= s.len(),
    decreases s.len(),
{
    reveal(Seq::filter);
    if s.len() > 0 {
        lemma_split_len(s.drop_last(), f, g);
    }
}

/// The row of an item that is not archived, in the rows of its list when
/// no tag filter is set and done items are shown where it is done.
#[verifier::spinoff_prover]
proof fn lemma_item_row(a2: App, id: Seq<char>, l: Seq<char>)
    requires
        a2.doc.wf(),
        selected_list_spec(a2) == Some(l),
        a2.filter_tags@.len() == 0,
        a2.doc@.items.contains_key(id),
        !a2.doc@.items[id].archived,
        a2.doc@.items[id].list_id == Some(l),
        a2.doc@.items[id].done ==> a2.show_done,
    ensures
        visible_rows(a2).len() <= usize::MAX,
        row_index(visible_rows(a2), id) is Some,
        0 <= row_index(visible_rows(a2), id)->0 < visible_rows(a2).len(),
        visible_rows(a2)[row_index(visible_rows(a2), id)->0].id == id,
{
    let m = a2.doc@.items;
    let x = m[id];
    let p = |it: ItemRec| !it.archived && it.list_id == Some(l);
    lemma_rows_exist(a2.doc.items@, p);
    let w = choose|w: Seq<ItemRec>| shows_exactly(item_map(a2.doc.items@), p, w);
    lemma_shown_items(m, p, w);
    let s = list_rows(m, l);
    assert(s == w);
    assert(p(m[id]));
    let k = choose|k: int| 0 <= k < s.len() && s[k].id == id;
    assert(s[k] == x);
    reveal(rows_for_list);
    let ft = strings_view(a2.filter_tags@);
    let fu = undone_keep(ft);
    let fd = done_keep(ft, a2.show_done);
    let rows = visible_rows(a2);
    assert(rows == s.filter(fu) + s.filter(fd));
    lemma_rows_fit(a2.doc.items@, p, s);
    assert(a2.doc.items@.len() == a2.doc.items.len());
    lemma_split_len(s, fu, fd);
    assert(rows.len() <= usize::MAX);
    let q: int = if !x.done {
        assert(fu(s[k]));
        s.lemma_filter_contains(fu, k);
        let q = choose|q: int| 0 <= q < s.filter(fu).len() && s.filter(fu)[q] == s[k];
        assert(rows[q] == x);
        q
    } else {
        assert(a2.show_done);
        assert(fd(s[k]));
        s.lemma_filter_contains(fd, k);
        let q = choose|q: int| 0 <= q < s.filter(fd).len() && s.filter(fd)[q] == s[k];
        assert(rows[s.filter(fu).len() + q] == x);
        s.filter(fu).len() + q
    };
    lemma_first_row(rows, id, q);
    let vi = row_index(rows, id)->0;
    assert(0 <= vi < rows.len() && rows[vi].id == id);
}

/// Choosing a search hit that names an item which is not archived and
/// whose list is one of the document's lists, with no tag filter, closes
/// the search box, selects that list in the sidebar and in the main pane,
/// shows done items if the item is done, and puts the selection on the
/// item's row.
#[verifier::spinoff_prover]
#[verifier::rlimit(80)]
pub proof fn law_search_item_selected(a: App, b: App, id: Seq<char>)
    requires
        a.doc.wf(),
        search_hit_selected(a, b),
        a.search_selected < a.search_results@.len(),
        a.search_results@[a.search_selected as int]@ == ResultV::Item(id),
        a.doc@.items.contains_key(id),
        !a.doc@.items[id].archived,
        a.doc@.items[id].list_id matches Some(l) && exists|i: int| 0 <= i < lists_of(a).len() && #[trigger] lists_of(a)[i].id == l,
        a.filter_tags@.len() == 0,
    ensures
        b.input_mode == InputMode::Normal,
        b.input_buffer@.len() == 0,
        b.search_results@.len() == 0,
        b.search_selected == 0,
        b.active_pane == Pane::Main,
        b.selected_list_index as int == list_pos(lists_of(a), a.doc@.items[id].list_id->0)->0,
        b.selected_sidebar_index == b.selected_list_index,
        lists_of(b)[b.selected_list_index as int].id == a.doc@.items[id].list_id->0,
        a.doc@.items[id].done ==> b.show_done,
        b.selected_item_index < visible_rows(b).len(),
        visible_rows(b)[b.selected_item_index as int].id == id,
{
    let m = a.doc@.items;
    let x = m[id];
    let l = x.list_id->0;
    let ls = lists_of(a);
    let i = choose|i: int| 0 <= i < ls.len() && #[trigger] ls[i].id == l;
    lemma_lists_exist(a.doc.lists@);
    let wl = choose|r: Seq<ListRec>| lists_exactly(list_map(a.doc.lists@), r);
    crate::crdt::lemma_lists_unique(a.doc@.lists, ls, wl);
    lemma_lists_fit(a.doc.lists@, ls);
    assert(a.doc.lists@.len() == a.doc.lists.len());
    lemma_first_list(ls, l, i);
    let li = list_pos(ls, l)->0;
    assert(0 <= li < ls.len() && ls[li].id == l);
    let a0 = if x.done { App { show_done: true, ..a } } else { a };
    let a2 = App { selected_list_index: li as usize, selected_sidebar_index: li as usize, active_pane: Pane::Main, ..a0 };
    assert(lists_of(a0) == ls);
    assert(selected_list_spec(a2) == Some(l));
    lemma_item_row(a2, id, l);
    let rows = visible_rows(a2);
    let vi = row_index(rows, id)->0;
    let a1 = goto_hit(a, ResultV::Item(id));
    assert(a1 == App { selected_item_index: vi as usize, ..a2 });
    assert(visible_rows(b) == rows);
}

// ---------------------------------------------------------------------------
// Moving a row up
// ---------------------------------------------------------------------------

proof fn lemma_filter_update(s: Seq<ItemRec>, k: int, r: ItemRec, f: spec_fn(ItemRec) -> bool)
    requires
        0 <= k < s.len(),
        f(s[k]) == f(r),
    ensures
        f(r) ==> s.take(k).filter(f).len() < s.filter(f).len() && s.filter(f)[s.take(k).filter(f).len() as int] == s[k]
            && s.update(k, r).filter(f) == s.filter(f).update(s.take(k).filter(f).len() as int, r),
        !f(r) ==> s.update(k, r).filter(f) == s.filter(f),
{
    let a = s.take(k);
    let c = s.skip(k + 1);
    assert(s == a + seq![s[k]] + c);
    assert(s.update(k, r) == a + seq![r] + c);
    Seq::filter_distributes_over_add(a + seq![s[k]], c, f);
    Seq::filter_distributes_over_add(a, seq![s[k]], f);
    Seq::filter_distributes_over_add(a + seq![r], c, f);
    Seq::filter_distributes_over_add(a, seq![r], f);
    reveal(Seq::filter);
    assert(seq![r].drop_last() == Seq::<ItemRec>::empty());
    assert(seq![s[k]].drop_last() == Seq::<ItemRec>::empty());
    assert(seq![r].last() == r);
    assert(seq![s[k]].last() == s[k]);
    let fa = a.filter(f);
    let fc = c.filter(f);
    if f(r) {
        assert(seq![r].filter(f) == seq![r]);
        assert(seq![s[k]].filter(f) == seq![s[k]]);
        assert((fa + seq![s[k]] + fc)[fa.len() as int] == s[k]);
        assert(fa + seq![r] + fc == (fa + seq![s[k]] + fc).update(fa.len() as int, r));
    } else {
        assert(seq![r].drop_last().filter(f) == Seq::<ItemRec>::empty());
        assert(seq![s[k]].drop_last().filter(f) == Seq::<ItemRec>::empty());
        assert(seq![r].filter(f) == Seq::<ItemRec>::empty());
        assert(seq![s[k]].filter(f) == Seq::<ItemRec>::empty());
    }
}

proof fn lemma_sorted_index(f: Seq<ItemRec>, j: int, q: int)
    requires
        forall|a: int, b: int| 0 <= a < b < f.len() ==> item_before(#[trigger] f[a], #[trigger] f[b]),
        0 <= j < f.len(),
        0 <= q < f.len(),
        f[j] == f[q],
    ensures
        j == q,
{
    if j != q {
        crate::text::lemma_lex_lt_irreflexive(f[j].id);
        if j < q {
            assert(item_before(f[j], f[q]));
        } else {
            assert(item_before(f[q], f[j]));
        }
    }
}

/// The rows of the selected list have distinct positions.
pub open spec fn rows_apart(a: App) -> bool {
    let rs = list_rows(a.doc@.items, selected_list_spec(a)->0);
    forall|p: int, q: int| 0 <= p < q < rs.len() ==> (#[trigger] rs[p]).position != (#[trigger] rs[q]).position
}

/// Exchanging the positions of two neighbouring rows that are both open or
/// both done, in a list whose rows have distinct positions, exchanges the
/// two rows shown and leaves the others where they were.
#[verifier::spinoff_prover]
#[verifier::rlimit(100)]
proof fn lemma_swap_rows(a: App, b: App, j: int, up: bool)
    requires
        a.doc.wf(),
        !in_tag_view(a),
        !in_unassigned_view(a),
        selected_list_spec(a) is Some,
        0 <= j,
        j + 1 < visible_rows(a).len(),
        visible_rows(a)[j].done == visible_rows(a)[j + 1].done,
        rows_apart(a),
        b.doc@ == (DocV {
            items: swapped_items(
                moved_base(a, visible_rows(a)[j].id, visible_rows(a)[j + 1].id),
                if up { visible_rows(a)[j + 1].id } else { visible_rows(a)[j].id },
                if up { visible_rows(a)[j].id } else { visible_rows(a)[j + 1].id },
            ),
            lists: a.doc@.lists,
        }),
        b.selected_list_index == a.selected_list_index,
        b.filter_tags == a.filter_tags,
        b.show_done == a.show_done,
        b.sidebar_entries == a.sidebar_entries,
        b.selected_sidebar_index == a.selected_sidebar_index,
    ensures
        visible_rows(a).len() <= usize::MAX,
        !in_tag_view(b),
        !in_unassigned_view(b),
        selected_list_spec(b) == selected_list_spec(a),
        rows_apart(b),
        visible_rows(b).len() == visible_rows(a).len(),
        visible_rows(b)[j].id == visible_rows(a)[j + 1].id,
        visible_rows(b)[j + 1].id == visible_rows(a)[j].id,
        visible_rows(b)[j].done == visible_rows(b)[j + 1].done,
        forall|k: int|
            0 <= k < visible_rows(a).len() && k != j && k != j + 1 ==> #[trigger] visible_rows(b)[k] == visible_rows(a)[k],
{
    let m = a.doc@.items;
    let l = selected_list_spec(a)->0;
    let v = visible_rows(a);
    let i = j + 1;
    let x = v[i - 1];
    let y = v[i];
    let p = |it: ItemRec| !it.archived && it.list_id == Some(l);
    lemma_rows_exist(a.doc.items@, p);
    let w = choose|w: Seq<ItemRec>| shows_exactly(item_map(a.doc.items@), p, w);
    lemma_shown_items(m, p, w);
    let s = list_rows(m, l);
    assert(s == w);
    reveal(rows_for_list);
    let ft = strings_view(a.filter_tags@);
    let fu = undone_keep(ft);
    let fd = done_keep(ft, a.show_done);
    let uu = s.filter(fu);
    let dd = s.filter(fd);
    assert(v == uu + dd);
    lemma_rows_fit(a.doc.items@, p, s);
    assert(a.doc.items@.len() == a.doc.items.len());
    lemma_split_len(s, fu, fd);
    s.filter_lemma(fu);
    s.filter_lemma(fd);
    lemma_filter_sorted(s, fu);
    lemma_filter_sorted(s, fd);
    // Both rows lie in the same group.
    let f = if x.done { fd } else { fu };
    let g = if x.done { fu } else { fd };
    let ff = s.filter(f);
    let off: int = if x.done { uu.len() as int } else { 0 };
    if x.done {
        if i - 1 < uu.len() {
            assert(fu(uu[i - 1]));
            assert(false);
        }
        assert(x == dd[i - 1 - uu.len()] && y == dd[i - uu.len()]);
    } else {
        if i >= uu.len() {
            assert(y == dd[i - uu.len()]);
            assert(fd(dd[i - uu.len()]));
            assert(false);
        }
        assert(x == uu[i - 1] && y == uu[i]);
    }
    assert(ff[i - 1 - off] == x && ff[i - off] == y);
    assert(f(x) && f(y));
    assert(item_before(x, y));
    // Where the two rows stand in the list.
    assert(ff.contains(x));
    s.lemma_filter_contains_rev(f, x);
    assert(ff.contains(y));
    s.lemma_filter_contains_rev(f, y);
    let ix = choose|q: int| 0 <= q < s.len() && s[q] == x;
    let iy = choose|q: int| 0 <= q < s.len() && s[q] == y;
    if ix == iy {
        crate::text::lemma_lex_lt_irreflexive(x.id);
        assert(false);
    }
    if ix < iy {
        assert(s[ix].position != s[iy].position);
    } else {
        assert(s[iy].position != s[ix].position);
    }
    assert(x.position < y.position);
    assert(m.contains_key(x.id) && m[x.id] == x);
    assert(m.contains_key(y.id) && m[y.id] == y);
    // Positions of the list's rows rise strictly.
    assert forall|c: int, d: int| 0 <= c < d < s.len() implies (#[trigger] s[c]).position < (#[trigger] s[d]).position by {
        assert(item_before(s[c], s[d]));
    }
    assert forall|q: int| 0 <= q < s.len() && q != ix implies (#[trigger] s[q]).id != x.id by {
        if s[q].id == x.id {
            assert(s[q] == m[x.id]);
        }
    }
    assert forall|q: int| 0 <= q < s.len() && q != iy implies (#[trigger] s[q]).id != y.id by {
        if s[q].id == y.id {
            assert(s[q] == m[y.id]);
        }
    }
    // The document after the move, and the list's rows in it.
    let y2 = ItemRec { position: x.position, ..y };
    let x2 = ItemRec { position: y.position, ..x };
    let m2 = swapped_items(m, y.id, x.id);
    assert(moved_base(a, x.id, y.id) == m);
    assert(swapped_items(m, x.id, y.id) =~= m2);
    assert(b.doc@.items == m2);
    assert(m2[y.id] == y2 && m2[x.id] == x2);
    let s1 = s.update(ix, y2);
    let t = s1.update(iy, x2);
    assert forall|q: int| 0 <= q < t.len() implies m2.contains_key(#[trigger] t[q].id) && m2[t[q].id] == t[q] && p(t[q]) by {
        if q != ix && q != iy {
            assert(t[q] == s[q]);
            assert(m.contains_key(s[q].id));
        }
    }
    assert forall|id: Seq<char>| #[trigger] m2.contains_key(id) && p(m2[id]) implies exists|q: int| 0 <= q < t.len() && t[q].id == id by {
        if id == x.id {
            assert(t[iy].id == id);
        } else if id == y.id {
            assert(t[ix].id == id);
        } else {
            assert(m.contains_key(id) && m2[id] == m[id]);
            let q = choose|q: int| 0 <= q < s.len() && s[q].id == id;
            assert(t[q] == s[q]);
        }
    }
    assert forall|c: int, d: int| 0 <= c < d < t.len() implies item_before(#[trigger] t[c], #[trigger] t[d]) by {
        assert(t[c].position == s[c].position);
        assert(t[d].position == s[d].position);
    }
    assert(shows_exactly(m2, p, t));
    lemma_shown_items(m2, p, t);
    assert(lists_of(b) == lists_of(a));
    assert(selected_list_spec(b) == Some(l));
    assert(entry_at(b) == entry_at(a));
    assert forall|c: int, d: int| 0 <= c < d < t.len() implies (#[trigger] t[c]).position != (#[trigger] t[d]).position by {
        assert(t[c].position == s[c].position);
        assert(t[d].position == s[d].position);
    }
    let vb = visible_rows(b);
    assert(vb == t.filter(fu) + t.filter(fd));
    // The group of the two rows gets them exchanged; the other is unchanged.
    lemma_filter_update(s, ix, y2, f);
    lemma_filter_update(s, ix, y2, g);
    assert(s1[iy] == y);
    lemma_filter_update(s1, iy, x2, f);
    lemma_filter_update(s1, iy, x2, g);
    let jx = s.take(ix).filter(f).len() as int;
    lemma_sorted_index(ff, jx, i - 1 - off);
    let f1 = s1.filter(f);
    assert(f1 == ff.update(jx, y2));
    let jy = s1.take(iy).filter(f).len() as int;
    assert(f1[jy] == y);
    if jy == jx {
        assert(false);
    }
    assert(ff[jy] == y);
    lemma_sorted_index(ff, jy, i - off);
    assert(t.filter(f) == ff.update(i - 1 - off, y2).update(i - off, x2));
    assert(t.filter(g) == s.filter(g));
    assert forall|k: int| 0 <= k < v.len() && k != i - 1 && k != i implies #[trigger] vb[k] == v[k] by {}
}


/// The document a move starts from: the list renumbered where the two rows
/// share a position.
pub open spec fn moved_base(a: App, x: Seq<char>, y: Seq<char>) -> Map<Seq<char>, ItemRec> {
    let m = a.doc@.items;
    if m[y].position == m[x].position {
        crate::app::renumbered_items(m, list_rows(m, selected_list_spec(a)->0))
    } else {
        m
    }
}

/// Moving the selected row up, where it and the row above it are both open
/// or both done and no two rows of the list share a position, exchanges the
/// two rows shown and leaves the others where they were; the selection
/// follows the moved row.
pub proof fn law_move_up_swaps(a: App, b: App)
    requires
        a.doc.wf(),
        item_moved_up(a, b),
        !in_tag_view(a),
        !in_unassigned_view(a),
        selected_list_spec(a) is Some,
        0 < a.selected_item_index < visible_rows(a).len(),
        visible_rows(a)[a.selected_item_index - 1].done == visible_rows(a)[a.selected_item_index as int].done,
        rows_apart(a),
    ensures
        b.selected_item_index == a.selected_item_index - 1,
        !in_tag_view(b),
        !in_unassigned_view(b),
        selected_list_spec(b) == selected_list_spec(a),
        rows_apart(b),
        visible_rows(b)[a.selected_item_index - 1].done == visible_rows(b)[a.selected_item_index as int].done,
        visible_rows(b).len() == visible_rows(a).len(),
        visible_rows(b)[a.selected_item_index - 1].id == visible_rows(a)[a.selected_item_index as int].id,
        visible_rows(b)[a.selected_item_index as int].id == visible_rows(a)[a.selected_item_index - 1].id,
        forall|k: int|
            0 <= k < visible_rows(a).len() && k != a.selected_item_index - 1 && k != a.selected_item_index
                ==> #[trigger] visible_rows(b)[k] == visible_rows(a)[k],
{
    let v = visible_rows(a);
    let i = a.selected_item_index as int;
    assert(moved_base(a, v[i - 1].id, v[i].id) == (if a.doc@.items[v[i].id].position == a.doc@.items[v[i - 1].id].position {
        crate::app::renumbered_items(a.doc@.items, list_rows(a.doc@.items, selected_list_spec(a)->0))
    } else {
        a.doc@.items
    }));
    lemma_swap_rows(a, b, i - 1, true);
}

/// Moving the selected row down, where it and the row below it are both
/// open or both done and no two rows of the list share a position,
/// exchanges the two rows shown and leaves the others where they were; the
/// selection follows the moved row.
pub proof fn law_move_down_swaps(a: App, b: App)
    requires
        a.doc.wf(),
        crate::app::item_moved_down(a, b),
        !in_tag_view(a),
        !in_unassigned_view(a),
        selected_list_spec(a) is Some,
        a.selected_item_index + 1 < visible_rows(a).len(),
        visible_rows(a)[a.selected_item_index as int].done == visible_rows(a)[a.selected_item_index + 1].done,
        rows_apart(a),
    ensures
        b.selected_item_index == a.selected_item_index + 1,
        !in_tag_view(b),
        !in_unassigned_view(b),
        selected_list_spec(b) == selected_list_spec(a),
        rows_apart(b),
        visible_rows(b).len() == visible_rows(a).len(),
        visible_rows(b)[a.selected_item_index as int].id == visible_rows(a)[a.selected_item_index + 1].id,
        visible_rows(b)[a.selected_item_index + 1].id == visible_rows(a)[a.selected_item_index as int].id,
        forall|k: int|
            0 <= k < visible_rows(a).len() && k != a.selected_item_index && k != a.selected_item_index + 1
                ==> #[trigger] visible_rows(b)[k] == visible_rows(a)[k],
{
    let v = visible_rows(a);
    let i = a.selected_item_index as int;
    assert(moved_base(a, v[i].id, v[i + 1].id) == (if a.doc@.items[v[i].id].position == a.doc@.items[v[i + 1].id].position {
        crate::app::renumbered_items(a.doc@.items, list_rows(a.doc@.items, selected_list_spec(a)->0))
    } else {
        a.doc@.items
    }));
    lemma_swap_rows(a, b, i, false);
}


/// Moving a row up and then down again, under the conditions of the two
/// moves, shows the rows as they were and selects the same row.
pub proof fn law_up_then_down(a: App, b: App, c: App)
    requires
        a.doc.wf(),
        b.doc.wf(),
        item_moved_up(a, b),
        crate::app::item_moved_down(b, c),
        !in_tag_view(a),
        !in_unassigned_view(a),
        selected_list_spec(a) is Some,
        0 < a.selected_item_index < visible_rows(a).len(),
        visible_rows(a)[a.selected_item_index - 1].done == visible_rows(a)[a.selected_item_index as int].done,
        rows_apart(a),
    ensures
        c.selected_item_index == a.selected_item_index,
        visible_rows(c).len() == visible_rows(a).len(),
        forall|k: int| 0 <= k < visible_rows(a).len() ==> (#[trigger] visible_rows(c)[k]).id == visible_rows(a)[k].id,
{
    law_move_up_swaps(a, b);
    law_move_down_swaps(b, c);
    let i = a.selected_item_index as int;
    assert forall|k: int| 0 <= k < visible_rows(a).len() implies (#[trigger] visible_rows(c)[k]).id == visible_rows(a)[k].id by {
        if k != i - 1 && k != i {
            assert(visible_rows(c)[k] == visible_rows(b)[k]);
        }
    }
}

} // verus!
