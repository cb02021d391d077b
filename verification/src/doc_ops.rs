use vstd::prelude::*;

use crate::crdt::{
    item_ids_unique, item_map, item_put, lemma_item_map_entry, lemma_item_map_key, list_ids_unique,
    list_map, list_put, opt_view, CrdtDocument, CrdtItem, CrdtList, DocV, ItemRec, ListRec,
    doc_lists, lemma_lists_unique, lemma_shown_items, list_rows, lists_exactly, shows_exactly,
};
use crate::model::{strings_view, ItemV, ListType, ListV, TodoList};
use crate::sorting::strictly_sorted;
use crate::text::{lemma_lex_lt_irreflexive, lemma_lex_lt_transitive, lemma_lex_lt_trichotomy, lex_less, lex_lt};

verus! {

// ---------------------------------------------------------------------------
// Tags
// ---------------------------------------------------------------------------

pub open spec fn lex_order() -> spec_fn(Seq<char>, Seq<char>) -> bool {
    |a: Seq<char>, b: Seq<char>| lex_lt(a, b)
}

/// Some item of `m`, archived or not, carries the tag `t`.
pub open spec fn tag_in_doc(m: Map<Seq<char>, ItemRec>, t: Seq<char>) -> bool {
    exists|id: Seq<char>| #[trigger] m.contains_key(id) && m[id].tags.contains(t)
}

/// `r` holds each tag of `m` once, in lexicographic order.
pub open spec fn tags_exactly(m: Map<Seq<char>, ItemRec>, r: Seq<Seq<char>>) -> bool {
    &&& strictly_sorted(r, lex_order())
    &&& forall|t: Seq<char>| r.contains(t) <==> tag_in_doc(m, t)
}

/// The tags of the items of `m`, each once, sorted.
pub open spec fn doc_tags(m: Map<Seq<char>, ItemRec>) -> Seq<Seq<char>> {
    choose|r: Seq<Seq<char>>| tags_exactly(m, r)
}

/// Inserts `t` at its place in a sorted vector of distinct strings, unless
/// it is there already.
pub fn insert_tag(out: &mut Vec<String>, t: &String)
    requires
        strictly_sorted(strings_view(old(out)@), lex_order()),
    ensures
        strictly_sorted(strings_view(final(out)@), lex_order()),
        forall|x: Seq<char>| strings_view(final(out)@).contains(x) <==> (strings_view(old(out)@).contains(x) || x == t@),
{
    let tc = crate::text::chars_of(t.as_str());
    let mut pos: usize = 0;
    while pos < out.len() && lex_less(&crate::text::chars_of(out[pos].as_str()), &tc)
        invariant
            pos <= out.len(),
            tc@ == t@,
            forall|q: int| 0 <= q < pos ==> lex_lt((#[trigger] out@[q])@, t@),
        decreases out.len() - pos,
    {
        pos = pos + 1;
    }
    let ghost old_v = strings_view(out@);
    if pos < out.len() && crate::text::str_eq(out[pos].as_str(), t.as_str()) {
        assert(old_v[pos as int] == t@);
        return;
    }
    proof {
        if pos < out.len() {
            lemma_lex_lt_trichotomy(out@[pos as int]@, t@);
        }
    }
    out.insert(pos, t.clone());
    let ghost nv = strings_view(out@);
    assert(nv =~= old_v.insert(pos as int, t@));
    assert forall|a: int, b: int| 0 <= a < b < nv.len() implies lex_lt(#[trigger] nv[a], #[trigger] nv[b]) by {
        if b < pos {
            assert(nv[a] == old_v[a] && nv[b] == old_v[b]);
            assert(lex_order()(old_v[a], old_v[b]));
        } else if b == pos {
            assert(nv[a] == old_v[a]);
        } else if a < pos {
            assert(nv[a] == old_v[a] && nv[b] == old_v[b - 1]);
            assert(lex_lt(t@, old_v[pos as int]));
            if b - 1 > pos {
                assert(lex_order()(old_v[pos as int], old_v[b - 1]));
                lemma_lex_lt_transitive(t@, old_v[pos as int], old_v[b - 1]);
            }
            lemma_lex_lt_transitive(old_v[a], t@, old_v[b - 1]);
        } else if a == pos {
            assert(nv[b] == old_v[b - 1]);
            assert(lex_lt(t@, old_v[pos as int]));
            if b - 1 > pos {
                assert(lex_order()(old_v[pos as int], old_v[b - 1]));
                lemma_lex_lt_transitive(t@, old_v[pos as int], old_v[b - 1]);
            }
        } else {
            assert(nv[a] == old_v[a - 1] && nv[b] == old_v[b - 1]);
            assert(lex_order()(old_v[a - 1], old_v[b - 1]));
        }
    }
    assert forall|x: Seq<char>| nv.contains(x) <==> (old_v.contains(x) || x == t@) by {
        if nv.contains(x) {
            let k = choose|k: int| 0 <= k < nv.len() && nv[k] == x;
            if k < pos {
                assert(old_v[k] == x);
            } else if k > pos {
                assert(old_v[k - 1] == x);
            }
        }
        if old_v.contains(x) {
            let k = choose|k: int| 0 <= k < old_v.len() && old_v[k] == x;
            if k < pos {
                assert(nv[k] == x);
            } else {
                assert(nv[k + 1] == x);
            }
        }
        if x == t@ {
            assert(nv[pos as int] == x);
        }
    }
}

/// Tag `x` is carried by one of the first `n` items, or is among the first
/// `j` tags of item `n`.
pub open spec fn tag_seen(items: Seq<CrdtItem>, n: int, j: int, x: Seq<char>) -> bool {
    ||| exists|q: int| 0 <= q < n && #[trigger] strings_view(items[q].tags@).contains(x)
    ||| (0 <= n < items.len() && exists|k: int| 0 <= k < j && (#[trigger] items[n].tags@[k])@ == x)
}

impl CrdtDocument {
    /// Every tag of every item, archived ones included, each once, sorted.
    pub fn all_tags(&self) -> (r: Vec<String>)
        requires
            self.wf(),
        ensures
            tags_exactly(self@.items, strings_view(r@)),
            strings_view(r@) == doc_tags(self@.items),
    {
        let mut out: Vec<String> = Vec::new();
        let mut n: usize = 0;
        while n < self.items.len()
            invariant
                n <= self.items.len(),
                strictly_sorted(strings_view(out@), lex_order()),
                forall|x: Seq<char>| strings_view(out@).contains(x) <==> tag_seen(self.items@, n as int, 0, x),
            decreases self.items.len() - n,
        {
            let it = &self.items[n];
            let mut j: usize = 0;
            while j < it.tags.len()
                invariant
                    j <= it.tags.len(),
                    n < self.items.len(),
                    it == &self.items@[n as int],
                    strictly_sorted(strings_view(out@), lex_order()),
                    forall|x: Seq<char>| strings_view(out@).contains(x) <==> tag_seen(self.items@, n as int, j as int, x),
                decreases it.tags.len() - j,
            {
                let ghost before = strings_view(out@);
                insert_tag(&mut out, &it.tags[j]);
                proof {
                    assert forall|x: Seq<char>| strings_view(out@).contains(x) <==> tag_seen(self.items@, n as int, j + 1, x) by {
                        if x == it.tags@[j as int]@ {
                            assert(tag_seen(self.items@, n as int, j + 1, x));
                        }
                        if tag_seen(self.items@, n as int, j + 1, x) && !tag_seen(self.items@, n as int, j as int, x) {
                            let k = choose|k: int| 0 <= k < j + 1 && (#[trigger] self.items@[n as int].tags@[k])@ == x;
                            assert(k == j);
                        }
                    }
                }
                j = j + 1;
            }
            proof {
                assert forall|x: Seq<char>| strings_view(out@).contains(x) <==> tag_seen(self.items@, n + 1, 0, x) by {
                    let tv = strings_view(it.tags@);
                    if tag_seen(self.items@, n as int, it.tags.len() as int, x) {
                        if exists|k: int| 0 <= k < it.tags.len() && (#[trigger] it.tags@[k])@ == x {
                            let k = choose|k: int| 0 <= k < it.tags.len() && (#[trigger] it.tags@[k])@ == x;
                            assert(tv[k] == x);
                            assert(strings_view(self.items@[n as int].tags@).contains(x));
                        } else {
                            let q = choose|q: int| 0 <= q < n && #[trigger] strings_view(self.items@[q].tags@).contains(x);
                        }
                    }
                    if tag_seen(self.items@, n + 1, 0, x) {
                        let q = choose|q: int| 0 <= q < n + 1 && #[trigger] strings_view(self.items@[q].tags@).contains(x);
                        if q == n {
                            let k = choose|k: int| 0 <= k < tv.len() && tv[k] == x;
                            assert(it.tags@[k]@ == x);
                        }
                    }
                }
            }
            n = n + 1;
        }
        proof {
            let m = self@.items;
            let items = self.items@;
            assert forall|x: Seq<char>| strings_view(out@).contains(x) <==> tag_in_doc(m, x) by {
                if tag_seen(items, items.len() as int, 0, x) {
                    let q = choose|q: int| 0 <= q < items.len() && #[trigger] strings_view(items[q].tags@).contains(x);
                    lemma_item_map_entry(items, q);
                    assert(m.contains_key(items[q].id@));
                }
                if tag_in_doc(m, x) {
                    let id = choose|id: Seq<char>| #[trigger] m.contains_key(id) && m[id].tags.contains(x);
                    lemma_item_map_key(items, id);
                    let q = choose|q: int| 0 <= q < items.len() && (#[trigger] items[q]).id@ == id;
                    lemma_item_map_entry(items, q);
                    assert(strings_view(items[q].tags@).contains(x));
                }
            }
            lemma_tags_unique(m, doc_tags(m), strings_view(out@));
        }
        out
    }
}

/// Two sequences that each hold exactly the tags of `m`, sorted, are equal.
pub proof fn lemma_tags_unique(m: Map<Seq<char>, ItemRec>, r1: Seq<Seq<char>>, r2: Seq<Seq<char>>)
    requires
        tags_exactly(m, r2),
        r1 == doc_tags(m) || tags_exactly(m, r1),
    ensures
        r1 == r2,
{
    assert(tags_exactly(m, r2));
    assert(tags_exactly(m, r1));
    assert forall|x: Seq<char>| !(#[trigger] lex_order()(x, x)) by {
        lemma_lex_lt_irreflexive(x);
    }
    assert forall|x: Seq<char>, y: Seq<char>| #[trigger] lex_order()(x, y) implies !lex_order()(y, x) by {
        lemma_lex_lt_trichotomy(x, y);
    }
    crate::sorting::lemma_sorted_unique(r1, r2, lex_order());
}

// ---------------------------------------------------------------------------
// Positions
// ---------------------------------------------------------------------------

/// One whole step (two half steps) after `p`, kept within `i64`.
pub open spec fn step_after(p: int) -> int {
    if p + 2 > i64::MAX {
        i64::MAX as int
    } else {
        p + 2
    }
}

/// `r` is one step after the greatest position among the items of `m`
/// whose list is `l`, or 0 where there is none.
pub open spec fn next_item_position(m: Map<Seq<char>, ItemRec>, l: Option<Seq<char>>, r: int) -> bool {
    if exists|id: Seq<char>| #[trigger] m.contains_key(id) && m[id].list_id == l {
        exists|id: Seq<char>|
            #[trigger] m.contains_key(id) && m[id].list_id == l && r == step_after(m[id].position) && forall|id2: Seq<char>|
                #[trigger] m.contains_key(id2) && m[id2].list_id == l ==> m[id2].position <= m[id].position
    } else {
        r == 0
    }
}

/// An item added at the next position of its list goes after every item
/// already in that list, as long as positions have not reached the top of
/// `i64`.
pub proof fn law_next_position_above(m: Map<Seq<char>, ItemRec>, l: Option<Seq<char>>, r: int, id: Seq<char>)
    requires
        next_item_position(m, l, r),
        m.contains_key(id),
        m[id].list_id == l,
        r < i64::MAX,
    ensures
        m[id].position < r,
{
    let w = choose|w: Seq<char>|
        #[trigger] m.contains_key(w) && m[w].list_id == l && r == step_after(m[w].position) && forall|id2: Seq<char>|
            #[trigger] m.contains_key(id2) && m[id2].list_id == l ==> m[id2].position <= m[w].position;
    assert(m[id].position <= m[w].position);
}

/// `r` is one step after the greatest position among the lists of `m`, or 0
/// where there is no list.
pub open spec fn next_list_pos(m: Map<Seq<char>, ListRec>, r: int) -> bool {
    if exists|id: Seq<char>| #[trigger] m.contains_key(id) {
        exists|id: Seq<char>|
            #[trigger] m.contains_key(id) && r == step_after(m[id].position) && forall|id2: Seq<char>|
                #[trigger] m.contains_key(id2) ==> m[id2].position <= m[id].position
    } else {
        r == 0
    }
}

fn same_list(a: &Option<String>, b: &Option<String>) -> (r: bool)
    ensures
        r == (opt_view(*a) == opt_view(*b)),
{
    match (a, b) {
        (Some(x), Some(y)) => crate::text::str_eq(x.as_str(), y.as_str()),
        (None, None) => true,
        _ => false,
    }
}

fn bump(p: i64) -> (r: i64)
    ensures
        r == step_after(p as int),
{
    if p > i64::MAX - 2 {
        i64::MAX
    } else {
        p + 2
    }
}

impl CrdtDocument {
    /// Where an item added at the end of the items with list `l` goes.
    pub fn next_position_in(&self, l: &Option<String>) -> (r: i64)
        requires
            self.wf(),
        ensures
            next_item_position(self@.items, opt_view(*l), r as int),
            r == next_pos_of(self@.items, opt_view(*l)),
    {
        let mut best: Option<usize> = None;
        let mut n: usize = 0;
        while n < self.items.len()
            invariant
                n <= self.items.len(),
                match best {
                    Some(b) => b < n && opt_view(self.items@[b as int].list_id) == opt_view(*l) && forall|q: int|
                        0 <= q < n && opt_view((#[trigger] self.items@[q]).list_id) == opt_view(*l) ==> self.items@[q].position <= self.items@[b as int].position,
                    None => forall|q: int| 0 <= q < n ==> opt_view((#[trigger] self.items@[q]).list_id) != opt_view(*l),
                },
            decreases self.items.len() - n,
        {
            if same_list(&self.items[n].list_id, l) {
                match best {
                    Some(b) => {
                        if self.items[n].position > self.items[b].position {
                            best = Some(n);
                        }
                    },
                    None => {
                        best = Some(n);
                    },
                }
            }
            n = n + 1;
        }
        let ghost m = self@.items;
        let ghost items = self.items@;
        match best {
            Some(b) => {
                proof {
                    lemma_item_map_entry(items, b as int);
                    let id = items[b as int].id@;
                    assert forall|id2: Seq<char>| #[trigger] m.contains_key(id2) && m[id2].list_id == opt_view(*l) implies m[id2].position <= m[id].position by {
                        lemma_item_map_key(items, id2);
                        let q = choose|q: int| 0 <= q < items.len() && (#[trigger] items[q]).id@ == id2;
                        lemma_item_map_entry(items, q);
                    }
                    assert(m.contains_key(id) && m[id].list_id == opt_view(*l));
                    lemma_next_pos_unique(m, opt_view(*l), step_after(self.items@[b as int].position as int));
                }
                bump(self.items[b].position)
            },
            None => {
                proof {
                    assert forall|id: Seq<char>| #[trigger] m.contains_key(id) implies m[id].list_id != opt_view(*l) by {
                        lemma_item_map_key(items, id);
                        let q = choose|q: int| 0 <= q < items.len() && (#[trigger] items[q]).id@ == id;
                        lemma_item_map_entry(items, q);
                    }
                    lemma_next_pos_unique(m, opt_view(*l), 0);
                }
                0
            },
        }
    }

    /// Where an item added at the end of a list goes.
    pub fn next_position_for_list(&self, list_id: &str) -> (r: i64)
        requires
            self.wf(),
        ensures
            next_item_position(self@.items, Some(list_id@), r as int),
            r == next_pos_of(self@.items, Some(list_id@)),
    {
        self.next_position_in(&Some(list_id.to_owned()))
    }

    /// Where an item added at the end of the items without a list goes.
    pub fn next_position_unassigned(&self) -> (r: i64)
        requires
            self.wf(),
        ensures
            next_item_position(self@.items, None, r as int),
            r == next_pos_of(self@.items, None),
    {
        self.next_position_in(&None)
    }

    /// Where a list added after all others goes.
    pub fn next_list_position(&self) -> (r: i64)
        requires
            self.wf(),
        ensures
            next_list_pos(self@.lists, r as int),
            r == next_list_pos_of(self@.lists),
    {
        let mut best: Option<usize> = None;
        let mut n: usize = 0;
        while n < self.lists.len()
            invariant
                n <= self.lists.len(),
                match best {
                    Some(b) => b < n && forall|q: int| 0 <= q < n ==> (#[trigger] self.lists@[q]).position <= self.lists@[b as int].position,
                    None => n == 0,
                },
            decreases self.lists.len() - n,
        {
            match best {
                Some(b) => {
                    if self.lists[n].position > self.lists[b].position {
                        best = Some(n);
                    }
                },
                None => {
                    best = Some(n);
                },
            }
            n = n + 1;
        }
        let ghost m = self@.lists;
        let ghost ls = self.lists@;
        match best {
            Some(b) => {
                proof {
                    crate::crdt::lemma_list_map_entry(ls, b as int);
                    let id = ls[b as int].id@;
                    assert forall|id2: Seq<char>| #[trigger] m.contains_key(id2) implies m[id2].position <= m[id].position by {
                        crate::crdt::lemma_list_map_key(ls, id2);
                        let q = choose|q: int| 0 <= q < ls.len() && (#[trigger] ls[q]).id@ == id2;
                        crate::crdt::lemma_list_map_entry(ls, q);
                    }
                    assert(m.contains_key(id));
                    lemma_next_list_pos_unique(m, step_after(self.lists@[b as int].position as int));
                }
                bump(self.lists[b].position)
            },
            None => {
                proof {
                    assert forall|id: Seq<char>| !#[trigger] m.contains_key(id) by {
                        if m.contains_key(id) {
                            crate::crdt::lemma_list_map_key(ls, id);
                        }
                    }
                    lemma_next_list_pos_unique(m, 0);
                }
                0
            },
        }
    }
}

} // verus!

verus! {

// ---------------------------------------------------------------------------
// Fresh ids
// ---------------------------------------------------------------------------

/// A lowercase hexadecimal digit.
pub open spec fn is_lower_hex(c: char) -> bool {
    ('0' <= c && c <= '9') || ('a' <= c && c <= 'f')
}

/// The hyphenated form of a UUID: 36 characters, hyphens at 8, 13, 18 and
/// 23, lowercase hexadecimal digits elsewhere.
pub open spec fn hyphenated_uuid(s: Seq<char>) -> bool {
    &&& s.len() == 36
    &&& forall|i: int| 0 <= i < 36 ==> if i == 8 || i == 13 || i == 18 || i == 23 {
        #[trigger] s[i] == '-'
    } else {
        is_lower_hex(s[i])
    }
}

/// Calls `uuid::Uuid::new_v4` and formats it with `to_string`: a random
/// version 4 UUID in its hyphenated lowercase form (`Display` goes through
/// `LowerHex` of the hyphenated form, which puts hyphens after 8, 12, 16 and
/// 20 hex digits). Which digits it holds rests on chance and is not stated.
#[verifier::external_body]
pub fn new_id() -> (r: String)
    ensures
        r@.len() == 36,
        hyphenated_uuid(r@),
{
    uuid::Uuid::new_v4().to_string()
}

// ---------------------------------------------------------------------------
// Copies
// ---------------------------------------------------------------------------

fn copy_strings(v: &Vec<String>) -> (r: Vec<String>)
    ensures
        strings_view(r@) == strings_view(v@),
{
    let mut r: Vec<String> = Vec::new();
    let mut i: usize = 0;
    while i < v.len()
        invariant
            i <= v.len(),
            r@.len() == i,
            forall|k: int| 0 <= k < i ==> (#[trigger] r@[k])@ == v@[k]@,
        decreases v.len() - i,
    {
        r.push(v[i].clone());
        i = i + 1;
    }
    assert(strings_view(r@) =~= strings_view(v@));
    r
}

fn copy_opt(o: &Option<String>) -> (r: Option<String>)
    ensures
        opt_view(r) == opt_view(*o),
{
    match o {
        Some(s) => Some(s.clone()),
        None => None,
    }
}

impl CrdtItem {
    /// A copy with the same value.
    pub fn copy(&self) -> (r: CrdtItem)
        ensures
            r@ == self@,
    {
        CrdtItem {
            id: self.id.clone(),
            title: self.title.clone(),
            done: self.done,
            tags: copy_strings(&self.tags),
            time_secs: self.time_secs,
            list_id: copy_opt(&self.list_id),
            position: self.position,
            archived: self.archived,
        }
    }
}

impl CrdtList {
    /// A copy with the same value.
    pub fn copy(&self) -> (r: CrdtList)
        ensures
            r@ == self@,
    {
        CrdtList {
            id: self.id.clone(),
            name: self.name.clone(),
            list_type: self.list_type.clone(),
            last_reset: copy_opt(&self.last_reset),
            position: self.position,
        }
    }
}

proof fn lemma_item_map_same(a: Seq<CrdtItem>, b: Seq<CrdtItem>)
    requires
        a.len() == b.len(),
        forall|i: int| 0 <= i < a.len() ==> (#[trigger] a[i])@ == b[i]@,
    ensures
        item_map(a) == item_map(b),
        item_ids_unique(a) == item_ids_unique(b),
    decreases a.len(),
{
    if a.len() > 0 {
        assert forall|i: int| 0 <= i < a.len() - 1 implies (#[trigger] a.drop_last()[i])@ == b.drop_last()[i]@ by {
            assert(a.drop_last()[i] == a[i] && b.drop_last()[i] == b[i]);
        }
        lemma_item_map_same(a.drop_last(), b.drop_last());
        assert(a.last()@ == b.last()@);
    }
    assert(item_ids_unique(a) == item_ids_unique(b)) by {
        if item_ids_unique(a) {
            assert forall|i: int, j: int| 0 <= i < j < b.len() implies (#[trigger] b[i]).id@ != (#[trigger] b[j]).id@ by {
                assert(a[i]@ == b[i]@ && a[j]@ == b[j]@);
            }
        }
        if item_ids_unique(b) {
            assert forall|i: int, j: int| 0 <= i < j < a.len() implies (#[trigger] a[i]).id@ != (#[trigger] a[j]).id@ by {
                assert(a[i]@ == b[i]@ && a[j]@ == b[j]@);
            }
        }
    }
}

proof fn lemma_list_map_same(a: Seq<CrdtList>, b: Seq<CrdtList>)
    requires
        a.len() == b.len(),
        forall|i: int| 0 <= i < a.len() ==> (#[trigger] a[i])@ == b[i]@,
    ensures
        list_map(a) == list_map(b),
        list_ids_unique(a) == list_ids_unique(b),
    decreases a.len(),
{
    if a.len() > 0 {
        assert forall|i: int| 0 <= i < a.len() - 1 implies (#[trigger] a.drop_last()[i])@ == b.drop_last()[i]@ by {
            assert(a.drop_last()[i] == a[i] && b.drop_last()[i] == b[i]);
        }
        lemma_list_map_same(a.drop_last(), b.drop_last());
        assert(a.last()@ == b.last()@);
    }
    assert(list_ids_unique(a) == list_ids_unique(b)) by {
        if list_ids_unique(a) {
            assert forall|i: int, j: int| 0 <= i < j < b.len() implies (#[trigger] b[i]).id@ != (#[trigger] b[j]).id@ by {
                assert(a[i]@ == b[i]@ && a[j]@ == b[j]@);
            }
        }
        if list_ids_unique(b) {
            assert forall|i: int, j: int| 0 <= i < j < a.len() implies (#[trigger] a[i]).id@ != (#[trigger] a[j]).id@ by {
                assert(a[i]@ == b[i]@ && a[j]@ == b[j]@);
            }
        }
    }
}

impl CrdtDocument {
    /// A copy with the same value.
    pub fn copy(&self) -> (r: CrdtDocument)
        ensures
            r@ == self@,
            r.wf() == self.wf(),
    {
        let mut items: Vec<CrdtItem> = Vec::new();
        let mut i: usize = 0;
        while i < self.items.len()
            invariant
                i <= self.items.len(),
                items@.len() == i,
                forall|k: int| 0 <= k < i ==> (#[trigger] items@[k])@ == self.items@[k]@,
            decreases self.items.len() - i,
        {
            items.push(self.items[i].copy());
            i = i + 1;
        }
        let mut lists: Vec<CrdtList> = Vec::new();
        let mut j: usize = 0;
        while j < self.lists.len()
            invariant
                j <= self.lists.len(),
                lists@.len() == j,
                forall|k: int| 0 <= k < j ==> (#[trigger] lists@[k])@ == self.lists@[k]@,
            decreases self.lists.len() - j,
        {
            lists.push(self.lists[j].copy());
            j = j + 1;
        }
        proof {
            lemma_item_map_same(items@, self.items@);
            lemma_list_map_same(lists@, self.lists@);
        }
        CrdtDocument { items, lists }
    }
}

// ---------------------------------------------------------------------------
// Migration from Markdown lists
// ---------------------------------------------------------------------------

/// How a list type is written in the document.
pub open spec fn list_type_name(t: ListType) -> Seq<char> {
    match t {
        ListType::Normal => "normal"@,
        ListType::Daily => "daily"@,
    }
}

/// The record that list `i` of a migration becomes.
pub open spec fn migrated_list(l: ListV, id: Seq<char>, i: int) -> ListRec {
    ListRec { id, name: l.name, list_type: list_type_name(l.list_type), last_reset: l.last_reset, position: 2 * i }
}

/// The record that item `j` of a list with id `lid` becomes.
pub open spec fn migrated_item(it: ItemV, id: Seq<char>, lid: Seq<char>, j: int) -> ItemRec {
    ItemRec {
        id,
        title: it.title,
        done: it.done,
        tags: it.tags,
        time_secs: it.time_secs,
        list_id: Some(lid),
        position: 2 * j,
        archived: false,
    }
}

/// The first `n` lists put one after the other, under their ids.
pub open spec fn migrated_lists(ls: Seq<ListV>, lids: Seq<Seq<char>>, n: int) -> Map<Seq<char>, ListRec>
    decreases n,
{
    if n <= 0 {
        Map::empty()
    } else {
        migrated_lists(ls, lids, n - 1).insert(lids[n - 1], migrated_list(ls[n - 1], lids[n - 1], n - 1))
    }
}

/// `base` with the first `j` items of list `l` put one after the other.
pub open spec fn migrated_items_of(
    base: Map<Seq<char>, ItemRec>,
    l: ListV,
    lid: Seq<char>,
    ids: Seq<Seq<char>>,
    j: int,
) -> Map<Seq<char>, ItemRec>
    decreases j,
{
    if j <= 0 {
        base
    } else {
        migrated_items_of(base, l, lid, ids, j - 1).insert(ids[j - 1], migrated_item(l.items[j - 1], ids[j - 1], lid, j - 1))
    }
}

/// The items of the first `n` lists put one after the other, under their
/// ids.
pub open spec fn migrated_items(ls: Seq<ListV>, lids: Seq<Seq<char>>, iids: Seq<Seq<Seq<char>>>, n: int) -> Map<Seq<char>, ItemRec>
    decreases n,
{
    if n <= 0 {
        Map::empty()
    } else {
        migrated_items_of(migrated_items(ls, lids, iids, n - 1), ls[n - 1], lids[n - 1], iids[n - 1], ls[n - 1].items.len() as int)
    }
}

pub open spec fn lists_view(ls: Seq<TodoList>) -> Seq<ListV> {
    ls.map_values(|l: TodoList| l@)
}

pub open spec fn id_rows_view(v: Seq<Vec<String>>) -> Seq<Seq<Seq<char>>> {
    v.map_values(|r: Vec<String>| strings_view(r@))
}

/// The ids fit the lists: one per list, and one per item of each list.
pub open spec fn ids_fit(ls: Seq<TodoList>, lids: Seq<String>, iids: Seq<Vec<String>>) -> bool {
    &&& lids.len() == ls.len()
    &&& iids.len() == ls.len()
    &&& forall|i: int| 0 <= i < ls.len() ==> (#[trigger] iids[i])@.len() == ls[i].items@.len()
}

/// The document that the lists become under the given ids: list `i` at
/// position `i`, item `j` of a list at position `j` in it (in whole steps);
/// a later record replaces an earlier one with the same id.
pub open spec fn migration(ls: Seq<TodoList>, lids: Seq<String>, iids: Seq<Vec<String>>) -> DocV {
    DocV {
        items: migrated_items(lists_view(ls), strings_view(lids), id_rows_view(iids), ls.len() as int),
        lists: migrated_lists(lists_view(ls), strings_view(lids), ls.len() as int),
    }
}

fn list_type_text(t: ListType) -> (r: String)
    ensures
        r@ == list_type_name(t),
{
    match t {
        ListType::Normal => {
            let s = "normal";
            proof {
                reveal_strlit("normal");
            }
            s.to_owned()
        },
        ListType::Daily => {
            let s = "daily";
            proof {
                reveal_strlit("daily");
            }
            s.to_owned()
        },
    }
}

/// The document that Markdown lists become, given an id for each list and
/// for each item.
pub fn migrate_from_lists_with_ids(lists: &[TodoList], list_ids: &Vec<String>, item_ids: &Vec<Vec<String>>) -> (r: CrdtDocument)
    requires
        ids_fit(lists@, list_ids@, item_ids@),
        lists@.len() < 0x4000_0000_0000_0000,
        forall|i: int| 0 <= i < lists@.len() ==> (#[trigger] lists@[i]).items@.len() < 0x4000_0000_0000_0000,
    ensures
        r.wf(),
        r@ == migration(lists@, list_ids@, item_ids@),
{
    let mut doc = CrdtDocument::new();
    let ghost ls = lists_view(lists@);
    let ghost lids = strings_view(list_ids@);
    let ghost iids = id_rows_view(item_ids@);
    let mut i: usize = 0;
    while i < lists.len()
        invariant
            i <= lists.len(),
            ids_fit(lists@, list_ids@, item_ids@),
            lists@.len() < 0x4000_0000_0000_0000,
            forall|k: int| 0 <= k < lists@.len() ==> (#[trigger] lists@[k]).items@.len() < 0x4000_0000_0000_0000,
            ls == lists_view(lists@),
            lids == strings_view(list_ids@),
            iids == id_rows_view(item_ids@),
            doc.wf(),
            doc@.lists == migrated_lists(ls, lids, i as int),
            doc@.items == migrated_items(ls, lids, iids, i as int),
        decreases lists.len() - i,
    {
        let list = &lists[i];
        let lid = &list_ids[i];
        let pos: i64 = (i as i64) * 2;
        let rec = CrdtList {
            id: lid.clone(),
            name: list.name.clone(),
            list_type: list_type_text(list.list_type),
            last_reset: copy_opt(&list.last_reset),
            position: pos,
        };
        assert(rec@ == migrated_list(ls[i as int], lids[i as int], i as int));
        list_put(&mut doc.lists, rec);
        let ghost base = doc@.items;
        let ids = &item_ids[i];
        let mut j: usize = 0;
        while j < list.items.len()
            invariant
                j <= list.items.len(),
                i < lists.len(),
                ids_fit(lists@, list_ids@, item_ids@),
                list == &lists@[i as int],
                lid == &list_ids@[i as int],
                ids == &item_ids@[i as int],
                ids@.len() == list.items@.len(),
                list.items@.len() < 0x4000_0000_0000_0000,
                ls == lists_view(lists@),
                lids == strings_view(list_ids@),
                iids == id_rows_view(item_ids@),
                doc.wf(),
                doc@.lists == migrated_lists(ls, lids, i + 1),
                doc@.items == migrated_items_of(base, ls[i as int], lids[i as int], iids[i as int], j as int),
            decreases list.items.len() - j,
        {
            let it = &list.items[j];
            let ipos: i64 = (j as i64) * 2;
            let rec = CrdtItem {
                id: ids[j].clone(),
                title: it.title.clone(),
                done: it.done,
                tags: copy_strings(&it.tags),
                time_secs: it.time_secs,
                list_id: Some(lid.clone()),
                position: ipos,
                archived: false,
            };
            assert(iids[i as int] == strings_view(item_ids@[i as int]@));
            assert(iids[i as int][j as int] == ids@[j as int]@);
            assert(lids[i as int] == lid@);
            assert(it.tags@ == list.items@[j as int].tags@);
            assert(ls[i as int].items[j as int] == it@);
            assert(rec@ == migrated_item(ls[i as int].items[j as int], iids[i as int][j as int], lids[i as int], j as int));
            item_put(&mut doc.items, rec);
            j = j + 1;
        }
        assert(ls[i as int].items.len() == list.items@.len());
        i = i + 1;
    }
    doc
}

/// The document that Markdown lists become, each list and item under a
/// fresh id.
pub fn migrate_from_lists(lists: &[TodoList]) -> (r: CrdtDocument)
    requires
        lists@.len() < 0x4000_0000_0000_0000,
        forall|i: int| 0 <= i < lists@.len() ==> (#[trigger] lists@[i]).items@.len() < 0x4000_0000_0000_0000,
    ensures
        r.wf(),
        exists|lids: Seq<String>, iids: Seq<Vec<String>>| ids_fit(lists@, lids, iids) && r@ == migration(lists@, lids, iids),
{
    let mut list_ids: Vec<String> = Vec::new();
    let mut item_ids: Vec<Vec<String>> = Vec::new();
    let mut i: usize = 0;
    while i < lists.len()
        invariant
            i <= lists.len(),
            list_ids@.len() == i,
            item_ids@.len() == i,
            forall|k: int| 0 <= k < i ==> (#[trigger] item_ids@[k])@.len() == lists@[k].items@.len(),
        decreases lists.len() - i,
    {
        list_ids.push(new_id());
        let mut row: Vec<String> = Vec::new();
        let mut j: usize = 0;
        while j < lists[i].items.len()
            invariant
                j <= lists@[i as int].items@.len(),
                i < lists.len(),
                row@.len() == j,
            decreases lists@[i as int].items@.len() - j,
        {
            row.push(new_id());
            j = j + 1;
        }
        item_ids.push(row);
        i = i + 1;
    }
    migrate_from_lists_with_ids(lists, &list_ids, &item_ids)
}

} // verus!

verus! {

// ---------------------------------------------------------------------------
// What a migration keeps of the order
// ---------------------------------------------------------------------------

/// No id occurs twice.
pub open spec fn ids_distinct(ids: Seq<Seq<char>>) -> bool {
    forall|a: int, b: int| 0 <= a < b < ids.len() ==> #[trigger] ids[a] != #[trigger] ids[b]
}

/// No item id occurs twice, within a list or across lists.
pub open spec fn item_ids_distinct(iids: Seq<Seq<Seq<char>>>) -> bool {
    forall|a: int, b: int, c: int, d: int|
        0 <= a < iids.len() && 0 <= b < iids[a].len() && 0 <= c < iids.len() && 0 <= d < iids[c].len() && (a != c || b != d)
            ==> #[trigger] iids[a][b] != #[trigger] iids[c][d]
}

/// The records of the lists, in their order.
pub open spec fn migrated_list_seq(ls: Seq<ListV>, lids: Seq<Seq<char>>) -> Seq<ListRec> {
    Seq::new(ls.len(), |i: int| migrated_list(ls[i], lids[i], i))
}

/// The records of the items of list `l`, in their order.
pub open spec fn migrated_item_seq(l: ListV, lid: Seq<char>, ids: Seq<Seq<char>>) -> Seq<ItemRec> {
    Seq::new(l.items.len(), |j: int| migrated_item(l.items[j], ids[j], lid, j))
}

proof fn lemma_migrated_lists(ls: Seq<ListV>, lids: Seq<Seq<char>>, n: int)
    requires
        0 <= n <= ls.len(),
        lids.len() == ls.len(),
        ids_distinct(lids),
    ensures
        forall|k: Seq<char>| #[trigger] migrated_lists(ls, lids, n).contains_key(k) <==> exists|i: int| 0 <= i < n && lids[i] == k,
        forall|i: int| 0 <= i < n ==> migrated_lists(ls, lids, n)[#[trigger] lids[i]] == migrated_list(ls[i], lids[i], i),
    decreases n,
{
    if n > 0 {
        lemma_migrated_lists(ls, lids, n - 1);
        let m = migrated_lists(ls, lids, n);
        assert forall|k: Seq<char>| #[trigger] m.contains_key(k) <==> exists|i: int| 0 <= i < n && lids[i] == k by {
            if m.contains_key(k) && k != lids[n - 1] {
                let i = choose|i: int| 0 <= i < n - 1 && lids[i] == k;
            }
            if exists|i: int| 0 <= i < n && lids[i] == k {
                let i = choose|i: int| 0 <= i < n && lids[i] == k;
                if i < n - 1 {
                    assert(migrated_lists(ls, lids, n - 1).contains_key(k));
                }
            }
        }
        assert forall|i: int| 0 <= i < n implies m[#[trigger] lids[i]] == migrated_list(ls[i], lids[i], i) by {
            if i < n - 1 {
                assert(lids[i] != lids[n - 1]);
            }
        }
    }
}

proof fn lemma_migrated_items_of(
    base: Map<Seq<char>, ItemRec>,
    l: ListV,
    lid: Seq<char>,
    ids: Seq<Seq<char>>,
    j: int,
)
    requires
        0 <= j <= ids.len(),
        ids.len() == l.items.len(),
        ids_distinct(ids),
    ensures
        forall|k: Seq<char>| #[trigger] migrated_items_of(base, l, lid, ids, j).contains_key(k) <==> (base.contains_key(k) || exists|q: int| 0 <= q < j && ids[q] == k),
        forall|q: int| 0 <= q < j ==> migrated_items_of(base, l, lid, ids, j)[#[trigger] ids[q]] == migrated_item(l.items[q], ids[q], lid, q),
        forall|k: Seq<char>| #[trigger] base.contains_key(k) && (forall|q: int| 0 <= q < j ==> ids[q] != k)
            ==> migrated_items_of(base, l, lid, ids, j)[k] == base[k],
    decreases j,
{
    if j > 0 {
        lemma_migrated_items_of(base, l, lid, ids, j - 1);
        let m = migrated_items_of(base, l, lid, ids, j);
        let m0 = migrated_items_of(base, l, lid, ids, j - 1);
        assert forall|k: Seq<char>| #[trigger] m.contains_key(k) <==> (base.contains_key(k) || exists|q: int| 0 <= q < j && ids[q] == k) by {
            if m.contains_key(k) && k != ids[j - 1] && !base.contains_key(k) {
                assert(m0.contains_key(k));
                let q = choose|q: int| 0 <= q < j - 1 && ids[q] == k;
            }
            if exists|q: int| 0 <= q < j && ids[q] == k {
                let q = choose|q: int| 0 <= q < j && ids[q] == k;
                if q < j - 1 {
                    assert(m0.contains_key(k));
                }
            }
        }
        assert forall|q: int| 0 <= q < j implies m[#[trigger] ids[q]] == migrated_item(l.items[q], ids[q], lid, q) by {
            if q < j - 1 {
                assert(ids[q] != ids[j - 1]);
            }
        }
        assert forall|k: Seq<char>| #[trigger] base.contains_key(k) && (forall|q: int| 0 <= q < j ==> ids[q] != k) implies m[k] == base[k] by {
            assert(ids[j - 1] != k);
            assert forall|q: int| 0 <= q < j - 1 implies ids[q] != k by {
                assert(ids[q] != k);
            }
        }
    }
}

proof fn lemma_row_distinct(iids: Seq<Seq<Seq<char>>>, a: int)
    requires
        item_ids_distinct(iids),
        0 <= a < iids.len(),
    ensures
        ids_distinct(iids[a]),
{
    assert forall|b: int, d: int| 0 <= b < d < iids[a].len() implies #[trigger] iids[a][b] != #[trigger] iids[a][d] by {}
}

proof fn lemma_migrated_items(ls: Seq<ListV>, lids: Seq<Seq<char>>, iids: Seq<Seq<Seq<char>>>, n: int)
    requires
        0 <= n <= ls.len(),
        lids.len() == ls.len(),
        iids.len() == ls.len(),
        forall|i: int| 0 <= i < ls.len() ==> (#[trigger] iids[i]).len() == ls[i].items.len(),
        item_ids_distinct(iids),
    ensures
        forall|k: Seq<char>| #[trigger] migrated_items(ls, lids, iids, n).contains_key(k)
            <==> exists|i: int, q: int| 0 <= i < n && 0 <= q < iids[i].len() && iids[i][q] == k,
        forall|i: int, q: int| 0 <= i < n && 0 <= q < iids[i].len()
            ==> migrated_items(ls, lids, iids, n)[#[trigger] iids[i][q]] == migrated_item(ls[i].items[q], iids[i][q], lids[i], q),
    decreases n,
{
    if n > 0 {
        lemma_migrated_items(ls, lids, iids, n - 1);
        let base = migrated_items(ls, lids, iids, n - 1);
        let row = iids[n - 1];
        lemma_row_distinct(iids, n - 1);
        lemma_migrated_items_of(base, ls[n - 1], lids[n - 1], row, row.len() as int);
        let m = migrated_items(ls, lids, iids, n);
        assert(m == migrated_items_of(base, ls[n - 1], lids[n - 1], row, row.len() as int));
        assert forall|k: Seq<char>| #[trigger] m.contains_key(k)
            <==> exists|i: int, q: int| 0 <= i < n && 0 <= q < iids[i].len() && iids[i][q] == k by {
            if m.contains_key(k) {
                if !base.contains_key(k) {
                    let q = choose|q: int| 0 <= q < row.len() && row[q] == k;
                    assert(iids[n - 1][q] == k);
                } else {
                    let (i, q) = choose|i: int, q: int| 0 <= i < n - 1 && 0 <= q < iids[i].len() && iids[i][q] == k;
                    assert(iids[i][q] == k);
                }
            }
            if exists|i: int, q: int| 0 <= i < n && 0 <= q < iids[i].len() && iids[i][q] == k {
                let (i, q) = choose|i: int, q: int| 0 <= i < n && 0 <= q < iids[i].len() && iids[i][q] == k;
                if i < n - 1 {
                    assert(base.contains_key(k));
                } else {
                    assert(row[q] == k);
                }
            }
        }
        assert forall|i: int, q: int| 0 <= i < n && 0 <= q < iids[i].len()
            implies m[#[trigger] iids[i][q]] == migrated_item(ls[i].items[q], iids[i][q], lids[i], q) by {
            if i < n - 1 {
                let k = iids[i][q];
                assert(base.contains_key(k));
                assert forall|r: int| 0 <= r < row.len() implies row[r] != k by {
                    assert(iids[n - 1][r] != iids[i][q]);
                }
            } else {
                assert(row[q] == iids[i][q]);
            }
        }
    }
}

/// The number of items of the first `n` lists.
pub open spec fn item_total(ls: Seq<ListV>, n: int) -> nat
    decreases n,
{
    if n <= 0 {
        0
    } else {
        item_total(ls, n - 1) + ls[n - 1].items.len()
    }
}

proof fn lemma_migrated_items_of_len(
    base: Map<Seq<char>, ItemRec>,
    l: ListV,
    lid: Seq<char>,
    ids: Seq<Seq<char>>,
    j: int,
)
    requires
        base.dom().finite(),
        0 <= j <= ids.len(),
        ids_distinct(ids),
        forall|q: int| 0 <= q < ids.len() ==> !base.contains_key(#[trigger] ids[q]),
    ensures
        migrated_items_of(base, l, lid, ids, j).dom().finite(),
        migrated_items_of(base, l, lid, ids, j).dom().len() == base.dom().len() + j,
        forall|k: Seq<char>| #[trigger] migrated_items_of(base, l, lid, ids, j).contains_key(k) <==> (base.contains_key(k) || exists|q: int| 0 <= q < j && ids[q] == k),
    decreases j,
{
    if j > 0 {
        lemma_migrated_items_of_len(base, l, lid, ids, j - 1);
        let m0 = migrated_items_of(base, l, lid, ids, j - 1);
        let m = migrated_items_of(base, l, lid, ids, j);
        if m0.contains_key(ids[j - 1]) {
            let x = ids[j - 1];
            assert(!base.contains_key(x));
            let q = choose|q: int| 0 <= q < j - 1 && #[trigger] ids[q] == x;
            assert(ids[q] != ids[j - 1]);
        }
        assert(m.dom() == m0.dom().insert(ids[j - 1]));
        assert forall|k: Seq<char>| #[trigger] m.contains_key(k) <==> (base.contains_key(k) || exists|q: int| 0 <= q < j && ids[q] == k) by {
            if k != ids[j - 1] && exists|q: int| 0 <= q < j && ids[q] == k {
                let q = choose|q: int| 0 <= q < j && ids[q] == k;
                assert(q < j - 1);
            }
        }
    }
}

proof fn lemma_migrated_items_len(ls: Seq<ListV>, lids: Seq<Seq<char>>, iids: Seq<Seq<Seq<char>>>, n: int)
    requires
        0 <= n <= ls.len(),
        lids.len() == ls.len(),
        iids.len() == ls.len(),
        forall|i: int| 0 <= i < ls.len() ==> (#[trigger] iids[i]).len() == ls[i].items.len(),
        item_ids_distinct(iids),
    ensures
        migrated_items(ls, lids, iids, n).dom().finite(),
        migrated_items(ls, lids, iids, n).dom().len() == item_total(ls, n),
    decreases n,
{
    if n > 0 {
        lemma_migrated_items_len(ls, lids, iids, n - 1);
        lemma_migrated_items(ls, lids, iids, n - 1);
        let base = migrated_items(ls, lids, iids, n - 1);
        let row = iids[n - 1];
        lemma_row_distinct(iids, n - 1);
        assert forall|q: int| 0 <= q < row.len() implies !base.contains_key(#[trigger] row[q]) by {
            if base.contains_key(row[q]) {
                let (i, r) = choose|i: int, r: int| 0 <= i < n - 1 && 0 <= r < iids[i].len() && iids[i][r] == row[q];
                assert(iids[n - 1][q] != iids[i][r]);
            }
        }
        lemma_migrated_items_of_len(base, ls[n - 1], lids[n - 1], row, row.len() as int);
    }
}

/// Moving Markdown lists into a document keeps their order and the order
/// of their items, when no id is given twice: the document's lists, in
/// display order, are the lists in their order (each with its name, type
/// and last reset), the rows of each list are its items in their order
/// (each with its title, state, tags and time), and the document holds as
/// many items as the lists together.
pub proof fn law_migration_order(lists: Seq<TodoList>, lids: Seq<String>, iids: Seq<Vec<String>>)
    requires
        ids_fit(lists, lids, iids),
        ids_distinct(strings_view(lids)),
        item_ids_distinct(id_rows_view(iids)),
    ensures
        ({
            let d = migration(lists, lids, iids);
            let ls = lists_view(lists);
            let lv = strings_view(lids);
            let iv = id_rows_view(iids);
            &&& doc_lists(d.lists) == migrated_list_seq(ls, lv)
            &&& forall|i: int| 0 <= i < ls.len() ==> list_rows(d.items, #[trigger] lv[i]) == migrated_item_seq(ls[i], lv[i], iv[i])
            &&& d.items.dom().finite()
            &&& d.items.dom().len() == item_total(ls, ls.len() as int)
        }),
{
    let d = migration(lists, lids, iids);
    let ls = lists_view(lists);
    let lv = strings_view(lids);
    let iv = id_rows_view(iids);
    assert forall|i: int| 0 <= i < ls.len() implies (#[trigger] iv[i]).len() == ls[i].items.len() by {
        assert(iv[i] == strings_view(iids[i]@));
        assert(ls[i] == lists[i]@);
    }
    lemma_migrated_lists(ls, lv, ls.len() as int);
    lemma_migrated_items(ls, lv, iv, ls.len() as int);
    lemma_migrated_items_len(ls, lv, iv, ls.len() as int);
    let sl = migrated_list_seq(ls, lv);
    assert forall|k: Seq<char>| #[trigger] d.lists.contains_key(k) implies exists|q: int| 0 <= q < sl.len() && sl[q].id == k by {
        let i = choose|i: int| 0 <= i < ls.len() && lv[i] == k;
        assert(sl[i].id == k);
    }
    assert(lists_exactly(d.lists, sl));
    lemma_lists_unique(d.lists, doc_lists(d.lists), sl);
    assert forall|i: int| 0 <= i < ls.len() implies list_rows(d.items, #[trigger] lv[i]) == migrated_item_seq(ls[i], lv[i], iv[i]) by {
        let si = migrated_item_seq(ls[i], lv[i], iv[i]);
        let p = |it: ItemRec| !it.archived && it.list_id == Some(lv[i]);
        assert forall|k: int| 0 <= k < si.len() implies d.items.contains_key(#[trigger] si[k].id) && d.items[si[k].id] == si[k] && p(si[k]) by {
            assert(si[k].id == iv[i][k]);
        }
        assert forall|id: Seq<char>| #[trigger] d.items.contains_key(id) && p(d.items[id]) implies exists|k: int| 0 <= k < si.len() && si[k].id == id by {
            let (a, q) = choose|a: int, q: int| 0 <= a < ls.len() && 0 <= q < iv[a].len() && iv[a][q] == id;
            assert(d.items[iv[a][q]].list_id == Some(lv[a]));
            if a != i {
                if a < i {
                    assert(lv[a] != lv[i]);
                } else {
                    assert(lv[i] != lv[a]);
                }
            }
            assert(si[q].id == id);
        }
        assert(shows_exactly(d.items, p, si));
        lemma_shown_items(d.items, p, si);
    }
}

// ---------------------------------------------------------------------------
// Lookups
// ---------------------------------------------------------------------------

impl CrdtDocument {
    /// The item with this id.
    pub fn get_item(&self, id: &str) -> (r: Option<&CrdtItem>)
        requires
            self.wf(),
        ensures
            match r {
                Some(it) => self@.items.contains_key(id@) && it@ == self@.items[id@] && it.id@ == id@,
                None => !self@.items.contains_key(id@),
            },
    {
        match crate::crdt::item_index(&self.items, id) {
            Some(i) => {
                proof {
                    lemma_item_map_entry(self.items@, i as int);
                }
                Some(&self.items[i])
            },
            None => None,
        }
    }

    /// The list with this id.
    pub fn get_list(&self, id: &str) -> (r: Option<&CrdtList>)
        requires
            self.wf(),
        ensures
            match r {
                Some(l) => self@.lists.contains_key(id@) && l@ == self@.lists[id@] && l.id@ == id@,
                None => !self@.lists.contains_key(id@),
            },
    {
        match crate::crdt::list_index(&self.lists, id) {
            Some(i) => {
                proof {
                    crate::crdt::lemma_list_map_entry(self.lists@, i as int);
                }
                Some(&self.lists[i])
            },
            None => None,
        }
    }
}

/// The position `next_position_in` gives: one step after the greatest
/// position among the items with list `l`, or 0.
pub open spec fn next_pos_of(m: Map<Seq<char>, ItemRec>, l: Option<Seq<char>>) -> int {
    choose|r: int| next_item_position(m, l, r)
}

/// The position `next_list_position` gives.
pub open spec fn next_list_pos_of(m: Map<Seq<char>, ListRec>) -> int {
    choose|r: int| next_list_pos(m, r)
}

/// The next position is a function of the document.
pub proof fn lemma_next_pos_unique(m: Map<Seq<char>, ItemRec>, l: Option<Seq<char>>, r: int)
    requires
        next_item_position(m, l, r),
    ensures
        next_pos_of(m, l) == r,
{
    let c = next_pos_of(m, l);
    assert(next_item_position(m, l, c));
    if exists|id: Seq<char>| #[trigger] m.contains_key(id) && m[id].list_id == l {
        let a = choose|id: Seq<char>|
            #[trigger] m.contains_key(id) && m[id].list_id == l && r == step_after(m[id].position) && forall|id2: Seq<char>|
                #[trigger] m.contains_key(id2) && m[id2].list_id == l ==> m[id2].position <= m[id].position;
        let b = choose|id: Seq<char>|
            #[trigger] m.contains_key(id) && m[id].list_id == l && c == step_after(m[id].position) && forall|id2: Seq<char>|
                #[trigger] m.contains_key(id2) && m[id2].list_id == l ==> m[id2].position <= m[id].position;
        assert(m[a].position <= m[b].position);
        assert(m[b].position <= m[a].position);
    }
}

/// The next list position is a function of the document.
pub proof fn lemma_next_list_pos_unique(m: Map<Seq<char>, ListRec>, r: int)
    requires
        next_list_pos(m, r),
    ensures
        next_list_pos_of(m) == r,
{
    let c = next_list_pos_of(m);
    assert(next_list_pos(m, c));
    if exists|id: Seq<char>| #[trigger] m.contains_key(id) {
        let a = choose|id: Seq<char>|
            #[trigger] m.contains_key(id) && r == step_after(m[id].position) && forall|id2: Seq<char>|
                #[trigger] m.contains_key(id2) ==> m[id2].position <= m[id].position;
        let b = choose|id: Seq<char>|
            #[trigger] m.contains_key(id) && c == step_after(m[id].position) && forall|id2: Seq<char>|
                #[trigger] m.contains_key(id2) ==> m[id2].position <= m[id].position;
        assert(m[a].position <= m[b].position);
        assert(m[b].position <= m[a].position);
    }
}

} // verus!

verus! {

/// A document with one empty normal list, `Inbox`, under the id `id`.
pub fn inbox_document_with_id(id: String) -> (r: CrdtDocument)
    ensures
        r.wf(),
        r@.items == Map::<Seq<char>, ItemRec>::empty(),
        r@.lists == Map::<Seq<char>, ListRec>::empty().insert(id@, ListRec {
            id: id@,
            name: "Inbox"@,
            list_type: "normal"@,
            last_reset: None,
            position: 0,
        }),
{
    let mut doc = CrdtDocument::new();
    let inbox = "Inbox";
    let normal = "normal";
    proof {
        reveal_strlit("Inbox");
        reveal_strlit("normal");
    }
    let l = CrdtList { id, name: inbox.to_owned(), list_type: normal.to_owned(), last_reset: None, position: 0 };
    list_put(&mut doc.lists, l);
    doc
}

/// A document with one empty normal list, `Inbox`, under a fresh id.
pub fn inbox_document() -> (r: CrdtDocument)
    ensures
        r.wf(),
        r@.items == Map::<Seq<char>, ItemRec>::empty(),
        exists|id: Seq<char>| id.len() == 36 && #[trigger] r@.lists == Map::<Seq<char>, ListRec>::empty().insert(id, ListRec {
            id,
            name: "Inbox"@,
            list_type: "normal"@,
            last_reset: None,
            position: 0,
        }),
{
    let id = new_id();
    let ghost idv = id@;
    let r = inbox_document_with_id(id);
    assert(r@.lists == Map::<Seq<char>, ListRec>::empty().insert(idv, ListRec {
        id: idv,
        name: "Inbox"@,
        list_type: "normal"@,
        last_reset: None,
        position: 0,
    }));
    r
}

} // verus!
