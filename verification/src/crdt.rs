use vstd::prelude::*;

use crate::model::strings_view;
use crate::sorting::{lemma_sorted_unique, strict_order, strictly_sorted};
use crate::text::{
    lemma_lex_lt_irreflexive, lemma_lex_lt_transitive, lemma_lex_lt_trichotomy, lex_lt, str_eq,
};

verus! {

/// An item of the synchronised document.
pub struct CrdtItem {
    pub id: String,
    pub title: String,
    pub done: bool,
    pub tags: Vec<String>,
    pub time_secs: u64,
    /// The list it belongs to; `None` for an item without a list.
    pub list_id: Option<String>,
    /// Where it stands among its list's items, in half steps: items are
    /// shown by increasing position, then by id.
    pub position: i64,
    /// Archived items are kept in the document but shown nowhere.
    pub archived: bool,
}

/// A list of the synchronised document.
pub struct CrdtList {
    pub id: String,
    pub name: String,
    /// `normal` or `daily`.
    pub list_type: String,
    pub last_reset: Option<String>,
    /// Where it stands among the lists, in half steps.
    pub position: i64,
}

/// The abstract value of an item.
pub struct ItemRec {
    pub id: Seq<char>,
    pub title: Seq<char>,
    pub done: bool,
    pub tags: Seq<Seq<char>>,
    pub time_secs: u64,
    pub list_id: Option<Seq<char>>,
    pub position: int,
    pub archived: bool,
}

/// The abstract value of a list.
pub struct ListRec {
    pub id: Seq<char>,
    pub name: Seq<char>,
    pub list_type: Seq<char>,
    pub last_reset: Option<Seq<char>>,
    pub position: int,
}

pub open spec fn opt_view(o: Option<String>) -> Option<Seq<char>> {
    match o {
        Some(s) => Some(s@),
        None => None,
    }
}

impl View for CrdtItem {
    type V = ItemRec;

    open spec fn view(&self) -> ItemRec {
        ItemRec {
            id: self.id@,
            title: self.title@,
            done: self.done,
            tags: strings_view(self.tags@),
            time_secs: self.time_secs,
            list_id: opt_view(self.list_id),
            position: self.position as int,
            archived: self.archived,
        }
    }
}

impl View for CrdtList {
    type V = ListRec;

    open spec fn view(&self) -> ListRec {
        ListRec {
            id: self.id@,
            name: self.name@,
            list_type: self.list_type@,
            last_reset: opt_view(self.last_reset),
            position: self.position as int,
        }
    }
}

/// The synchronised document: items and lists, each keyed by its id.
pub struct CrdtDocument {
    pub items: Vec<CrdtItem>,
    pub lists: Vec<CrdtList>,
}

/// The abstract value of a document.
pub struct DocV {
    pub items: Map<Seq<char>, ItemRec>,
    pub lists: Map<Seq<char>, ListRec>,
}

impl View for CrdtDocument {
    type V = DocV;

    open spec fn view(&self) -> DocV {
        DocV { items: item_map(self.items@), lists: list_map(self.lists@) }
    }
}

impl CrdtDocument {
    /// No two items and no two lists share an id.
    pub open spec fn wf(&self) -> bool {
        item_ids_unique(self.items@) && list_ids_unique(self.lists@)
    }

    /// An empty document.
    pub fn new() -> (r: CrdtDocument)
        ensures
            r.wf(),
            r@.items == Map::<Seq<char>, ItemRec>::empty(),
            r@.lists == Map::<Seq<char>, ListRec>::empty(),
    {
        CrdtDocument { items: Vec::new(), lists: Vec::new() }
    }
}

/// The items of a sequence keyed by id, a later one replacing an earlier
/// one with the same id.
pub open spec fn item_map(s: Seq<CrdtItem>) -> Map<Seq<char>, ItemRec>
    decreases s.len(),
{
    if s.len() == 0 {
        Map::empty()
    } else {
        item_map(s.drop_last()).insert(s.last().id@, s.last()@)
    }
}

pub open spec fn item_ids_unique(s: Seq<CrdtItem>) -> bool {
    forall|i: int, j: int| 0 <= i < j < s.len() ==> (#[trigger] s[i]).id@ != (#[trigger] s[j]).id@
}

pub proof fn lemma_item_map_entry(s: Seq<CrdtItem>, i: int)
    requires
        item_ids_unique(s),
        0 <= i < s.len(),
    ensures
        item_map(s).contains_key(s[i].id@),
        item_map(s)[s[i].id@] == s[i]@,
    decreases s.len(),
{
    if i < s.len() - 1 {
        let d = s.drop_last();
        assert(d[i] == s[i]);
        assert(item_ids_unique(d)) by {
            assert forall|a: int, b: int| 0 <= a < b < d.len() implies (#[trigger] d[a]).id@ != (#[trigger] d[b]).id@ by {
                assert(d[a] == s[a] && d[b] == s[b]);
            }
        }
        lemma_item_map_entry(d, i);
        assert(s[i].id@ != s[s.len() - 1].id@);
    }
}

pub proof fn lemma_item_map_key(s: Seq<CrdtItem>, k: Seq<char>)
    requires
        item_map(s).contains_key(k),
    ensures
        exists|i: int| 0 <= i < s.len() && (#[trigger] s[i]).id@ == k,
    decreases s.len(),
{
    let d = s.drop_last();
    if s.last().id@ != k {
        lemma_item_map_key(d, k);
        let i = choose|i: int| 0 <= i < d.len() && (#[trigger] d[i]).id@ == k;
        assert(s[i] == d[i]);
    } else {
        assert(s[s.len() - 1].id@ == k);
    }
}

pub proof fn lemma_item_map_update(s: Seq<CrdtItem>, i: int, e: CrdtItem)
    requires
        item_ids_unique(s),
        0 <= i < s.len(),
        e.id@ == s[i].id@,
    ensures
        item_map(s.update(i, e)) == item_map(s).insert(e.id@, e@),
        item_ids_unique(s.update(i, e)),
    decreases s.len(),
{
    let u = s.update(i, e);
    assert(item_ids_unique(u)) by {
        assert forall|a: int, b: int| 0 <= a < b < u.len() implies (#[trigger] u[a]).id@ != (#[trigger] u[b]).id@ by {
            assert(u[a].id@ == s[a].id@);
            assert(u[b].id@ == s[b].id@);
        }
    }
    let d = s.drop_last();
    assert(item_ids_unique(d)) by {
        assert forall|a: int, b: int| 0 <= a < b < d.len() implies (#[trigger] d[a]).id@ != (#[trigger] d[b]).id@ by {
            assert(d[a] == s[a] && d[b] == s[b]);
        }
    }
    if i == s.len() - 1 {
        assert(u.drop_last() == d);
        assert(u.last() == e);
        assert(item_map(d).insert(e.id@, s[i]@).insert(e.id@, e@) =~= item_map(d).insert(e.id@, e@));
    } else {
        assert(d[i] == s[i]);
        lemma_item_map_update(d, i, e);
        assert(u.drop_last() == d.update(i, e));
        assert(u.last() == s.last());
        assert(s[i].id@ != s[s.len() - 1].id@);
        assert(item_map(u) =~= item_map(d).insert(s.last().id@, s.last()@).insert(e.id@, e@));
    }
}

pub proof fn lemma_item_map_push(s: Seq<CrdtItem>, e: CrdtItem)
    requires
        item_ids_unique(s),
        !item_map(s).contains_key(e.id@),
    ensures
        item_map(s.push(e)) == item_map(s).insert(e.id@, e@),
        item_ids_unique(s.push(e)),
{
    assert(s.push(e).drop_last() == s);
    assert(item_ids_unique(s.push(e))) by {
        assert forall|a: int, b: int| 0 <= a < b < s.push(e).len() implies (#[trigger] s.push(e)[a]).id@ != (#[trigger] s.push(e)[b]).id@ by {
            if b < s.len() {
                assert(s.push(e)[a] == s[a] && s.push(e)[b] == s[b]);
            } else {
                assert(s.push(e)[a] == s[a]);
                lemma_item_map_entry(s, a);
            }
        }
    }
}

pub proof fn lemma_item_map_remove(s: Seq<CrdtItem>, i: int)
    requires
        item_ids_unique(s),
        0 <= i < s.len(),
    ensures
        item_map(s.remove(i)) == item_map(s).remove(s[i].id@),
        item_ids_unique(s.remove(i)),
    decreases s.len(),
{
    let r = s.remove(i);
    assert(item_ids_unique(r)) by {
        assert forall|a: int, b: int| 0 <= a < b < r.len() implies (#[trigger] r[a]).id@ != (#[trigger] r[b]).id@ by {
            let oa = if a < i { a } else { a + 1 };
            let ob = if b < i { b } else { b + 1 };
            assert(r[a] == s[oa] && r[b] == s[ob]);
        }
    }
    let d = s.drop_last();
    assert(item_ids_unique(d)) by {
        assert forall|a: int, b: int| 0 <= a < b < d.len() implies (#[trigger] d[a]).id@ != (#[trigger] d[b]).id@ by {
            assert(d[a] == s[a] && d[b] == s[b]);
        }
    }
    if i == s.len() - 1 {
        assert(r == d);
        if item_map(d).contains_key(s[i].id@) {
            lemma_item_map_key(d, s[i].id@);
            let j = choose|j: int| 0 <= j < d.len() && (#[trigger] d[j]).id@ == s[i].id@;
            assert(d[j] == s[j]);
        }
        assert(item_map(d) =~= item_map(s).remove(s[i].id@));
    } else {
        assert(d[i] == s[i]);
        lemma_item_map_remove(d, i);
        assert(r.drop_last() == d.remove(i));
        assert(r.last() == s.last());
        assert(s[i].id@ != s[s.len() - 1].id@);
        assert(item_map(r) =~= item_map(d).remove(s[i].id@).insert(s.last().id@, s.last()@));
        assert(item_map(s).remove(s[i].id@) =~= item_map(d).insert(s.last().id@, s.last()@).remove(s[i].id@));
    }
}

proof fn lemma_item_map_finite(s: Seq<CrdtItem>)
    ensures
        item_map(s).dom().finite(),
    decreases s.len(),
{
    if s.len() > 0 {
        lemma_item_map_finite(s.drop_last());
    }
}

/// The index of the item with this id, if any.
pub fn item_index(s: &Vec<CrdtItem>, id: &str) -> (r: Option<usize>)
    requires
        item_ids_unique(s@),
    ensures
        match r {
            Some(i) => i < s@.len() && s@[i as int].id@ == id@ && item_map(s@).contains_key(id@),
            None => !item_map(s@).contains_key(id@),
        },
{
    let mut i: usize = 0;
    while i < s.len()
        invariant
            i <= s.len(),
            item_ids_unique(s@),
            forall|j: int| 0 <= j < i ==> (#[trigger] s@[j]).id@ != id@,
        decreases s.len() - i,
    {
        if str_eq(s[i].id.as_str(), id) {
            proof {
                lemma_item_map_entry(s@, i as int);
            }
            return Some(i);
        }
        i = i + 1;
    }
    proof {
        if item_map(s@).contains_key(id@) {
            lemma_item_map_key(s@, id@);
        }
    }
    None
}

/// Puts `e` in place of the item with the same id, or adds it.
pub fn item_put(s: &mut Vec<CrdtItem>, e: CrdtItem)
    requires
        item_ids_unique(old(s)@),
    ensures
        item_ids_unique(final(s)@),
        item_map(final(s)@) == item_map(old(s)@).insert(e.id@, e@),
{
    match item_index(s, e.id.as_str()) {
        Some(i) => {
            proof {
                lemma_item_map_update(s@, i as int, e);
            }
            s.set(i, e);
        },
        None => {
            proof {
                lemma_item_map_push(s@, e);
            }
            s.push(e);
        },
    }
}

/// Removes the item with this id, if any.
pub fn item_remove(s: &mut Vec<CrdtItem>, id: &str)
    requires
        item_ids_unique(old(s)@),
    ensures
        item_ids_unique(final(s)@),
        item_map(final(s)@) == item_map(old(s)@).remove(id@),
{
    match item_index(s, id) {
        Some(i) => {
            proof {
                lemma_item_map_remove(s@, i as int);
            }
            s.remove(i);
        },
        None => {
            assert(item_map(s@) =~= item_map(s@).remove(id@));
        },
    }
}

/// The lists of a sequence keyed by id, a later one replacing an earlier
/// one with the same id.
pub open spec fn list_map(s: Seq<CrdtList>) -> Map<Seq<char>, ListRec>
    decreases s.len(),
{
    if s.len() == 0 {
        Map::empty()
    } else {
        list_map(s.drop_last()).insert(s.last().id@, s.last()@)
    }
}

pub open spec fn list_ids_unique(s: Seq<CrdtList>) -> bool {
    forall|i: int, j: int| 0 <= i < j < s.len() ==> (#[trigger] s[i]).id@ != (#[trigger] s[j]).id@
}

pub proof fn lemma_list_map_entry(s: Seq<CrdtList>, i: int)
    requires
        list_ids_unique(s),
        0 <= i < s.len(),
    ensures
        list_map(s).contains_key(s[i].id@),
        list_map(s)[s[i].id@] == s[i]@,
    decreases s.len(),
{
    if i < s.len() - 1 {
        let d = s.drop_last();
        assert(d[i] == s[i]);
        assert(list_ids_unique(d)) by {
            assert forall|a: int, b: int| 0 <= a < b < d.len() implies (#[trigger] d[a]).id@ != (#[trigger] d[b]).id@ by {
                assert(d[a] == s[a] && d[b] == s[b]);
            }
        }
        lemma_list_map_entry(d, i);
        assert(s[i].id@ != s[s.len() - 1].id@);
    }
}

pub proof fn lemma_list_map_key(s: Seq<CrdtList>, k: Seq<char>)
    requires
        list_map(s).contains_key(k),
    ensures
        exists|i: int| 0 <= i < s.len() && (#[trigger] s[i]).id@ == k,
    decreases s.len(),
{
    let d = s.drop_last();
    if s.last().id@ != k {
        lemma_list_map_key(d, k);
        let i = choose|i: int| 0 <= i < d.len() && (#[trigger] d[i]).id@ == k;
        assert(s[i] == d[i]);
    } else {
        assert(s[s.len() - 1].id@ == k);
    }
}

pub proof fn lemma_list_map_update(s: Seq<CrdtList>, i: int, e: CrdtList)
    requires
        list_ids_unique(s),
        0 <= i < s.len(),
        e.id@ == s[i].id@,
    ensures
        list_map(s.update(i, e)) == list_map(s).insert(e.id@, e@),
        list_ids_unique(s.update(i, e)),
    decreases s.len(),
{
    let u = s.update(i, e);
    assert(list_ids_unique(u)) by {
        assert forall|a: int, b: int| 0 <= a < b < u.len() implies (#[trigger] u[a]).id@ != (#[trigger] u[b]).id@ by {
            assert(u[a].id@ == s[a].id@);
            assert(u[b].id@ == s[b].id@);
        }
    }
    let d = s.drop_last();
    assert(list_ids_unique(d)) by {
        assert forall|a: int, b: int| 0 <= a < b < d.len() implies (#[trigger] d[a]).id@ != (#[trigger] d[b]).id@ by {
            assert(d[a] == s[a] && d[b] == s[b]);
        }
    }
    if i == s.len() - 1 {
        assert(u.drop_last() == d);
        assert(u.last() == e);
        assert(list_map(d).insert(e.id@, s[i]@).insert(e.id@, e@) =~= list_map(d).insert(e.id@, e@));
    } else {
        assert(d[i] == s[i]);
        lemma_list_map_update(d, i, e);
        assert(u.drop_last() == d.update(i, e));
        assert(u.last() == s.last());
        assert(s[i].id@ != s[s.len() - 1].id@);
        assert(list_map(u) =~= list_map(d).insert(s.last().id@, s.last()@).insert(e.id@, e@));
    }
}

pub proof fn lemma_list_map_push(s: Seq<CrdtList>, e: CrdtList)
    requires
        list_ids_unique(s),
        !list_map(s).contains_key(e.id@),
    ensures
        list_map(s.push(e)) == list_map(s).insert(e.id@, e@),
        list_ids_unique(s.push(e)),
{
    assert(s.push(e).drop_last() == s);
    assert(list_ids_unique(s.push(e))) by {
        assert forall|a: int, b: int| 0 <= a < b < s.push(e).len() implies (#[trigger] s.push(e)[a]).id@ != (#[trigger] s.push(e)[b]).id@ by {
            if b < s.len() {
                assert(s.push(e)[a] == s[a] && s.push(e)[b] == s[b]);
            } else {
                assert(s.push(e)[a] == s[a]);
                lemma_list_map_entry(s, a);
            }
        }
    }
}

pub proof fn lemma_list_map_remove(s: Seq<CrdtList>, i: int)
    requires
        list_ids_unique(s),
        0 <= i < s.len(),
    ensures
        list_map(s.remove(i)) == list_map(s).remove(s[i].id@),
        list_ids_unique(s.remove(i)),
    decreases s.len(),
{
    let r = s.remove(i);
    assert(list_ids_unique(r)) by {
        assert forall|a: int, b: int| 0 <= a < b < r.len() implies (#[trigger] r[a]).id@ != (#[trigger] r[b]).id@ by {
            let oa = if a < i { a } else { a + 1 };
            let ob = if b < i { b } else { b + 1 };
            assert(r[a] == s[oa] && r[b] == s[ob]);
        }
    }
    let d = s.drop_last();
    assert(list_ids_unique(d)) by {
        assert forall|a: int, b: int| 0 <= a < b < d.len() implies (#[trigger] d[a]).id@ != (#[trigger] d[b]).id@ by {
            assert(d[a] == s[a] && d[b] == s[b]);
        }
    }
    if i == s.len() - 1 {
        assert(r == d);
        if list_map(d).contains_key(s[i].id@) {
            lemma_list_map_key(d, s[i].id@);
            let j = choose|j: int| 0 <= j < d.len() && (#[trigger] d[j]).id@ == s[i].id@;
            assert(d[j] == s[j]);
        }
        assert(list_map(d) =~= list_map(s).remove(s[i].id@));
    } else {
        assert(d[i] == s[i]);
        lemma_list_map_remove(d, i);
        assert(r.drop_last() == d.remove(i));
        assert(r.last() == s.last());
        assert(s[i].id@ != s[s.len() - 1].id@);
        assert(list_map(r) =~= list_map(d).remove(s[i].id@).insert(s.last().id@, s.last()@));
        assert(list_map(s).remove(s[i].id@) =~= list_map(d).insert(s.last().id@, s.last()@).remove(s[i].id@));
    }
}

proof fn lemma_list_map_finite(s: Seq<CrdtList>)
    ensures
        list_map(s).dom().finite(),
    decreases s.len(),
{
    if s.len() > 0 {
        lemma_list_map_finite(s.drop_last());
    }
}

/// The index of the list with this id, if any.
pub fn list_index(s: &Vec<CrdtList>, id: &str) -> (r: Option<usize>)
    requires
        list_ids_unique(s@),
    ensures
        match r {
            Some(i) => i < s@.len() && s@[i as int].id@ == id@ && list_map(s@).contains_key(id@),
            None => !list_map(s@).contains_key(id@),
        },
{
    let mut i: usize = 0;
    while i < s.len()
        invariant
            i <= s.len(),
            list_ids_unique(s@),
            forall|j: int| 0 <= j < i ==> (#[trigger] s@[j]).id@ != id@,
        decreases s.len() - i,
    {
        if str_eq(s[i].id.as_str(), id) {
            proof {
                lemma_list_map_entry(s@, i as int);
            }
            return Some(i);
        }
        i = i + 1;
    }
    proof {
        if list_map(s@).contains_key(id@) {
            lemma_list_map_key(s@, id@);
        }
    }
    None
}

/// Puts `e` in place of the list with the same id, or adds it.
pub fn list_put(s: &mut Vec<CrdtList>, e: CrdtList)
    requires
        list_ids_unique(old(s)@),
    ensures
        list_ids_unique(final(s)@),
        list_map(final(s)@) == list_map(old(s)@).insert(e.id@, e@),
{
    match list_index(s, e.id.as_str()) {
        Some(i) => {
            proof {
                lemma_list_map_update(s@, i as int, e);
            }
            s.set(i, e);
        },
        None => {
            proof {
                lemma_list_map_push(s@, e);
            }
            s.push(e);
        },
    }
}

/// Removes the list with this id, if any.
pub fn list_remove(s: &mut Vec<CrdtList>, id: &str)
    requires
        list_ids_unique(old(s)@),
    ensures
        list_ids_unique(final(s)@),
        list_map(final(s)@) == list_map(old(s)@).remove(id@),
{
    match list_index(s, id) {
        Some(i) => {
            proof {
                lemma_list_map_remove(s@, i as int);
            }
            s.remove(i);
        },
        None => {
            assert(list_map(s@) =~= list_map(s@).remove(id@));
        },
    }
}


// ---------------------------------------------------------------------------
// Display order
// ---------------------------------------------------------------------------

/// `a` is shown before `b`: lower position first, then lower id.
pub open spec fn item_before(a: ItemRec, b: ItemRec) -> bool {
    a.position < b.position || (a.position == b.position && lex_lt(a.id, b.id))
}

pub open spec fn list_before(a: ListRec, b: ListRec) -> bool {
    a.position < b.position || (a.position == b.position && lex_lt(a.id, b.id))
}

proof fn lemma_before_order(a: Seq<char>, b: Seq<char>, c: Seq<char>)
    ensures
        !lex_lt(a, a),
        a != b ==> (lex_lt(a, b) || lex_lt(b, a)),
        !(lex_lt(a, b) && lex_lt(b, a)),
        lex_lt(a, b) && lex_lt(b, c) ==> lex_lt(a, c),
{
    lemma_lex_lt_irreflexive(a);
    lemma_lex_lt_trichotomy(a, b);
    if lex_lt(a, b) && lex_lt(b, c) {
        lemma_lex_lt_transitive(a, b, c);
    }
}

/// Which items a view shows.
pub enum ItemFilter {
    /// The items of the list with this id.
    InList(String),
    /// The items that carry this tag.
    WithTag(String),
    /// The items that belong to no list.
    Unassigned,
    /// The done items of the list with this id, archived ones included.
    DoneInList(String),
    /// Every item.
    Any,
}

/// Whether a filter keeps the item; the views of lists, tags and items
/// without a list leave archived items out.
pub open spec fn filter_shows(f: ItemFilter, i: ItemRec) -> bool {
    match f {
        ItemFilter::InList(l) => !i.archived && i.list_id == Some(l@),
        ItemFilter::WithTag(t) => !i.archived && i.tags.contains(t@),
        ItemFilter::Unassigned => !i.archived && i.list_id is None,
        ItemFilter::DoneInList(l) => i.done && i.list_id == Some(l@),
        ItemFilter::Any => true,
    }
}

fn has_tag(tags: &Vec<String>, tag: &str) -> (r: bool)
    ensures
        r == strings_view(tags@).contains(tag@),
{
    let mut i: usize = 0;
    while i < tags.len()
        invariant
            i <= tags.len(),
            forall|j: int| 0 <= j < i ==> tags@[j]@ != tag@,
        decreases tags.len() - i,
    {
        if str_eq(tags[i].as_str(), tag) {
            assert(strings_view(tags@)[i as int] == tag@);
            return true;
        }
        i = i + 1;
    }
    assert forall|j: int| 0 <= j < strings_view(tags@).len() implies strings_view(tags@)[j] != tag@ by {
        assert(strings_view(tags@)[j] == tags@[j]@);
    }
    false
}

fn filter_shows_exec(f: &ItemFilter, i: &CrdtItem) -> (r: bool)
    ensures
        r == filter_shows(*f, i@),
{
    match f {
        ItemFilter::InList(l) => !i.archived && match &i.list_id {
            Some(x) => str_eq(x.as_str(), l.as_str()),
            None => false,
        },
        ItemFilter::WithTag(t) => !i.archived && has_tag(&i.tags, t.as_str()),
        ItemFilter::Unassigned => !i.archived && i.list_id.is_none(),
        ItemFilter::DoneInList(l) => i.done && match &i.list_id {
            Some(x) => str_eq(x.as_str(), l.as_str()),
            None => false,
        },
        ItemFilter::Any => true,
    }
}

/// `r` holds exactly the items of `m` that satisfy `p`, each once, in
/// display order.
pub open spec fn shows_exactly(m: Map<Seq<char>, ItemRec>, p: spec_fn(ItemRec) -> bool, r: Seq<ItemRec>) -> bool {
    &&& forall|k: int| 0 <= k < r.len() ==> m.contains_key(#[trigger] r[k].id) && m[r[k].id] == r[k] && p(r[k])
    &&& forall|id: Seq<char>| #[trigger] m.contains_key(id) && p(m[id]) ==> exists|k: int| 0 <= k < r.len() && r[k].id == id
    &&& forall|a: int, b: int| 0 <= a < b < r.len() ==> item_before(#[trigger] r[a], #[trigger] r[b])
}

pub open spec fn lists_exactly(m: Map<Seq<char>, ListRec>, r: Seq<ListRec>) -> bool {
    &&& forall|k: int| 0 <= k < r.len() ==> m.contains_key(#[trigger] r[k].id) && m[r[k].id] == r[k]
    &&& forall|id: Seq<char>| #[trigger] m.contains_key(id) ==> exists|k: int| 0 <= k < r.len() && r[k].id == id
    &&& forall|a: int, b: int| 0 <= a < b < r.len() ==> list_before(#[trigger] r[a], #[trigger] r[b])
}

pub open spec fn item_refs_view(v: Seq<&CrdtItem>) -> Seq<ItemRec> {
    v.map_values(|i: &CrdtItem| i@)
}

pub open spec fn list_refs_view(v: Seq<&CrdtList>) -> Seq<ListRec> {
    v.map_values(|l: &CrdtList| l@)
}

fn item_before_exec(a: &CrdtItem, b: &CrdtItem) -> (r: bool)
    ensures
        r == item_before(a@, b@),
{
    if a.position != b.position {
        return a.position < b.position;
    }
    let ia = crate::text::chars_of(a.id.as_str());
    let ib = crate::text::chars_of(b.id.as_str());
    crate::text::lex_less(&ia, &ib)
}

fn list_before_exec(a: &CrdtList, b: &CrdtList) -> (r: bool)
    ensures
        r == list_before(a@, b@),
{
    if a.position != b.position {
        return a.position < b.position;
    }
    let ia = crate::text::chars_of(a.id.as_str());
    let ib = crate::text::chars_of(b.id.as_str());
    crate::text::lex_less(&ia, &ib)
}

/// `out` holds, each once, the items among the first `n` that the filter
/// shows.
pub open spec fn collected(out: Seq<&CrdtItem>, items: Seq<CrdtItem>, n: int, f: ItemFilter) -> bool {
    &&& forall|k: int| 0 <= k < out.len() ==> exists|q: int| 0 <= q < n && #[trigger] out[k] == items[q]
    &&& forall|q: int| 0 <= q < n && filter_shows(f, (#[trigger] items[q])@) ==> exists|k: int| 0 <= k < out.len() && out[k] == items[q]
    &&& forall|k: int| 0 <= k < out.len() ==> filter_shows(f, (#[trigger] out[k])@)
}

proof fn lemma_collected_fresh(out: Seq<&CrdtItem>, items: Seq<CrdtItem>, n: int, f: ItemFilter)
    requires
        collected(out, items, n, f),
        item_ids_unique(items),
        0 <= n < items.len(),
    ensures
        forall|k: int| 0 <= k < out.len() ==> (#[trigger] out[k])@.id != items[n]@.id,
{
    assert forall|k: int| 0 <= k < out.len() implies (#[trigger] out[k])@.id != items[n]@.id by {
        let q = choose|q: int| 0 <= q < n && #[trigger] out[k] == items[q];
        assert(items[q].id@ != items[n].id@);
    }
}

proof fn lemma_insert_from(old: Seq<&CrdtItem>, nv: Seq<&CrdtItem>, pos: int, items: Seq<CrdtItem>, n: int, f: ItemFilter)
    requires
        collected(old, items, n, f),
        0 <= n < items.len(),
        0 <= pos <= old.len(),
        nv == old.insert(pos, &items[n]),
    ensures
        forall|k: int| 0 <= k < nv.len() ==> exists|q: int| 0 <= q < n + 1 && #[trigger] nv[k] == items[q],
{
    assert forall|k: int| 0 <= k < nv.len() implies exists|q: int| 0 <= q < n + 1 && #[trigger] nv[k] == items[q] by {
        if k < pos {
            assert(nv[k] == old[k]);
            let q = choose|q: int| 0 <= q < n && #[trigger] old[k] == items[q];
            assert(nv[k] == items[q]);
        } else if k > pos {
            assert(nv[k] == old[k - 1]);
            let q = choose|q: int| 0 <= q < n && #[trigger] old[k - 1] == items[q];
            assert(nv[k] == items[q]);
        } else {
            assert(nv[k] == items[n]);
        }
    }
}

proof fn lemma_insert_keeps(old: Seq<&CrdtItem>, nv: Seq<&CrdtItem>, pos: int, items: Seq<CrdtItem>, n: int, f: ItemFilter)
    requires
        collected(old, items, n, f),
        0 <= n < items.len(),
        0 <= pos <= old.len(),
        nv == old.insert(pos, &items[n]),
    ensures
        forall|q: int| 0 <= q < n + 1 && filter_shows(f, (#[trigger] items[q])@) ==> exists|k: int| 0 <= k < nv.len() && nv[k] == items[q],
{
    assert forall|q: int| 0 <= q < n + 1 && filter_shows(f, (#[trigger] items[q])@) implies exists|k: int| 0 <= k < nv.len() && nv[k] == items[q] by {
        if q == n {
            assert(nv[pos] == items[n]);
        } else {
            let k = choose|k: int| 0 <= k < old.len() && old[k] == items[q];
            if k < pos {
                assert(nv[k] == old[k]);
            } else {
                assert(nv[k + 1] == old[k]);
            }
        }
    }
}

proof fn lemma_insert_shown(old: Seq<&CrdtItem>, nv: Seq<&CrdtItem>, pos: int, items: Seq<CrdtItem>, n: int, x: &CrdtItem, f: ItemFilter)
    requires
        collected(old, items, n, f),
        filter_shows(f, x@),
        0 <= pos <= old.len(),
        nv == old.insert(pos, x),
    ensures
        forall|k: int| 0 <= k < nv.len() ==> filter_shows(f, (#[trigger] nv[k])@),
{
    assert forall|k: int| 0 <= k < nv.len() implies filter_shows(f, (#[trigger] nv[k])@) by {
        if k < pos {
            assert(nv[k] == old[k]);
        } else if k > pos {
            assert(nv[k] == old[k - 1]);
        } else {
            assert(nv[k] == x);
        }
    }
}

proof fn lemma_collected_insert(old: Seq<&CrdtItem>, nv: Seq<&CrdtItem>, pos: int, items: Seq<CrdtItem>, n: int, f: ItemFilter)
    requires
        collected(old, items, n, f),
        0 <= n < items.len(),
        filter_shows(f, items[n]@),
        0 <= pos <= old.len(),
        nv == old.insert(pos, &items[n]),
    ensures
        collected(nv, items, n + 1, f),
{
    lemma_insert_from(old, nv, pos, items, n, f);
    lemma_insert_keeps(old, nv, pos, items, n, f);
    lemma_insert_shown(old, nv, pos, items, n, &items[n], f);
}

proof fn lemma_collected_skip(out: Seq<&CrdtItem>, items: Seq<CrdtItem>, n: int, f: ItemFilter)
    requires
        collected(out, items, n, f),
        0 <= n < items.len(),
        !filter_shows(f, items[n]@),
    ensures
        collected(out, items, n + 1, f),
{
    assert forall|k: int| 0 <= k < out.len() implies exists|q: int| 0 <= q < n + 1 && #[trigger] out[k] == items[q] by {
        let q = choose|q: int| 0 <= q < n && #[trigger] out[k] == items[q];
    }
}

proof fn lemma_collected_done(out: Seq<&CrdtItem>, items: Seq<CrdtItem>, f: ItemFilter)
    requires
        collected(out, items, items.len() as int, f),
        refs_sorted(out),
        item_ids_unique(items),
    ensures
        shows_exactly(item_map(items), |i: ItemRec| filter_shows(f, i), item_refs_view(out)),
{
    let r = item_refs_view(out);
    let m = item_map(items);
    assert forall|k: int| 0 <= k < r.len() implies m.contains_key(#[trigger] r[k].id) && m[r[k].id] == r[k] && filter_shows(f, r[k]) by {
        let q = choose|q: int| 0 <= q < items.len() && #[trigger] out[k] == items[q];
        lemma_item_map_entry(items, q);
        assert(r[k] == out[k]@);
    }
    assert forall|id: Seq<char>| #[trigger] m.contains_key(id) && filter_shows(f, m[id]) implies exists|k: int| 0 <= k < r.len() && r[k].id == id by {
        lemma_item_map_key(items, id);
        let q = choose|q: int| 0 <= q < items.len() && (#[trigger] items[q]).id@ == id;
        lemma_item_map_entry(items, q);
        let k = choose|k: int| 0 <= k < out.len() && out[k] == items[q];
        assert(r[k] == out[k]@);
    }
    assert forall|a: int, b: int| 0 <= a < b < r.len() implies item_before(#[trigger] r[a], #[trigger] r[b]) by {
        assert(r[a] == out[a]@ && r[b] == out[b]@);
    }
}

pub open spec fn refs_sorted(v: Seq<&CrdtItem>) -> bool {
    forall|a: int, b: int| 0 <= a < b < v.len() ==> item_before(#[trigger] v[a]@, #[trigger] v[b]@)
}

/// Inserts `it` where display order puts it.
fn insert_sorted<'a>(out: &mut Vec<&'a CrdtItem>, it: &'a CrdtItem)
    requires
        refs_sorted(old(out)@),
        forall|k: int| 0 <= k < old(out)@.len() ==> (#[trigger] old(out)@[k])@.id != it@.id,
    ensures
        refs_sorted(final(out)@),
        exists|pos: int| 0 <= pos <= old(out)@.len() && final(out)@ == old(out)@.insert(pos, it),
{
    let mut pos: usize = 0;
    while pos < out.len() && !item_before_exec(it, out[pos])
        invariant
            pos <= out.len(),
            forall|q: int| 0 <= q < pos ==> !item_before(it@, #[trigger] out@[q]@),
        decreases out.len() - pos,
    {
        pos = pos + 1;
    }
    let ghost old = out@;
    out.insert(pos, it);
    let ghost nv = out@;
    assert(nv == old.insert(pos as int, it));
    assert forall|a: int, b: int| 0 <= a < b < nv.len() implies item_before(#[trigger] nv[a]@, #[trigger] nv[b]@) by {
        let x = it@;
        if b < pos {
            assert(nv[a] == old[a] && nv[b] == old[b]);
        } else if b == pos {
            assert(nv[a] == old[a]);
            lemma_before_order(old[a]@.id, x.id, x.id);
        } else if a < pos {
            assert(nv[a] == old[a] && nv[b] == old[b - 1]);
        } else if a == pos {
            assert(nv[b] == old[b - 1]);
            assert(item_before(x, old[pos as int]@));
            if b - 1 > pos {
                assert(item_before(old[pos as int]@, old[b - 1]@));
                lemma_before_order(x.id, old[pos as int]@.id, old[b - 1]@.id);
            }
        } else {
            assert(nv[a] == old[a - 1] && nv[b] == old[b - 1]);
        }
    }
}

impl CrdtDocument {
    /// The items that the filter shows, in display order.
    pub fn items_shown(&self, f: &ItemFilter) -> (r: Vec<&CrdtItem>)
        requires
            self.wf(),
        ensures
            shows_exactly(self@.items, |i: ItemRec| filter_shows(*f, i), item_refs_view(r@)),
    {
        let mut out: Vec<&CrdtItem> = Vec::new();
        let mut n: usize = 0;
        while n < self.items.len()
            invariant
                n <= self.items.len(),
                self.wf(),
                collected(out@, self.items@, n as int, *f),
                refs_sorted(out@),
            decreases self.items.len() - n,
        {
            let it = &self.items[n];
            let ghost old = out@;
            if filter_shows_exec(f, it) {
                proof {
                    lemma_collected_fresh(old, self.items@, n as int, *f);
                }
                insert_sorted(&mut out, it);
                proof {
                    let pos = choose|pos: int| 0 <= pos <= old.len() && out@ == old.insert(pos, it);
                    lemma_collected_insert(old, out@, pos, self.items@, n as int, *f);
                }
            } else {
                proof {
                    lemma_collected_skip(old, self.items@, n as int, *f);
                }
            }
            n = n + 1;
        }
        proof {
            lemma_collected_done(out@, self.items@, *f);
        }
        out
    }

    /// The items of a list, in display order.
    pub fn items_for_list(&self, list_id: &str) -> (r: Vec<&CrdtItem>)
        requires
            self.wf(),
        ensures
            item_refs_view(r@) == list_rows(self@.items, list_id@),
            shows_exactly(self@.items, |i: ItemRec| !i.archived && i.list_id == Some(list_id@), item_refs_view(r@)),
    {
        let f = ItemFilter::InList(list_id.to_owned());
        let r = self.items_shown(&f);
        assert((|i: ItemRec| filter_shows(f, i)) == (|i: ItemRec| !i.archived && i.list_id == Some(list_id@)));
        proof {
            lemma_shown_items(self@.items, |i: ItemRec| !i.archived && i.list_id == Some(list_id@), item_refs_view(r@));
        }
        r
    }

    /// The items that carry a tag, in display order.
    pub fn items_for_tag(&self, tag: &str) -> (r: Vec<&CrdtItem>)
        requires
            self.wf(),
        ensures
            item_refs_view(r@) == tag_rows(self@.items, tag@),
            shows_exactly(self@.items, |i: ItemRec| !i.archived && i.tags.contains(tag@), item_refs_view(r@)),
    {
        let f = ItemFilter::WithTag(tag.to_owned());
        let r = self.items_shown(&f);
        assert((|i: ItemRec| filter_shows(f, i)) == (|i: ItemRec| !i.archived && i.tags.contains(tag@)));
        proof {
            lemma_shown_items(self@.items, |i: ItemRec| !i.archived && i.tags.contains(tag@), item_refs_view(r@));
        }
        r
    }

    /// The items that belong to no list, in display order.
    pub fn unassigned_items(&self) -> (r: Vec<&CrdtItem>)
        requires
            self.wf(),
        ensures
            item_refs_view(r@) == unassigned_rows(self@.items),
            shows_exactly(self@.items, |i: ItemRec| !i.archived && i.list_id is None, item_refs_view(r@)),
    {
        let f = ItemFilter::Unassigned;
        let r = self.items_shown(&f);
        assert((|i: ItemRec| filter_shows(f, i)) == (|i: ItemRec| !i.archived && i.list_id is None));
        proof {
            lemma_shown_items(self@.items, |i: ItemRec| !i.archived && i.list_id is None, item_refs_view(r@));
        }
        r
    }
}

/// The items of `m` that satisfy `p`, each once, in display order.
pub open spec fn shown_items(m: Map<Seq<char>, ItemRec>, p: spec_fn(ItemRec) -> bool) -> Seq<ItemRec> {
    choose|r: Seq<ItemRec>| shows_exactly(m, p, r)
}

/// The items of the list with this id, archived ones left out, in display
/// order.
pub open spec fn list_rows(m: Map<Seq<char>, ItemRec>, list_id: Seq<char>) -> Seq<ItemRec> {
    shown_items(m, |i: ItemRec| !i.archived && i.list_id == Some(list_id))
}

/// The items that carry this tag, archived ones left out, in display order.
pub open spec fn tag_rows(m: Map<Seq<char>, ItemRec>, tag: Seq<char>) -> Seq<ItemRec> {
    shown_items(m, |i: ItemRec| !i.archived && i.tags.contains(tag))
}

/// The items without a list, archived ones left out, in display order.
pub open spec fn unassigned_rows(m: Map<Seq<char>, ItemRec>) -> Seq<ItemRec> {
    shown_items(m, |i: ItemRec| !i.archived && i.list_id is None)
}

proof fn lemma_item_order()
    ensures
        strict_order(|a: ItemRec, b: ItemRec| item_before(a, b)),
{
    assert forall|x: ItemRec| !item_before(x, x) by {
        lemma_before_order(x.id, x.id, x.id);
    }
    assert forall|x: ItemRec, y: ItemRec| item_before(x, y) implies !item_before(y, x) by {
        lemma_before_order(x.id, y.id, y.id);
    }
}

/// Display order is a function of the items: two sequences that each
/// show exactly the items of `m` that satisfy `p` are equal.
pub proof fn lemma_shows_unique(m: Map<Seq<char>, ItemRec>, p: spec_fn(ItemRec) -> bool, r1: Seq<ItemRec>, r2: Seq<ItemRec>)
    requires
        shows_exactly(m, p, r1),
        shows_exactly(m, p, r2),
    ensures
        r1 == r2,
{
    lemma_item_order();
    let lt = |a: ItemRec, b: ItemRec| item_before(a, b);
    assert forall|x: ItemRec| r1.contains(x) implies r2.contains(x) by {
        let k = choose|k: int| 0 <= k < r1.len() && r1[k] == x;
        assert(m.contains_key(r1[k].id) && p(m[x.id]));
        let q = choose|q: int| 0 <= q < r2.len() && r2[q].id == x.id;
        assert(r2[q] == m[r2[q].id]);
    }
    assert forall|x: ItemRec| r2.contains(x) implies r1.contains(x) by {
        let k = choose|k: int| 0 <= k < r2.len() && r2[k] == x;
        assert(m.contains_key(r2[k].id) && p(m[x.id]));
        let q = choose|q: int| 0 <= q < r1.len() && r1[q].id == x.id;
        assert(r1[q] == m[r1[q].id]);
    }
    assert(strictly_sorted(r1, lt));
    assert(strictly_sorted(r2, lt));
    lemma_sorted_unique(r1, r2, lt);
}

pub proof fn lemma_shown_items(m: Map<Seq<char>, ItemRec>, p: spec_fn(ItemRec) -> bool, r: Seq<ItemRec>)
    requires
        shows_exactly(m, p, r),
    ensures
        shown_items(m, p) == r,
{
    lemma_shows_unique(m, p, shown_items(m, p), r);
}


pub open spec fn list_refs_sorted(v: Seq<&CrdtList>) -> bool {
    forall|a: int, b: int| 0 <= a < b < v.len() ==> list_before(#[trigger] v[a]@, #[trigger] v[b]@)
}

/// `out` holds each of the first `n` lists once.
pub open spec fn lists_collected(out: Seq<&CrdtList>, lists: Seq<CrdtList>, n: int) -> bool {
    &&& forall|k: int| 0 <= k < out.len() ==> exists|q: int| 0 <= q < n && #[trigger] out[k] == lists[q]
    &&& forall|q: int| 0 <= q < n ==> exists|k: int| 0 <= k < out.len() && out[k] == #[trigger] lists[q]
}

fn insert_sorted_list<'a>(out: &mut Vec<&'a CrdtList>, it: &'a CrdtList)
    requires
        list_refs_sorted(old(out)@),
        forall|k: int| 0 <= k < old(out)@.len() ==> (#[trigger] old(out)@[k])@.id != it@.id,
    ensures
        list_refs_sorted(final(out)@),
        exists|pos: int| 0 <= pos <= old(out)@.len() && final(out)@ == old(out)@.insert(pos, it),
{
    let mut pos: usize = 0;
    while pos < out.len() && !list_before_exec(it, out[pos])
        invariant
            pos <= out.len(),
            forall|q: int| 0 <= q < pos ==> !list_before(it@, #[trigger] out@[q]@),
        decreases out.len() - pos,
    {
        pos = pos + 1;
    }
    let ghost old = out@;
    out.insert(pos, it);
    let ghost nv = out@;
    assert(nv == old.insert(pos as int, it));
    assert forall|a: int, b: int| 0 <= a < b < nv.len() implies list_before(#[trigger] nv[a]@, #[trigger] nv[b]@) by {
        let x = it@;
        if b < pos {
            assert(nv[a] == old[a] && nv[b] == old[b]);
        } else if b == pos {
            assert(nv[a] == old[a]);
            lemma_before_order(old[a]@.id, x.id, x.id);
        } else if a < pos {
            assert(nv[a] == old[a] && nv[b] == old[b - 1]);
        } else if a == pos {
            assert(nv[b] == old[b - 1]);
            assert(list_before(x, old[pos as int]@));
            if b - 1 > pos {
                assert(list_before(old[pos as int]@, old[b - 1]@));
                lemma_before_order(x.id, old[pos as int]@.id, old[b - 1]@.id);
            }
        } else {
            assert(nv[a] == old[a - 1] && nv[b] == old[b - 1]);
        }
    }
}

proof fn lemma_lists_collected_insert(old: Seq<&CrdtList>, nv: Seq<&CrdtList>, pos: int, lists: Seq<CrdtList>, n: int)
    requires
        lists_collected(old, lists, n),
        0 <= n < lists.len(),
        0 <= pos <= old.len(),
        nv == old.insert(pos, &lists[n]),
    ensures
        lists_collected(nv, lists, n + 1),
{
    assert forall|k: int| 0 <= k < nv.len() implies exists|q: int| 0 <= q < n + 1 && #[trigger] nv[k] == lists[q] by {
        if k < pos {
            assert(nv[k] == old[k]);
            let q = choose|q: int| 0 <= q < n && #[trigger] old[k] == lists[q];
            assert(nv[k] == lists[q]);
        } else if k > pos {
            assert(nv[k] == old[k - 1]);
            let q = choose|q: int| 0 <= q < n && #[trigger] old[k - 1] == lists[q];
            assert(nv[k] == lists[q]);
        } else {
            assert(nv[k] == lists[n]);
        }
    }
    assert forall|q: int| 0 <= q < n + 1 implies exists|k: int| 0 <= k < nv.len() && nv[k] == #[trigger] lists[q] by {
        if q == n {
            assert(nv[pos] == lists[n]);
        } else {
            let k = choose|k: int| 0 <= k < old.len() && old[k] == lists[q];
            if k < pos {
                assert(nv[k] == old[k]);
            } else {
                assert(nv[k + 1] == old[k]);
            }
        }
    }
}

impl CrdtDocument {
    /// The lists in display order.
    pub fn ordered_lists(&self) -> (r: Vec<&CrdtList>)
        requires
            self.wf(),
        ensures
            lists_exactly(self@.lists, list_refs_view(r@)),
            list_refs_view(r@) == doc_lists(self@.lists),
    {
        let mut out: Vec<&CrdtList> = Vec::new();
        let mut n: usize = 0;
        while n < self.lists.len()
            invariant
                n <= self.lists.len(),
                self.wf(),
                lists_collected(out@, self.lists@, n as int),
                list_refs_sorted(out@),
            decreases self.lists.len() - n,
        {
            let it = &self.lists[n];
            let ghost old = out@;
            proof {
                assert forall|k: int| 0 <= k < old.len() implies (#[trigger] old[k])@.id != it@.id by {
                    let q = choose|q: int| 0 <= q < n && #[trigger] old[k] == self.lists@[q];
                    assert(self.lists@[q].id@ != self.lists@[n as int].id@);
                }
            }
            insert_sorted_list(&mut out, it);
            proof {
                let pos = choose|pos: int| 0 <= pos <= old.len() && out@ == old.insert(pos, it);
                lemma_lists_collected_insert(old, out@, pos, self.lists@, n as int);
            }
            n = n + 1;
        }
        let ghost r = list_refs_view(out@);
        proof {
            let m = self@.lists;
            let ls = self.lists@;
            assert forall|k: int| 0 <= k < r.len() implies m.contains_key(#[trigger] r[k].id) && m[r[k].id] == r[k] by {
                let q = choose|q: int| 0 <= q < ls.len() && #[trigger] out@[k] == ls[q];
                lemma_list_map_entry(ls, q);
                assert(r[k] == out@[k]@);
            }
            assert forall|id: Seq<char>| #[trigger] m.contains_key(id) implies exists|k: int| 0 <= k < r.len() && r[k].id == id by {
                lemma_list_map_key(ls, id);
                let q = choose|q: int| 0 <= q < ls.len() && (#[trigger] ls[q]).id@ == id;
                let k = choose|k: int| 0 <= k < out@.len() && out@[k] == ls[q];
                assert(r[k] == out@[k]@);
            }
            assert forall|a: int, b: int| 0 <= a < b < r.len() implies list_before(#[trigger] r[a], #[trigger] r[b]) by {
                assert(r[a] == out@[a]@ && r[b] == out@[b]@);
            }
            assert(lists_exactly(m, r));
            lemma_lists_unique(m, doc_lists(m), r);
        }
        out
    }
}

/// The lists of `m`, each once, in display order.
pub open spec fn doc_lists(m: Map<Seq<char>, ListRec>) -> Seq<ListRec> {
    choose|r: Seq<ListRec>| lists_exactly(m, r)
}

/// Two sequences that each hold exactly the lists of `m` in display order
/// are equal.
pub proof fn lemma_lists_unique(m: Map<Seq<char>, ListRec>, r1: Seq<ListRec>, r2: Seq<ListRec>)
    requires
        lists_exactly(m, r1),
        lists_exactly(m, r2),
    ensures
        r1 == r2,
{
    let lt = |a: ListRec, b: ListRec| list_before(a, b);
    assert forall|x: ListRec| !list_before(x, x) by {
        lemma_before_order(x.id, x.id, x.id);
    }
    assert forall|x: ListRec, y: ListRec| list_before(x, y) implies !list_before(y, x) by {
        lemma_before_order(x.id, y.id, y.id);
    }
    assert forall|x: ListRec| r1.contains(x) implies r2.contains(x) by {
        let k = choose|k: int| 0 <= k < r1.len() && r1[k] == x;
        assert(m.contains_key(r1[k].id));
        let q = choose|q: int| 0 <= q < r2.len() && r2[q].id == x.id;
        assert(r2[q] == m[r2[q].id]);
    }
    assert forall|x: ListRec| r2.contains(x) implies r1.contains(x) by {
        let k = choose|k: int| 0 <= k < r2.len() && r2[k] == x;
        assert(m.contains_key(r2[k].id));
        let q = choose|q: int| 0 <= q < r1.len() && r1[q].id == x.id;
        assert(r1[q] == m[r1[q].id]);
    }
    assert(strictly_sorted(r1, lt));
    assert(strictly_sorted(r2, lt));
    lemma_sorted_unique(r1, r2, lt);
}

} // verus!
