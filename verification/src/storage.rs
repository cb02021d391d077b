use vstd::prelude::*;

use crate::model::{items_view, strings_view, ItemV, ListType, ListV, TodoItem, TodoList};
use crate::text::{
    all_digits, alphanumeric, chars_of, decimal, decimal_chars, digit_char, digit_value,
    digits_value, ends_with, eq_chars, has_prefix, has_suffix, is_alphanumeric, is_ascii_digit, is_ws, join,
    join_chars, lemma_join_last, lemma_join_push, lemma_words_concat, lemma_words_elements,
    lemma_lines_append, lemma_lines_cons, lemma_lines_single, lemma_trim_keeps, lemma_words_join,
    lemma_words_single, lemma_word_len, lemma_line_len, line_len, word_len, lines, no_newline, no_ws, strip_cr, push_all, push_str, split_lines, split_whitespace, starts_with,
    string_of, sub_chars, to_lowercase, lowercase, trim, trim_chars, trim_end, trim_end_chars,
    trim_start, trim_start_chars, views, words,
};

verus! {

// ---------------------------------------------------------------------------
// Tags
// ---------------------------------------------------------------------------

pub open spec fn is_tag_char(c: char) -> bool {
    alphanumeric(c) || c == '_' || c == '-'
}

/// A word that marks a tag: `@` followed by at least one letter, digit, `_`
/// or `-`.
pub open spec fn is_tag_word(w: Seq<char>) -> bool {
    &&& w.len() > 1
    &&& w[0] == '@'
    &&& forall|j: int| 1 <= j < w.len() ==> is_tag_char(#[trigger] w[j])
}

/// The number of tag words at the end of `ws`, counted from the right up to
/// the first word that is not a tag.
pub open spec fn trailing_tags(ws: Seq<Seq<char>>) -> nat
    decreases ws.len(),
{
    if ws.len() > 0 && is_tag_word(ws.last()) {
        1 + trailing_tags(ws.drop_last())
    } else {
        0
    }
}

pub open spec fn space() -> Seq<char> {
    seq![' ']
}

pub open spec fn drop_at(w: Seq<char>) -> Seq<char> {
    w.drop_first()
}

/// The title (the words before the trailing tags, joined by single spaces)
/// and the tags (the trailing tag words without their `@`) of `text`.
pub open spec fn extract_tags_spec(text: Seq<char>) -> (Seq<char>, Seq<Seq<char>>) {
    let ws = words(text);
    let split = ws.len() - trailing_tags(ws);
    (join(ws.take(split), space()), ws.skip(split).map_values(|w: Seq<char>| drop_at(w)))
}

fn is_tag_word_exec(w: &Vec<char>) -> (b: bool)
    ensures
        b == is_tag_word(w@),
{
    if w.len() <= 1 || w[0] != '@' {
        return false;
    }
    let mut j: usize = 1;
    while j < w.len()
        invariant
            1 <= j <= w.len(),
            forall|k: int| 1 <= k < j ==> is_tag_char(#[trigger] w@[k]),
        decreases w.len() - j,
    {
        let c = w[j];
        if !(is_alphanumeric(c) || c == '_' || c == '-') {
            return false;
        }
        j = j + 1;
    }
    true
}

proof fn lemma_trailing_tags(ws: Seq<Seq<char>>, k: int)
    requires
        0 <= k <= ws.len(),
        forall|j: int| ws.len() - k <= j < ws.len() ==> is_tag_word(#[trigger] ws[j]),
        k == ws.len() || !is_tag_word(ws[ws.len() - k - 1]),
    ensures
        trailing_tags(ws) == k,
    decreases k,
{
    if k > 0 {
        let d = ws.drop_last();
        assert forall|j: int| d.len() - (k - 1) <= j < d.len() implies is_tag_word(#[trigger] d[j]) by {
            assert(d[j] == ws[j]);
        }
        if k - 1 != d.len() {
            assert(d[d.len() - (k - 1) - 1] == ws[ws.len() - k - 1]);
        }
        lemma_trailing_tags(d, k - 1);
    }
}

proof fn lemma_trailing_tags_facts(ws: Seq<Seq<char>>)
    ensures
        trailing_tags(ws) <= ws.len(),
        forall|j: int| ws.len() - trailing_tags(ws) <= j < ws.len() ==> is_tag_word(#[trigger] ws[j]),
        trailing_tags(ws) == ws.len() || !is_tag_word(ws[ws.len() - trailing_tags(ws) - 1]),
    decreases ws.len(),
{
    if ws.len() > 0 && is_tag_word(ws.last()) {
        let d = ws.drop_last();
        lemma_trailing_tags_facts(d);
        assert forall|j: int| ws.len() - trailing_tags(ws) <= j < ws.len() implies is_tag_word(#[trigger] ws[j]) by {
            if j < ws.len() - 1 {
                assert(ws[j] == d[j]);
            }
        }
        if trailing_tags(ws) < ws.len() {
            assert(ws[ws.len() - trailing_tags(ws) - 1] == d[d.len() - trailing_tags(d) - 1]);
        }
    }
}

/// The tags of a text are its trailing tag words without their `@`, in
/// order; the title is the words before them joined by single spaces; and
/// the word just before them, if there is one, is no tag word.
pub proof fn law_extract_tags(text: Seq<char>)
    ensures
        ({
            let ws = words(text);
            let r = extract_tags_spec(text);
            let k = ws.len() - r.1.len();
            &&& 0 <= k <= ws.len()
            &&& r.0 == join(ws.take(k), space())
            &&& forall|j: int| k <= j < ws.len() ==> is_tag_word(#[trigger] ws[j]) && r.1[j - k] == ws[j].drop_first()
            &&& (k == 0 || !is_tag_word(ws[k - 1]))
        }),
{
    let ws = words(text);
    lemma_trailing_tags_facts(ws);
    let split = ws.len() - trailing_tags(ws);
    let r = extract_tags_spec(text);
    assert(r.1.len() == trailing_tags(ws));
    assert forall|j: int| split <= j < ws.len() implies is_tag_word(#[trigger] ws[j]) && r.1[j - split] == ws[j].drop_first() by {
        assert(ws.skip(split)[j - split] == ws[j]);
    }
}

fn drop_first_char(w: &Vec<char>) -> (r: Vec<char>)
    requires
        w.len() > 0,
    ensures
        r@ == w@.drop_first(),
{
    assert(w@.drop_first() == w@.subrange(1, w.len() as int));
    sub_chars(w, 1, w.len())
}

fn extract_tags_chars(text: &Vec<char>) -> (r: (Vec<char>, Vec<Vec<char>>))
    ensures
        r.0@ == extract_tags_spec(text@).0,
        views(r.1@) == extract_tags_spec(text@).1,
{
    let ws = split_whitespace(text);
    let mut k: usize = 0;
    while k < ws.len() && is_tag_word_exec(&ws[ws.len() - 1 - k])
        invariant
            k <= ws.len(),
            views(ws@) == words(text@),
            forall|j: int| ws.len() - k <= j < ws.len() ==> is_tag_word(#[trigger] views(ws@)[j]),
        decreases ws.len() - k,
    {
        assert(views(ws@)[ws.len() - 1 - k] == ws@[ws.len() - 1 - k]@);
        k = k + 1;
    }
    proof {
        if k < ws.len() {
            assert(views(ws@)[ws.len() - k - 1] == ws@[ws.len() - k - 1]@);
        }
        lemma_trailing_tags(views(ws@), k as int);
    }
    let split = ws.len() - k;
    let mut head: Vec<Vec<char>> = Vec::new();
    let mut tags: Vec<Vec<char>> = Vec::new();
    let mut i: usize = 0;
    while i < ws.len()
        invariant
            i <= ws.len(),
            split <= ws.len(),
            views(ws@) == words(text@),
            forall|j: int| split <= j < ws.len() ==> is_tag_word(#[trigger] views(ws@)[j]),
            views(head@) == views(ws@).take(if i < split { i as int } else { split as int }),
            views(tags@) == views(ws@).subrange(split as int, if i < split { split as int } else { i as int }).map_values(|w: Seq<char>| drop_at(w)),
        decreases ws.len() - i,
    {
        let ghost vh = views(head@);
        let ghost vt = views(tags@);
        if i < split {
            let w = sub_chars(&ws[i], 0, ws[i].len());
            assert(w@ == ws@[i as int]@);
            head.push(w);
            assert(views(head@) == vh.push(ws@[i as int]@));
            assert(views(ws@).take(i + 1) == views(ws@).take(i as int).push(views(ws@)[i as int]));
            if i + 1 == split {
                assert(views(ws@).subrange(split as int, split as int) == views(ws@).subrange(split as int, (i + 1) as int));
            }
        } else {
            assert(is_tag_word(views(ws@)[i as int]));
            assert(views(ws@)[i as int] == ws@[i as int]@);
            tags.push(drop_first_char(&ws[i]));
            assert(views(tags@) == vt.push(drop_at(ws@[i as int]@)));
            assert(views(ws@).subrange(split as int, i + 1) == views(ws@).subrange(split as int, i as int).push(views(ws@)[i as int]));
        }
        i = i + 1;
    }
    assert(views(ws@).subrange(split as int, ws.len() as int) == views(ws@).skip(split as int));
    let sep = vec![' '];
    assert(sep@ == space());
    let title = join_chars(&head, &sep);
    (title, tags)
}

fn strings_of(vs: &Vec<Vec<char>>) -> (r: Vec<String>)
    ensures
        strings_view(r@) == views(vs@),
{
    let mut r: Vec<String> = Vec::new();
    let mut i: usize = 0;
    while i < vs.len()
        invariant
            i <= vs.len(),
            strings_view(r@) == views(vs@).take(i as int),
        decreases vs.len() - i,
    {
        let ghost old_r = r@;
        r.push(string_of(vs[i].as_slice()));
        assert(strings_view(r@) == strings_view(old_r).push(vs@[i as int]@));
        assert(views(vs@).take(i + 1) == views(vs@).take(i as int).push(views(vs@)[i as int]));
        i = i + 1;
    }
    assert(views(vs@).take(vs.len() as int) == views(vs@));
    r
}

/// Splits `text` into its title and its trailing `@tag` words.
pub fn extract_tags_pub(text: &str) -> (r: (String, Vec<String>))
    ensures
        r.0@ == extract_tags_spec(text@).0,
        strings_view(r.1@) == extract_tags_spec(text@).1,
{
    let v = chars_of(text);
    let (title, tags) = extract_tags_chars(&v);
    (string_of(title.as_slice()), strings_of(&tags))
}

} // verus!

verus! {

// ---------------------------------------------------------------------------
// Durations such as `1h30m`
// ---------------------------------------------------------------------------

/// The state after reading a prefix of a duration: hours, minutes and seconds
/// seen so far, and the digits read since the last unit letter.
pub struct TimeScan {
    pub h: nat,
    pub m: nat,
    pub s: nat,
    pub buf: Seq<char>,
}

pub open spec fn time_step(st: TimeScan, c: char) -> Option<TimeScan> {
    if is_ascii_digit(c) {
        Some(TimeScan { buf: st.buf.push(c), ..st })
    } else if c == 'h' || c == 'm' || c == 's' {
        if st.buf.len() == 0 || digits_value(st.buf) > u64::MAX {
            None
        } else {
            let v = digits_value(st.buf);
            if c == 'h' {
                Some(TimeScan { h: v, buf: seq![], ..st })
            } else if c == 'm' {
                Some(TimeScan { m: v, buf: seq![], ..st })
            } else {
                Some(TimeScan { s: v, buf: seq![], ..st })
            }
        }
    } else {
        None
    }
}

/// Reads a duration left to right: each run of digits is closed by a unit
/// letter `h`, `m` or `s`, which sets that field (a later one wins).
pub open spec fn time_scan(s: Seq<char>) -> Option<TimeScan>
    decreases s.len(),
{
    if s.len() == 0 {
        Some(TimeScan { h: 0, m: 0, s: 0, buf: seq![] })
    } else {
        match time_scan(s.drop_last()) {
            None => None,
            Some(st) => time_step(st, s.last()),
        }
    }
}

/// The number of seconds that the text `s` denotes, if it is a duration.
pub open spec fn time_value(s: Seq<char>) -> Option<nat> {
    if s.len() == 0 {
        None
    } else {
        match time_scan(s) {
            None => None,
            Some(st) => if st.buf.len() > 0 || (st.h == 0 && st.m == 0 && st.s == 0) {
                None
            } else {
                Some(st.h * 3600 + st.m * 60 + st.s)
            },
        }
    }
}

/// The duration that `s` denotes, if any, fits in a `u64`.
pub open spec fn time_fits(s: Seq<char>) -> bool {
    match time_value(s) {
        Some(v) => v <= u64::MAX,
        None => true,
    }
}

pub open spec fn time_part_text(n: nat, unit: char) -> Seq<char> {
    if n == 0 {
        seq![]
    } else {
        decimal(n).push(unit)
    }
}

/// The text of a duration: hours, minutes and seconds, each only when it is
/// not zero; the empty text for zero.
pub open spec fn time_text(secs: nat) -> Seq<char> {
    if secs == 0 {
        seq![]
    } else {
        time_part_text(secs / 3600, 'h') + time_part_text((secs % 3600) / 60, 'm')
            + time_part_text(secs % 60, 's')
    }
}

proof fn lemma_time_scan_none(s: Seq<char>, i: int)
    requires
        0 <= i <= s.len(),
        time_scan(s.take(i)) is None,
    ensures
        time_scan(s) is None,
    decreases s.len() - i,
{
    if i == s.len() {
        assert(s.take(i) == s);
    } else {
        assert(s.take(i + 1).drop_last() == s.take(i));
        lemma_time_scan_none(s, i + 1);
    }
}

proof fn lemma_digits_value_grows(p: Seq<char>, r: Seq<char>)
    ensures
        digits_value(p + r) >= digits_value(p),
    decreases r.len(),
{
    if r.len() > 0 {
        assert((p + r).drop_last() == p + r.drop_last());
        lemma_digits_value_grows(p, r.drop_last());
    } else {
        assert(p + r == p);
    }
}

/// Reads a run of decimal digits into a `u64`; `None` when it is empty or
/// too large.
fn parse_u64(d: &Vec<char>) -> (r: Option<u64>)
    requires
        all_digits(d@),
    ensures
        r == (if d@.len() == 0 || digits_value(d@) > u64::MAX { None } else { Some(
            digits_value(d@) as u64,
        ) }),
{
    if d.len() == 0 {
        return None;
    }
    let mut v: u64 = 0;
    let mut i: usize = 0;
    while i < d.len()
        invariant
            i <= d.len(),
            all_digits(d@),
            v == digits_value(d@.take(i as int)),
        decreases d.len() - i,
    {
        let c = d[i];
        let dv = (c as u32 - '0' as u32) as u64;
        assert(d@.take(i + 1).drop_last() == d@.take(i as int));
        assert(is_ascii_digit(d@[i as int]));
        if v > (u64::MAX - dv) / 10 {
            proof {
                assert(digits_value(d@.take(i + 1)) > u64::MAX) by (nonlinear_arith)
                    requires
                        digits_value(d@.take(i + 1)) == v * 10 + dv,
                        v > (u64::MAX - dv) / 10,
                        dv <= 9,
                ;
                assert(d@.take(i + 1) + d@.skip(i + 1) == d@);
                lemma_digits_value_grows(d@.take(i + 1), d@.skip(i + 1));
            }
            return None;
        }
        assert(v * 10 + dv <= u64::MAX) by (nonlinear_arith)
            requires
                v <= (u64::MAX - dv) / 10,
                dv <= 9,
        ;
        v = v * 10 + dv;
        i = i + 1;
    }
    assert(d@.take(d.len() as int) == d@);
    Some(v)
}

/// Whether the duration in `s`, if any, fits in a `u64`.
pub fn time_fits_str(s: &str) -> (b: bool)
    ensures
        b == time_fits(s@),
{
    time_value_exec(s).0
}

fn time_value_exec(s: &str) -> (r: (bool, Option<u64>))
    ensures
        r.0 == time_fits(s@),
        r.0 ==> r.1 == (match time_value(s@) { Some(v) => Some(v as u64), None => None }),
{
    let v = chars_of(s);
    if v.len() == 0 {
        return (true, None);
    }
    let mut h: u64 = 0;
    let mut m: u64 = 0;
    let mut sec: u64 = 0;
    let mut buf: Vec<char> = Vec::new();
    let mut i: usize = 0;
    while i < v.len()
        invariant
            i <= v.len(),
            v@ == s@,
            all_digits(buf@),
            time_scan(v@.take(i as int)) == Some(TimeScan { h: h as nat, m: m as nat, s: sec as nat, buf: buf@ }),
        decreases v.len() - i,
    {
        let c = v[i];
        assert(v@.take(i + 1).drop_last() == v@.take(i as int));
        assert(v@.take(i + 1).last() == c);
        if '0' <= c && c <= '9' {
            buf.push(c);
        } else if c == 'h' || c == 'm' || c == 's' {
            match parse_u64(&buf) {
                None => {
                    proof {
                        lemma_time_scan_none(v@, i + 1);
                    }
                    return (true, None);
                }
                Some(n) => {
                    if c == 'h' {
                        h = n;
                    } else if c == 'm' {
                        m = n;
                    } else {
                        sec = n;
                    }
                    buf = Vec::new();
                }
            }
        } else {
            proof {
                lemma_time_scan_none(v@, i + 1);
            }
            return (true, None);
        }
        i = i + 1;
    }
    assert(v@.take(v.len() as int) == v@);
    if buf.len() > 0 {
        return (true, None);
    }
    if h == 0 && m == 0 && sec == 0 {
        return (true, None);
    }
    let total: u128 = h as u128 * 3600 + m as u128 * 60 + sec as u128;
    if total > u64::MAX as u128 {
        return (false, None);
    }
    (true, Some(total as u64))
}

/// Reads a duration such as `45m`, `1h30m` or `30s`; `None` when the text is
/// empty, holds anything but digit runs each closed by `h`, `m` or `s`, or
/// comes to zero.
pub fn parse_time_str(s: &str) -> (r: Option<u64>)
    requires
        time_fits(s@),
    ensures
        r == (match time_value(s@) { Some(v) => Some(v as u64), None => None }),
{
    time_value_exec(s).1
}

fn push_time_part(out: &mut Vec<char>, n: u64, unit: char)
    ensures
        final(out)@ == old(out)@ + time_part_text(n as nat, unit),
{
    if n > 0 {
        let d = decimal_chars(n);
        push_all(out, &d);
        out.push(unit);
        assert(final(out)@ == old(out)@ + decimal(n as nat).push(unit));
    } else {
        assert(old(out)@ + Seq::<char>::empty() == old(out)@);
    }
}

fn format_time_chars(secs: u64) -> (r: Vec<char>)
    ensures
        r@ == time_text(secs as nat),
{
    let mut out: Vec<char> = Vec::new();
    if secs == 0 {
        return out;
    }
    push_time_part(&mut out, secs / 3600, 'h');
    push_time_part(&mut out, (secs % 3600) / 60, 'm');
    push_time_part(&mut out, secs % 60, 's');
    out
}

/// The duration `secs` as text, such as `1h30m`; empty for zero.
pub fn format_time(secs: u64) -> (r: String)
    ensures
        r@ == time_text(secs as nat),
{
    let v = format_time_chars(secs);
    string_of(v.as_slice())
}

} // verus!

verus! {

proof fn lemma_digit_char(d: nat)
    requires
        d < 10,
    ensures
        digit_value(digit_char(d)) == d,
        is_ascii_digit(digit_char(d)),
{
}

proof fn lemma_decimal(n: nat)
    ensures
        all_digits(decimal(n)),
        decimal(n).len() > 0,
        digits_value(decimal(n)) == n,
    decreases n,
{
    lemma_digit_char(n % 10);
    if n < 10 {
        assert(decimal(n).drop_last() == Seq::<char>::empty());
        assert(digits_value(Seq::<char>::empty()) == 0);
        assert(n % 10 == n);
        assert(digits_value(decimal(n)) == digits_value(decimal(n).drop_last()) * 10 + digit_value(decimal(n).last()));
    }
    if n >= 10 {
        lemma_decimal(n / 10);
        let d = decimal(n / 10).push(digit_char(n % 10));
        assert(d.drop_last() == decimal(n / 10));
        assert(digits_value(d) == digits_value(d.drop_last()) * 10 + digit_value(d.last()));
        assert((n / 10) * 10 + n % 10 == n);
        assert forall|i: int| 0 <= i < d.len() implies is_ascii_digit(#[trigger] d[i]) by {
            if i < d.len() - 1 {
                assert(d[i] == decimal(n / 10)[i]);
            }
        }
    }
}

proof fn lemma_scan_digits(p: Seq<char>, d: Seq<char>, st: TimeScan)
    requires
        time_scan(p) == Some(st),
        all_digits(d),
    ensures
        time_scan(p + d) == Some(TimeScan { buf: st.buf + d, ..st }),
    decreases d.len(),
{
    if d.len() == 0 {
        assert(p + d == p);
        assert(st.buf + d == st.buf);
    } else {
        lemma_scan_digits(p, d.drop_last(), st);
        assert((p + d).drop_last() == p + d.drop_last());
        assert((p + d).last() == d.last());
        assert(is_ascii_digit(d[d.len() - 1]));
        assert((st.buf + d.drop_last()).push(d.last()) == st.buf + d);
    }
}

proof fn lemma_scan_part(p: Seq<char>, st: TimeScan, n: nat, u: char)
    requires
        time_scan(p) == Some(st),
        st.buf.len() == 0,
        n <= u64::MAX,
        u == 'h' || u == 'm' || u == 's',
    ensures
        time_scan(p + time_part_text(n, u)) == Some(
            if n == 0 { st } else if u == 'h' { TimeScan { h: n, ..st } } else if u == 'm' {
                TimeScan { m: n, ..st }
            } else {
                TimeScan { s: n, ..st }
            },
        ),
{
    if n == 0 {
        assert(p + time_part_text(n, u) == p);
    } else {
        lemma_decimal(n);
        lemma_scan_digits(p, decimal(n), st);
        let q = p + decimal(n);
        assert(p + time_part_text(n, u) == q.push(u));
        assert(q.push(u).drop_last() == q);
        assert(st.buf + decimal(n) == decimal(n));
    }
}

/// Reading back the text of a nonzero duration gives that duration.
pub proof fn law_time_round_trip(secs: u64)
    requires
        secs > 0,
    ensures
        time_value(time_text(secs as nat)) == Some(secs as nat),
        time_fits(time_text(secs as nat)),
{
    let n = secs as nat;
    let a = time_part_text(n / 3600, 'h');
    let b = time_part_text((n % 3600) / 60, 'm');
    let c = time_part_text(n % 60, 's');
    let st0 = TimeScan { h: 0, m: 0, s: 0, buf: seq![] };
    let e = Seq::<char>::empty();
    assert(time_scan(e) == Some(st0));
    lemma_scan_part(e, st0, n / 3600, 'h');
    assert(e + a == a);
    let st1 = TimeScan { h: n / 3600, ..st0 };
    assert(time_scan(a) == Some(st1));
    lemma_scan_part(a, st1, (n % 3600) / 60, 'm');
    let st2 = TimeScan { m: (n % 3600) / 60, ..st1 };
    assert(time_scan(a + b) == Some(st2));
    lemma_scan_part(a + b, st2, n % 60, 's');
    let st3 = TimeScan { s: n % 60, ..st2 };
    assert(time_scan(a + b + c) == Some(st3));
    assert(time_text(n) == a + b + c);
    assert((n / 3600) * 3600 + ((n % 3600) / 60) * 60 + n % 60 == n) by (nonlinear_arith);
    if time_text(n).len() == 0 {
        if n / 3600 > 0 {
            lemma_decimal(n / 3600);
        }
        if (n % 3600) / 60 > 0 {
            lemma_decimal((n % 3600) / 60);
        }
        if n % 60 > 0 {
            lemma_decimal(n % 60);
        }
        assert(false);
    }
}

pub open spec fn is_unit(c: char) -> bool {
    c == 'h' || c == 'm' || c == 's'
}

/// Where the run of digits that ends just before index `i` of `s` starts.
pub open spec fn run_start(s: Seq<char>, i: int) -> int
    decreases i,
{
    if 0 < i <= s.len() && is_ascii_digit(s[i - 1]) {
        run_start(s, i - 1)
    } else {
        i
    }
}

/// The run of digits just before index `i` of `s`.
pub open spec fn run_before(s: Seq<char>, i: int) -> Seq<char> {
    s.subrange(run_start(s, i), i)
}

/// Each of the first `n` characters of `s` is a digit or a unit letter, and
/// each unit letter closes a run of one or more digits whose value fits in
/// a `u64`.
pub open spec fn units_ok(s: Seq<char>, n: int) -> bool {
    forall|i: int|
        0 <= i < n ==> (is_ascii_digit(#[trigger] s[i]) || (is_unit(s[i]) && run_before(s, i).len() > 0 && digits_value(run_before(s, i)) <= u64::MAX))
}

/// The value of the run of digits closed by the last `u` among the first
/// `n` characters of `s`, or 0 where there is none.
pub open spec fn unit_amount(s: Seq<char>, u: char, n: int) -> nat
    decreases n,
{
    if n <= 0 {
        0
    } else if s[n - 1] == u {
        digits_value(run_before(s, n - 1))
    } else {
        unit_amount(s, u, n - 1)
    }
}

/// Hours, minutes and seconds of `s` in seconds, each taken from the last
/// run closed by its unit letter.
pub open spec fn duration_total(s: Seq<char>) -> nat {
    unit_amount(s, 'h', s.len() as int) * 3600 + unit_amount(s, 'm', s.len() as int) * 60 + unit_amount(s, 's', s.len() as int)
}

proof fn lemma_run_start(s: Seq<char>, i: int)
    requires
        0 <= i <= s.len(),
    ensures
        0 <= run_start(s, i) <= i,
        forall|k: int| run_start(s, i) <= k < i ==> is_ascii_digit(#[trigger] s[k]),
    decreases i,
{
    if 0 < i && is_ascii_digit(s[i - 1]) {
        lemma_run_start(s, i - 1);
    }
}

#[verifier::spinoff_prover]
proof fn lemma_time_scan_prefix(s: Seq<char>, n: int)
    requires
        0 <= n <= s.len(),
    ensures
        time_scan(s.take(n)) is Some <==> units_ok(s, n),
        time_scan(s.take(n)) matches Some(st) ==> st.h == unit_amount(s, 'h', n) && st.m == unit_amount(s, 'm', n)
            && st.s == unit_amount(s, 's', n) && st.buf == run_before(s, n),
    decreases n,
{
    if n == 0 {
        assert(s.take(0) == Seq::<char>::empty());
        assert(run_before(s, 0) == Seq::<char>::empty());
    } else {
        lemma_time_scan_prefix(s, n - 1);
        lemma_run_start(s, n - 1);
        let p = s.take(n);
        assert(p.drop_last() == s.take(n - 1));
        assert(p.last() == s[n - 1]);
        let c = s[n - 1];
        assert(time_scan(p) == match time_scan(s.take(n - 1)) {
            None => None,
            Some(st) => time_step(st, c),
        });
        if is_ascii_digit(c) {
            assert(run_start(s, n) == run_start(s, n - 1));
            assert(run_before(s, n) == run_before(s, n - 1).push(c));
        } else {
            assert(run_start(s, n) == n);
            assert(run_before(s, n) == Seq::<char>::empty());
        }
        if units_ok(s, n) {
            assert forall|i: int| 0 <= i < n - 1 implies (is_ascii_digit(#[trigger] s[i]) || (is_unit(s[i]) && run_before(s, i).len() > 0
                && digits_value(run_before(s, i)) <= u64::MAX)) by {}
            assert(units_ok(s, n - 1));
            assert(is_ascii_digit(s[n - 1]) || (is_unit(s[n - 1]) && run_before(s, n - 1).len() > 0 && digits_value(run_before(s, n - 1)) <= u64::MAX));
        }
        if time_scan(p) is Some {
            assert(units_ok(s, n - 1));
            assert forall|i: int| 0 <= i < n implies (is_ascii_digit(#[trigger] s[i]) || (is_unit(s[i]) && run_before(s, i).len() > 0
                && digits_value(run_before(s, i)) <= u64::MAX)) by {
                if i < n - 1 {
                    assert(is_ascii_digit(s[i]) || (is_unit(s[i]) && run_before(s, i).len() > 0 && digits_value(run_before(s, i)) <= u64::MAX));
                }
            }
        }
    }
}

/// A text is a duration exactly when it is not empty, holds only digits
/// and the unit letters `h`, `m` and `s`, ends with a unit letter, each
/// unit letter closes a run of one or more digits whose value fits in a
/// `u64`, and the total is not zero; its value is 3600 times the hours
/// plus 60 times the minutes plus the seconds, each taken from the last run
/// closed by that unit.
pub proof fn law_duration(s: Seq<char>)
    ensures
        time_value(s) is Some <==> (s.len() > 0 && units_ok(s, s.len() as int) && is_unit(s.last()) && duration_total(s) != 0),
        time_value(s) matches Some(v) ==> v == duration_total(s),
{
    lemma_time_scan_prefix(s, s.len() as int);
    assert(s.take(s.len() as int) == s);
    if s.len() > 0 {
        let n = s.len() as int;
        lemma_run_start(s, n);
        if is_ascii_digit(s[n - 1]) {
            assert(run_start(s, n) == run_start(s, n - 1));
            lemma_run_start(s, n - 1);
            assert(run_before(s, n).len() > 0);
        } else {
            assert(run_start(s, n) == n);
            assert(run_before(s, n).len() == 0);
        }
        if units_ok(s, n) {
            assert(is_ascii_digit(s[n - 1]) || is_unit(s[n - 1]));
        }
    }
}

} // verus!

verus! {

// ---------------------------------------------------------------------------
// One todo line
// ---------------------------------------------------------------------------

/// The index of the last `c` in `s`, or -1.
pub open spec fn last_index(s: Seq<char>, c: char) -> int
    decreases s.len(),
{
    if s.len() == 0 {
        -1
    } else if s.last() == c {
        s.len() - 1
    } else {
        last_index(s.drop_last(), c)
    }
}

/// Where the last `[` of `t` (trailing whitespace ignored) stands and the
/// text between it and a closing `]` at the very end, if there is one.
pub open spec fn time_slot(t: Seq<char>) -> Option<(int, Seq<char>)> {
    let tr = trim_end(t);
    let b = last_index(tr, '[');
    if tr.len() > 0 && tr.last() == ']' && b >= 0 {
        Some((b, tr.subrange(b + 1, tr.len() - 1)))
    } else {
        None
    }
}

/// Splits a trailing `[duration]` off `t`: the title before it and the
/// seconds, or all of `t` (trailing whitespace dropped) and zero.
pub open spec fn extract_time_spec(t: Seq<char>) -> (Seq<char>, nat) {
    let tr = trim_end(t);
    match time_slot(t) {
        Some((b, ts)) => match time_value(ts) {
            Some(v) => (trim_end(tr.take(b)), v),
            None => (tr, 0),
        },
        None => (tr, 0),
    }
}

pub open spec fn extract_time_ok(t: Seq<char>) -> bool {
    match time_slot(t) {
        Some((_, ts)) => time_fits(ts),
        None => true,
    }
}

pub open spec fn box_text(done: bool) -> Seq<char> {
    if done {
        "- [x] "@
    } else {
        "- [ ] "@
    }
}

/// The checkbox at the start of a line (leading whitespace ignored), and the
/// rest of the line after it.
pub open spec fn checkbox(line: Seq<char>) -> Option<(bool, Seq<char>)> {
    let ts = trim_start(line);
    if has_prefix(ts, box_text(false)) {
        Some((false, ts.skip(6)))
    } else if has_prefix(ts, box_text(true)) {
        Some((true, ts.skip(6)))
    } else if has_prefix(ts, "- [X] "@) {
        Some((true, ts.skip(6)))
    } else {
        None
    }
}

/// The item that a Markdown line holds, if it is a checkbox line.
pub open spec fn parse_line_spec(line: Seq<char>) -> Option<ItemV> {
    match checkbox(line) {
        None => None,
        Some((done, rest)) => {
            let (tt, tags) = extract_tags_spec(rest);
            let (title, secs) = extract_time_spec(tt);
            Some(ItemV { title, done, tags, time_secs: secs as u64 })
        },
    }
}

/// A line holds an item exactly when, after leading whitespace, it starts
/// with `- [ ] `, `- [x] ` or `- [X] `; the item is done unless it starts
/// with `- [ ] `.
pub proof fn law_checkbox_lines(line: Seq<char>)
    ensures
        parse_line_spec(line) is Some <==> (has_prefix(trim_start(line), "- [ ] "@) || has_prefix(
            trim_start(line),
            "- [x] "@,
        ) || has_prefix(trim_start(line), "- [X] "@)),
        parse_line_spec(line) matches Some(i) ==> (i.done <==> !has_prefix(trim_start(line), "- [ ] "@)),
{
    reveal_strlit("- [ ] ");
    reveal_strlit("- [x] ");
    reveal_strlit("- [X] ");
}

/// The duration written on a checkbox line, if any, fits in a `u64`.
pub open spec fn line_ok(line: Seq<char>) -> bool {
    match checkbox(line) {
        None => true,
        Some((_, rest)) => extract_time_ok(extract_tags_spec(rest).0),
    }
}

pub open spec fn opt_item_view(o: Option<TodoItem>) -> Option<ItemV> {
    match o {
        Some(i) => Some(i@),
        None => None,
    }
}

proof fn lemma_last_index(s: Seq<char>, c: char)
    ensures
        -1 <= last_index(s, c) < s.len(),
        last_index(s, c) >= 0 ==> s[last_index(s, c)] == c,
    decreases s.len(),
{
    if s.len() > 0 && s.last() != c {
        lemma_last_index(s.drop_last(), c);
        if last_index(s, c) >= 0 {
            assert(s[last_index(s, c)] == s.drop_last()[last_index(s, c)]);
        }
    }
}

fn last_index_exec(v: &Vec<char>, c: char) -> (r: Option<usize>)
    ensures
        match r {
            Some(k) => k as int == last_index(v@, c),
            None => last_index(v@, c) == -1,
        },
{
    let mut k: usize = v.len();
    assert(v@.take(k as int) == v@);
    while k > 0 && v[k - 1] != c
        invariant
            k <= v.len(),
            last_index(v@, c) == last_index(v@.take(k as int), c),
        decreases k,
    {
        assert(v@.take(k as int).drop_last() == v@.take(k - 1));
        k = k - 1;
    }
    if k == 0 {
        assert(v@.take(0) == Seq::<char>::empty());
        None
    } else {
        Some(k - 1)
    }
}

fn extract_time(text: &Vec<char>) -> (r: (Vec<char>, u64))
    requires
        extract_time_ok(text@),
    ensures
        r.0@ == extract_time_spec(text@).0,
        r.1 == extract_time_spec(text@).1,
{
    let trimmed = trim_end_chars(text);
    let b = last_index_exec(&trimmed, '[');
    proof {
        lemma_last_index(trimmed@, '[');
    }
    if trimmed.len() > 0 && trimmed[trimmed.len() - 1] == ']' && b.is_some() {
        let bs = b.unwrap();
        let ts = sub_chars(&trimmed, bs + 1, trimmed.len() - 1);
        let ts_str = string_of(ts.as_slice());
        match parse_time_str(&ts_str) {
            Some(secs) => {
                let head = sub_chars(&trimmed, 0, bs);
                assert(head@ == trimmed@.take(bs as int));
                let title = trim_end_chars(&head);
                return (title, secs);
            },
            None => {},
        }
    }
    (trimmed, 0)
}

} // verus!

verus! {

fn checkbox_exec(line: &Vec<char>) -> (r: Option<(bool, Vec<char>)>)
    ensures
        match r {
            Some((done, rest)) => checkbox(line@) == Some((done, rest@)),
            None => checkbox(line@) is None,
        },
{
    let ts = trim_start_chars(line);
    let unchecked = chars_of("- [ ] ");
    let checked = chars_of("- [x] ");
    let checked_upper = chars_of("- [X] ");
    let (done, ok) = if starts_with(&ts, &unchecked) {
        (false, true)
    } else if starts_with(&ts, &checked) {
        (true, true)
    } else if starts_with(&ts, &checked_upper) {
        (true, true)
    } else {
        (false, false)
    };
    if !ok {
        return None;
    }
    proof {
        reveal_strlit("- [ ] ");
        reveal_strlit("- [x] ");
        reveal_strlit("- [X] ");
    }
    let rest = sub_chars(&ts, 6, ts.len());
    assert(rest@ == ts@.skip(6));
    Some((done, rest))
}

fn parse_line_chars(line: &Vec<char>) -> (r: Option<TodoItem>)
    requires
        line_ok(line@),
    ensures
        opt_item_view(r) == parse_line_spec(line@),
{
    match checkbox_exec(line) {
        None => None,
        Some((done, rest)) => {
            let (tt, tags) = extract_tags_chars(&rest);
            let (title, secs) = extract_time(&tt);
            let item = TodoItem {
                title: string_of(title.as_slice()),
                done,
                tags: strings_of(&tags),
                time_secs: secs,
            };
            Some(item)
        },
    }
}

/// Reads one Markdown checkbox line (`- [ ] `, `- [x] ` or `- [X] `, after
/// any leading whitespace) into an item: trailing `@tag` words become tags and
/// a trailing `[duration]` becomes the recorded time.
pub fn parse_todo_line(line: &str) -> (r: Option<TodoItem>)
    requires
        line_ok(line@),
    ensures
        opt_item_view(r) == parse_line_spec(line@),
{
    let v = chars_of(line);
    parse_line_chars(&v)
}

} // verus!

verus! {

// ---------------------------------------------------------------------------
// Whole lists
// ---------------------------------------------------------------------------

/// What has been read of a list file so far.
pub struct ListScan {
    pub name: Seq<char>,
    pub items: Seq<ItemV>,
    pub daily: bool,
    pub last_reset: Option<Seq<char>>,
}

pub open spec fn daily_marker() -> Seq<char> {
    "<!-- type: daily -->"@
}

pub open spec fn reset_open() -> Seq<char> {
    "<!-- last-reset: "@
}

pub open spec fn reset_close() -> Seq<char> {
    " -->"@
}

/// Reads one line of a list file: a `# ` heading names the list (when it is
/// not blank), the daily marker makes it daily, a last-reset marker records
/// the date, and a checkbox line adds an item; any other line is skipped.
pub open spec fn list_step(st: ListScan, line: Seq<char>) -> ListScan {
    let t = trim(line);
    if has_prefix(t, "# "@) {
        let h = trim(t.skip(2));
        if h.len() > 0 {
            ListScan { name: h, ..st }
        } else {
            st
        }
    } else if t == daily_marker() {
        ListScan { daily: true, ..st }
    } else if has_prefix(t, reset_open()) && has_suffix(t.skip(17), reset_close()) {
        ListScan { last_reset: Some(t.skip(17).take(t.len() - 17 - 4)), ..st }
    } else {
        match parse_line_spec(line) {
            Some(item) => ListScan { items: st.items.push(item), ..st },
            None => st,
        }
    }
}

pub open spec fn list_scan(ls: Seq<Seq<char>>) -> ListScan
    decreases ls.len(),
{
    if ls.len() == 0 {
        ListScan { name: "Untitled"@, items: seq![], daily: false, last_reset: None }
    } else {
        list_step(list_scan(ls.drop_last()), ls.last())
    }
}

/// The list that the Markdown text `content` holds.
pub open spec fn parse_list_spec(content: Seq<char>) -> ListV {
    let st = list_scan(lines(content));
    ListV {
        name: st.name,
        items: st.items,
        list_type: if st.daily { ListType::Daily } else { ListType::Normal },
        last_reset: st.last_reset,
    }
}

/// Every duration written on a checkbox line of `content` fits in a `u64`.
pub open spec fn content_ok(content: Seq<char>) -> bool {
    forall|i: int| 0 <= i < lines(content).len() ==> line_ok(#[trigger] lines(content)[i])
}

fn time_slot_fits(text: &Vec<char>) -> (b: bool)
    ensures
        b == extract_time_ok(text@),
{
    let trimmed = trim_end_chars(text);
    let b = last_index_exec(&trimmed, '[');
    proof {
        lemma_last_index(trimmed@, '[');
    }
    if trimmed.len() > 0 && trimmed[trimmed.len() - 1] == ']' && b.is_some() {
        let bs = b.unwrap();
        let ts = sub_chars(&trimmed, bs + 1, trimmed.len() - 1);
        let ts_str = string_of(ts.as_slice());
        time_fits_str(&ts_str)
    } else {
        true
    }
}

/// Whether a line can be read: a checkbox line's duration, if it has one,
/// fits in a `u64`.
pub fn line_fits(line: &str) -> (b: bool)
    ensures
        b == line_ok(line@),
{
    let v = chars_of(line);
    match checkbox_exec(&v) {
        None => true,
        Some((_, rest)) => {
            let (tt, _tags) = extract_tags_chars(&rest);
            time_slot_fits(&tt)
        },
    }
}

/// Whether a list file can be read: each of its lines can.
pub fn content_fits(content: &str) -> (b: bool)
    ensures
        b == content_ok(content@),
{
    let v = chars_of(content);
    let ls = split_lines(&v);
    let mut k: usize = 0;
    while k < ls.len()
        invariant
            k <= ls.len(),
            views(ls@) == lines(content@),
            v@ == content@,
            forall|i: int| 0 <= i < k ==> line_ok(#[trigger] lines(content@)[i]),
        decreases ls.len() - k,
    {
        assert(views(ls@)[k as int] == ls@[k as int]@);
        let line = string_of(ls[k].as_slice());
        if !line_fits(&line) {
            return false;
        }
        k = k + 1;
    }
    true
}

/// Reads a list file: its name from the first non-blank `# ` heading (else
/// `Untitled`), whether it is daily, its last reset date, and its items.
pub fn parse_list(content: &str) -> (r: TodoList)
    requires
        content_ok(content@),
    ensures
        r@ == parse_list_spec(content@),
{
    let v = chars_of(content);
    let ls = split_lines(&v);
    let heading = chars_of("# ");
    let daily = chars_of("<!-- type: daily -->");
    let open = chars_of("<!-- last-reset: ");
    let close = chars_of(" -->");
    proof {
        reveal_strlit("# ");
        reveal_strlit("<!-- last-reset: ");
        reveal_strlit(" -->");
    }
    let mut name = chars_of("Untitled");
    let mut items: Vec<TodoItem> = Vec::new();
    let mut is_daily = false;
    let mut last_reset: Option<Vec<char>> = None;
    let mut i: usize = 0;
    assert(views(ls@).take(0) == Seq::<Seq<char>>::empty());
    assert(items_view(items@) == Seq::<ItemV>::empty());
    while i < ls.len()
        invariant
            i <= ls.len(),
            views(ls@) == lines(content@),
            content_ok(content@),
            heading@ == "# "@,
            daily@ == daily_marker(),
            open@ == reset_open(),
            close@ == reset_close(),
            heading@.len() == 2,
            open@.len() == 17,
            close@.len() == 4,
            list_scan(views(ls@).take(i as int)) == (ListScan {
                name: name@,
                items: items_view(items@),
                daily: is_daily,
                last_reset: match last_reset { Some(d) => Some(d@), None => None },
            }),
        decreases ls.len() - i,
    {
        let line = &ls[i];
        assert(views(ls@).take(i + 1).drop_last() == views(ls@).take(i as int));
        assert(views(ls@).take(i + 1).last() == line@);
        let t = trim_chars(line);
        if starts_with(&t, &heading) {
            let after = sub_chars(&t, 2, t.len());
            assert(after@ == t@.skip(2));
            let h = trim_chars(&after);
            if h.len() > 0 {
                name = h;
            }
        } else if eq_chars(&t, &daily) {
            is_daily = true;
        } else if t.len() >= 17 && starts_with(&t, &open) && ends_with(&sub_chars(&t, 17, t.len()), &close) {
            assert(t@.subrange(17, t.len() as int) == t@.skip(17));
            let date = sub_chars(&t, 17, t.len() - 4);
            assert(date@ == t@.skip(17).take(t.len() - 17 - 4));
            last_reset = Some(date);
        } else {
            assert(line_ok(lines(content@)[i as int]));
            match parse_line_chars(line) {
                Some(item) => {
                    let ghost old_items = items@;
                    items.push(item);
                    assert(items_view(items@) == items_view(old_items).push(item@));
                },
                None => {},
            }
        }
        i = i + 1;
    }
    assert(views(ls@).take(ls.len() as int) == views(ls@));
    TodoList {
        name: string_of(name.as_slice()),
        items,
        list_type: if is_daily { ListType::Daily } else { ListType::Normal },
        last_reset: match last_reset {
            Some(d) => Some(string_of(d.as_slice())),
            None => None,
        },
    }
}

} // verus!

verus! {

pub open spec fn at_tag(t: Seq<char>) -> Seq<char> {
    seq!['@'] + t
}

/// The tags as `@tag` words after a space, or nothing when there are none.
pub open spec fn tags_text(tags: Seq<Seq<char>>) -> Seq<char> {
    if tags.len() == 0 {
        seq![]
    } else {
        space() + join(tags.map_values(|t: Seq<char>| at_tag(t)), space())
    }
}

/// The recorded time as ` [duration]`, or nothing when it is zero.
pub open spec fn time_suffix(secs: u64) -> Seq<char> {
    if secs == 0 {
        seq![]
    } else {
        " ["@ + time_text(secs as nat) + "]"@
    }
}

/// The Markdown line of an item, without its line ending.
pub open spec fn item_line(i: ItemV) -> Seq<char> {
    box_text(i.done) + i.title + time_suffix(i.time_secs) + tags_text(i.tags)
}

pub open spec fn item_text(i: ItemV) -> Seq<char> {
    item_line(i).push('\n')
}

pub open spec fn items_text(items: Seq<ItemV>) -> Seq<char>
    decreases items.len(),
{
    if items.len() == 0 {
        seq![]
    } else {
        items_text(items.drop_last()) + item_text(items.last())
    }
}

/// The Markdown text of a list: its heading, the markers of a daily list and
/// of its last reset, a blank line, and one checkbox line per item.
pub open spec fn list_text(l: ListV) -> Seq<char> {
    "# "@ + l.name + seq!['\n'] + (if l.list_type == ListType::Daily {
        daily_marker() + seq!['\n']
    } else {
        seq![]
    }) + (match l.last_reset {
        Some(d) => reset_open() + d + reset_close() + seq!['\n'],
        None => seq![],
    }) + seq!['\n'] + items_text(l.items)
}

fn push_item_text(out: &mut Vec<char>, item: &TodoItem)
    ensures
        final(out)@ == old(out)@ + item_text(item@),
{
    let ghost start = old(out)@;
    if item.done {
        push_str(out, "- [x] ");
    } else {
        push_str(out, "- [ ] ");
    }
    push_str(out, item.title.as_str());
    assert(out@ == start + box_text(item.done) + item.title@);
    let ghost before_time = out@;
    if item.time_secs != 0 {
        push_str(out, " [");
        let t = format_time_chars(item.time_secs);
        push_all(out, &t);
        push_str(out, "]");
        assert(out@ == before_time + time_suffix(item.time_secs));
    } else {
        assert(before_time + time_suffix(item.time_secs) == before_time);
    }
    let ghost before_tags = out@;
    if item.tags.len() > 0 {
        let mut words: Vec<Vec<char>> = Vec::new();
        let mut j: usize = 0;
        while j < item.tags.len()
            invariant
                j <= item.tags.len(),
                views(words@) == strings_view(item.tags@).take(j as int).map_values(|t: Seq<char>| at_tag(t)),
            decreases item.tags.len() - j,
        {
            let mut w: Vec<char> = Vec::new();
            w.push('@');
            push_str(&mut w, item.tags[j].as_str());
            let ghost old_words = views(words@);
            words.push(w);
            assert(views(words@) == old_words.push(at_tag(item.tags@[j as int]@)));
            assert(strings_view(item.tags@).take(j + 1) == strings_view(item.tags@).take(j as int).push(item.tags@[j as int]@));
            j = j + 1;
        }
        assert(strings_view(item.tags@).take(item.tags.len() as int) == strings_view(item.tags@));
        out.push(' ');
        let sep = vec![' '];
        assert(sep@ == space());
        let joined = join_chars(&words, &sep);
        push_all(out, &joined);
        assert(out@ == before_tags + tags_text(item@.tags));
    } else {
        assert(before_tags + tags_text(item@.tags) == before_tags);
    }
    out.push('\n');
    proof {
        reveal_strlit("- [x] ");
        reveal_strlit("- [ ] ");
    }
    assert(out@ == start + item_text(item@));
}

/// The Markdown line of an item, with its line ending.
pub fn serialize_item(item: &TodoItem) -> (r: String)
    ensures
        r@ == item_text(item@),
{
    let mut out: Vec<char> = Vec::new();
    push_item_text(&mut out, item);
    assert(out@ == Seq::<char>::empty() + item_text(item@));
    string_of(out.as_slice())
}

/// The Markdown text of a list file.
pub fn serialize_list(list: &TodoList) -> (r: String)
    ensures
        r@ == list_text(list@),
{
    let mut out: Vec<char> = Vec::new();
    push_str(&mut out, "# ");
    push_str(&mut out, list.name.as_str());
    out.push('\n');
    let ghost head = out@;
    if list.list_type == ListType::Daily {
        push_str(&mut out, "<!-- type: daily -->\n");
        proof {
            reveal_strlit("<!-- type: daily -->\n");
            reveal_strlit("<!-- type: daily -->");
        }
        assert(out@ == head + (daily_marker() + seq!['\n']));
    } else {
        assert(out@ == head + Seq::<char>::empty());
    }
    let ghost head2 = out@;
    match &list.last_reset {
        Some(d) => {
            push_str(&mut out, "<!-- last-reset: ");
            push_str(&mut out, d.as_str());
            push_str(&mut out, " -->\n");
            proof {
                reveal_strlit(" -->\n");
                reveal_strlit(" -->");
            }
            assert(out@ == head2 + (reset_open() + d@ + reset_close() + seq!['\n']));
        },
        None => {
            assert(out@ == head2 + Seq::<char>::empty());
        },
    }
    out.push('\n');
    let ghost head3 = out@;
    let mut i: usize = 0;
    assert(items_view(list.items@).take(0) == Seq::<ItemV>::empty());
    assert(out@ == head3 + items_text(items_view(list.items@).take(0)));
    while i < list.items.len()
        invariant
            i <= list.items.len(),
            out@ == head3 + items_text(items_view(list.items@).take(i as int)),
        decreases list.items.len() - i,
    {
        push_item_text(&mut out, &list.items[i]);
        let ghost t = items_view(list.items@).take(i + 1);
        assert(t.drop_last() == items_view(list.items@).take(i as int));
        assert(t.last() == list.items@[i as int]@);
        i = i + 1;
    }
    assert(items_view(list.items@).take(list.items.len() as int) == items_view(list.items@));
    string_of(out.as_slice())
}

} // verus!

verus! {

pub open spec fn dash_for_space(c: char) -> char {
    if c == ' ' {
        '-'
    } else {
        c
    }
}

/// The file name of a list: its name in lowercase, spaces turned into dashes,
/// with the `.md` extension.
pub open spec fn filename_of(name: Seq<char>) -> Seq<char> {
    lowercase(name).map_values(|c: char| dash_for_space(c)) + ".md"@
}

/// The file name under which a list with this name is stored.
pub fn name_to_filename(name: &str) -> (r: String)
    ensures
        r@ == filename_of(name@),
{
    let lower = to_lowercase(name);
    let v = chars_of(lower.as_str());
    let mut out: Vec<char> = Vec::new();
    let mut i: usize = 0;
    while i < v.len()
        invariant
            i <= v.len(),
            v@ == lowercase(name@),
            out@ == v@.take(i as int).map_values(|c: char| dash_for_space(c)),
        decreases v.len() - i,
    {
        let c = v[i];
        out.push(if c == ' ' { '-' } else { c });
        assert(v@.take(i + 1) == v@.take(i as int).push(c));
        i = i + 1;
    }
    assert(v@.take(v.len() as int) == v@);
    push_str(&mut out, ".md");
    string_of(out.as_slice())
}

} // verus!

verus! {

// ---------------------------------------------------------------------------
// Reading back what was written
// ---------------------------------------------------------------------------

/// A tag that reads back unchanged: one or more letters, digits, `_` or `-`.
pub open spec fn tag_ok(t: Seq<char>) -> bool {
    is_tag_word(at_tag(t)) && no_ws(t)
}

/// A title that reads back unchanged from its line: words separated by
/// single spaces, no whitespace at either end; and, when no time is
/// recorded, no last word that reads as a tag and no trailing text that
/// reads as a `[duration]`.
pub open spec fn title_ok(title: Seq<char>, secs: u64) -> bool {
    &&& title == join(words(title), space())
    &&& secs == 0 ==> {
        &&& (words(title).len() == 0 || !is_tag_word(words(title).last()))
        &&& extract_time_spec(title) == (title, 0nat)
        &&& extract_time_ok(title)
    }
}

pub open spec fn item_ok(i: ItemV) -> bool {
    &&& title_ok(i.title, i.time_secs)
    &&& forall|j: int| 0 <= j < i.tags.len() ==> tag_ok(#[trigger] i.tags[j])
}

pub open spec fn time_char(c: char) -> bool {
    is_ascii_digit(c) || c == 'h' || c == 'm' || c == 's'
}

proof fn lemma_time_text_chars(secs: nat)
    ensures
        forall|i: int| 0 <= i < time_text(secs).len() ==> time_char(#[trigger] time_text(secs)[i]),
{
    if secs > 0 {
        let a = time_part_text(secs / 3600, 'h');
        let b = time_part_text((secs % 3600) / 60, 'm');
        let c = time_part_text(secs % 60, 's');
        lemma_part_chars(secs / 3600, 'h');
        lemma_part_chars((secs % 3600) / 60, 'm');
        lemma_part_chars(secs % 60, 's');
        assert forall|i: int| 0 <= i < time_text(secs).len() implies time_char(#[trigger] time_text(secs)[i]) by {
            if i < a.len() {
                assert(time_text(secs)[i] == a[i]);
            } else if i < a.len() + b.len() {
                assert(time_text(secs)[i] == b[i - a.len()]);
            } else {
                assert(time_text(secs)[i] == c[i - a.len() - b.len()]);
            }
        }
    }
}

proof fn lemma_part_chars(n: nat, u: char)
    requires
        u == 'h' || u == 'm' || u == 's',
    ensures
        forall|i: int| 0 <= i < time_part_text(n, u).len() ==> time_char(#[trigger] time_part_text(n, u)[i]),
{
    if n > 0 {
        lemma_decimal(n);
        assert forall|i: int| 0 <= i < time_part_text(n, u).len() implies time_char(#[trigger] time_part_text(n, u)[i]) by {
            if i < decimal(n).len() {
                assert(time_part_text(n, u)[i] == decimal(n)[i]);
            }
        }
    }
}

proof fn lemma_trailing_append(ws: Seq<Seq<char>>, ts: Seq<Seq<char>>)
    requires
        forall|j: int| 0 <= j < ts.len() ==> is_tag_word(#[trigger] ts[j]),
    ensures
        trailing_tags(ws + ts) == ts.len() + trailing_tags(ws),
    decreases ts.len(),
{
    if ts.len() == 0 {
        assert(ws + ts == ws);
    } else {
        assert((ws + ts).drop_last() == ws + ts.drop_last());
        assert((ws + ts).last() == ts.last());
        assert(is_tag_word(ts[ts.len() - 1]));
        lemma_trailing_append(ws, ts.drop_last());
    }
}

proof fn lemma_last_index_suffix(a: Seq<char>, b: Seq<char>, c: char)
    requires
        forall|j: int| 0 <= j < b.len() ==> #[trigger] b[j] != c,
    ensures
        last_index(a + b, c) == last_index(a, c),
    decreases b.len(),
{
    if b.len() == 0 {
        assert(a + b == a);
    } else {
        assert((a + b).drop_last() == a + b.drop_last());
        assert((a + b).last() == b[b.len() - 1]);
        lemma_last_index_suffix(a, b.drop_last(), c);
    }
}

proof fn lemma_trim_end_keeps(s: Seq<char>)
    requires
        s.len() == 0 || !is_ws(s.last()),
    ensures
        trim_end(s) == s,
{
}

/// The words of the rest of an item line after its checkbox.
proof fn lemma_item_rest_words(i: ItemV) -> (b: Seq<char>)
    requires
        item_ok(i),
    ensures
        b == "["@ + time_text(i.time_secs as nat) + "]"@,
        b.len() > 0,
        no_ws(b),
        !is_tag_word(b),
        i.time_secs > 0 ==> time_suffix(i.time_secs) == space() + b,
        words(i.title + time_suffix(i.time_secs) + tags_text(i.tags)) == words(i.title) + (if i.time_secs > 0 {
            seq![b]
        } else {
            seq![]
        }) + i.tags.map_values(|t: Seq<char>| at_tag(t)),
{
    reveal_strlit("[");
    reveal_strlit("]");
    reveal_strlit(" [");
    let fmt = time_text(i.time_secs as nat);
    let b = "["@ + fmt + "]"@;
    lemma_time_text_chars(i.time_secs as nat);
    assert forall|j: int| 0 <= j < b.len() implies !is_ws(#[trigger] b[j]) by {
        if 0 < j < b.len() - 1 {
            assert(b[j] == fmt[j - 1]);
            assert(time_char(fmt[j - 1]));
        }
    }
    if i.time_secs > 0 {
        assert(time_suffix(i.time_secs) == space() + b);
    }
    let at = i.tags.map_values(|t: Seq<char>| at_tag(t));
    assert forall|j: int| 0 <= j < at.len() implies (#[trigger] at[j]).len() > 0 && no_ws(at[j]) by {
        assert(tag_ok(i.tags[j]));
        assert(at[j] == at_tag(i.tags[j]));
        assert forall|k: int| 0 <= k < at[j].len() implies !is_ws(#[trigger] at[j][k]) by {
            if k > 0 {
                assert(at[j][k] == i.tags[j][k - 1]);
            }
        }
    }
    lemma_words_join(at);
    let jn = join(at, space());
    lemma_words_single(b);
    let t = i.title;
    let ts = time_suffix(i.time_secs);
    let tt = tags_text(i.tags);
    if i.time_secs > 0 {
        lemma_words_concat(t, b);
        if i.tags.len() > 0 {
            assert(t + ts + tt == (t + seq![' '] + b) + seq![' '] + jn);
            lemma_words_concat(t + seq![' '] + b, jn);
        } else {
            assert(at.len() == 0);
            assert(tt == Seq::<char>::empty());
            assert(t + ts + tt == t + seq![' '] + b);
            assert(words(t) + seq![b] + at == words(t) + seq![b]);
        }
    } else {
        assert(ts == Seq::<char>::empty());
        if i.tags.len() > 0 {
            assert(t + ts + tt == t + seq![' '] + jn);
            lemma_words_concat(t, jn);
            assert(words(t) + Seq::<Seq<char>>::empty() + at == words(t) + at);
        } else {
            assert(at.len() == 0);
            assert(tt == Seq::<char>::empty());
            assert(t + ts + tt == t);
            assert(words(t) + Seq::<Seq<char>>::empty() + at == words(t));
        }
    }
    b
}

/// Reading back the line of a well-formed item gives that item.
#[verifier::spinoff_prover]
#[verifier::rlimit(40)]
pub proof fn law_item_round_trip(i: ItemV)
    requires
        item_ok(i),
    ensures
        parse_line_spec(item_line(i)) == Some(i),
        line_ok(item_line(i)),
{
    reveal_strlit("- [x] ");
    reveal_strlit("- [ ] ");
    reveal_strlit("- [X] ");
    let line = item_line(i);
    reveal_strlit("[");
    reveal_strlit("]");
    let rest = i.title + time_suffix(i.time_secs) + tags_text(i.tags);
    assert(line == box_text(i.done) + rest);
    assert(!is_ws(line[0]));
    assert(trim_start(line) == line);
    assert(line.take(6) == box_text(i.done));
    assert(line.skip(6) == rest);
    if i.done {
        assert(line.take(6)[3] == 'x');
        assert(box_text(false)[3] == ' ');
        assert(!has_prefix(line, box_text(false)));
    }
    assert(checkbox(line) == Some((i.done, rest)));
    let b = lemma_item_rest_words(i);
    let at = i.tags.map_values(|t: Seq<char>| at_tag(t));
    let ws = words(rest);
    let head = words(i.title) + (if i.time_secs > 0 { seq![b] } else { seq![] });
    assert(ws == head + at);
    assert forall|j: int| 0 <= j < at.len() implies is_tag_word(#[trigger] at[j]) by {
        assert(tag_ok(i.tags[j]));
    }
    lemma_trailing_append(head, at);
    if i.time_secs > 0 {
        assert(head.drop_last() == words(i.title));
        assert(trailing_tags(head) == 0);
    } else {
        assert(head == words(i.title));
    }
    let split = ws.len() - trailing_tags(ws);
    assert(split == head.len());
    assert(ws.take(split) == head);
    assert(ws.skip(split) == at);
    let dropped = at.map_values(|w: Seq<char>| drop_at(w));
    assert(dropped == i.tags) by {
        assert forall|j: int| 0 <= j < i.tags.len() implies #[trigger] dropped[j] == i.tags[j] by {
            assert(drop_at(at_tag(i.tags[j])) == i.tags[j]);
        }
    }
    let tt = join(head, space());
    assert(extract_tags_spec(rest) == (tt, i.tags));
    if i.time_secs > 0 {
        let fmt = time_text(i.time_secs as nat);
        law_time_round_trip(i.time_secs);
        lemma_time_text_chars(i.time_secs as nat);
        let pre = if words(i.title).len() == 0 { Seq::<char>::empty() } else { i.title + space() };
        if words(i.title).len() == 0 {
            assert(head == seq![b]);
            assert(tt == b);
            assert(i.title == Seq::<char>::empty());
        } else {
            lemma_join_push(words(i.title), b);
            assert(tt == i.title + space() + b);
        }
        assert(tt == pre + seq!['['] + fmt + seq![']']);
        assert(!is_ws(tt.last()));
        lemma_trim_end_keeps(tt);
        assert forall|j: int| 0 <= j < (fmt + seq![']']).len() implies #[trigger] (fmt + seq![']'])[j] != '[' by {
            if j < fmt.len() {
                assert(time_char(fmt[j]));
            }
        }
        assert(tt == (pre + seq!['[']) + (fmt + seq![']']));
        lemma_last_index_suffix(pre + seq!['['], fmt + seq![']'], '[');
        assert(last_index(pre + seq!['['], '[') == pre.len());
        assert(tt.subrange(pre.len() as int + 1, tt.len() - 1) == fmt);
        assert(time_slot(tt) == Some((pre.len() as int, fmt)));
        assert(tt.take(pre.len() as int) == pre);
        if words(i.title).len() > 0 {
            lemma_words_elements(i.title);
            lemma_join_last(words(i.title));
            assert(pre.drop_last() == i.title);
            lemma_trim_end_keeps(i.title);
        }
        assert(trim_end(pre) == i.title);
        assert(extract_time_spec(tt) == (i.title, i.time_secs as nat));
    } else {
        assert(tt == i.title);
    }
}

} // verus!

verus! {

/// A list that reads back unchanged from its file: a name with no
/// whitespace at either end and no line break, a reset date without a line
/// break, and well-formed items.
pub open spec fn list_wf(l: ListV) -> bool {
    &&& l.name.len() > 0
    &&& !is_ws(l.name[0])
    &&& !is_ws(l.name.last())
    &&& no_newline(l.name)
    &&& (l.last_reset matches Some(d) ==> no_newline(d))
    &&& forall|j: int| 0 <= j < l.items.len() ==> item_ok(#[trigger] l.items[j])
}

pub open spec fn item_lines(items: Seq<ItemV>) -> Seq<Seq<char>> {
    items.map_values(|i: ItemV| item_line(i))
}

proof fn lemma_trim_end_prefix(s: Seq<char>)
    ensures
        trim_end(s).len() <= s.len(),
        trim_end(s) == s.take(trim_end(s).len() as int),
        s.len() > 0 && !is_ws(s[0]) ==> trim_end(s).len() > 0,
    decreases s.len(),
{
    if s.len() > 0 && is_ws(s.last()) {
        lemma_trim_end_prefix(s.drop_last());
        assert(s.drop_last().take(trim_end(s).len() as int) == s.take(trim_end(s).len() as int));
        if s.len() > 0 && !is_ws(s[0]) && s.len() == 1 {
            assert(s.last() == s[0]);
        }
        if s.len() > 1 {
            assert(s.drop_last()[0] == s[0]);
        }
    } else {
        assert(s.take(s.len() as int) == s);
    }
}

/// A line whose first character is not whitespace and is none of `#`, `<`
/// and `-` is skipped when a list file is read.
proof fn lemma_trim_first(line: Seq<char>)
    requires
        line.len() > 0,
        !is_ws(line[0]),
    ensures
        trim(line).len() > 0,
        trim(line)[0] == line[0],
{
    assert(trim_start(line) == line);
    lemma_trim_end_prefix(line);
    assert(trim(line)[0] == line.take(trim(line).len() as int)[0]);
}

proof fn lemma_item_line_facts(i: ItemV)
    requires
        item_ok(i),
    ensures
        item_line(i).len() > 0,
        item_line(i)[0] == '-',
        no_newline(item_line(i)),
        strip_cr(item_line(i)) == item_line(i),
{
    reveal_strlit("- [x] ");
    reveal_strlit("- [ ] ");
    reveal_strlit(" [");
    reveal_strlit("]");
    let line = item_line(i);
    let bx = box_text(i.done);
    let ts = time_suffix(i.time_secs);
    let tt = tags_text(i.tags);
    assert(line == bx + i.title + ts + tt);
    lemma_words_elements(i.title);
    let tw = words(i.title);
    assert forall|k: int| 0 <= k < i.title.len() implies #[trigger] i.title[k] != '\n' by {
        lemma_join_no_newline(tw);
    }
    lemma_time_text_chars(i.time_secs as nat);
    let at = i.tags.map_values(|t: Seq<char>| at_tag(t));
    assert forall|j: int| 0 <= j < at.len() implies (#[trigger] at[j]).len() > 0 && no_ws(at[j]) by {
        assert(tag_ok(i.tags[j]));
        assert(at[j] == at_tag(i.tags[j]));
        assert forall|k: int| 0 <= k < at[j].len() implies !is_ws(#[trigger] at[j][k]) by {
            if k > 0 {
                assert(at[j][k] == i.tags[j][k - 1]);
            }
        }
    }
    lemma_join_no_newline(at);
    assert forall|k: int| 0 <= k < line.len() implies #[trigger] line[k] != '\n' by {
        if k < 6 {
            assert(line[k] == bx[k]);
        } else if k < 6 + i.title.len() {
            assert(line[k] == i.title[k - 6]);
        } else if k < 6 + i.title.len() + ts.len() {
            assert(line[k] == ts[k - 6 - i.title.len()]);
            if i.time_secs > 0 {
                let j = k - 6 - i.title.len();
                if 2 <= j < ts.len() - 1 {
                    assert(ts[j] == time_text(i.time_secs as nat)[j - 2]);
                    assert(time_char(time_text(i.time_secs as nat)[j - 2]));
                }
            }
        } else {
            let j = k - 6 - i.title.len() - ts.len();
            assert(line[k] == tt[j]);
            if j > 0 {
                assert(tt[j] == join(at, space())[j - 1]);
            }
        }
    }
    // The last character is a word character, `]` or the space of the box.
    if tt.len() > 0 {
        lemma_join_last(at);
        assert(line.last() == tt.last());
        assert(at.last().last() == at[at.len() - 1][at[at.len() - 1].len() - 1]);
        assert(!is_ws(at.last().last()));
    } else if ts.len() > 0 {
        assert(line.last() == ']');
    } else if i.title.len() > 0 {
        assert(line.last() == i.title.last());
        if tw.len() == 0 {
            assert(i.title == join(tw, space()));
        } else {
            lemma_join_last(tw);
            assert(!is_ws(tw.last().last())) by {
                assert(no_ws(tw[tw.len() - 1]));
            }
        }
    } else {
        assert(line == bx);
        assert(line.last() == ' ');
    }
}

proof fn lemma_join_no_newline(ws: Seq<Seq<char>>)
    requires
        forall|j: int| 0 <= j < ws.len() ==> no_ws(#[trigger] ws[j]),
    ensures
        no_newline(join(ws, space())),
    decreases ws.len(),
{
    if ws.len() == 1 {
        assert(no_ws(ws[0]));
        assert(is_ws('\n'));
    } else if ws.len() > 1 {
        let d = ws.drop_last();
        assert forall|j: int| 0 <= j < d.len() implies no_ws(#[trigger] d[j]) by {
            assert(d[j] == ws[j]);
        }
        lemma_join_no_newline(d);
        let a = join(d, space());
        let l = ws.last();
        assert(no_ws(ws[ws.len() - 1]));
        assert(is_ws('\n'));
        assert forall|k: int| 0 <= k < join(ws, space()).len() implies #[trigger] join(ws, space())[k] != '\n' by {
            if k < a.len() {
                assert(join(ws, space())[k] == a[k]);
            } else if k == a.len() {
            } else {
                assert(join(ws, space())[k] == l[k - a.len() - 1]);
            }
        }
    }
}

proof fn lemma_lines_items(items: Seq<ItemV>)
    requires
        forall|j: int| 0 <= j < items.len() ==> item_ok(#[trigger] items[j]),
    ensures
        lines(items_text(items)) == item_lines(items),
        items_text(items).len() == 0 || items_text(items).last() == '\n',
    decreases items.len(),
{
    if items.len() > 0 {
        let d = items.drop_last();
        assert forall|j: int| 0 <= j < d.len() implies item_ok(#[trigger] d[j]) by {
            assert(d[j] == items[j]);
        }
        lemma_lines_items(d);
        let last = items.last();
        assert(item_ok(items[items.len() - 1]));
        lemma_item_line_facts(last);
        lemma_lines_append(items_text(d), item_text(last));
        lemma_lines_single(item_line(last));
        assert(items_text(items) == items_text(d) + item_text(last));
        assert(item_text(last) == item_line(last) + seq!['\n']);
        assert(item_lines(items) == item_lines(d).push(item_line(last)));
        assert(lines(items_text(items)) == item_lines(d) + seq![item_line(last)]);
    } else {
        assert(item_lines(items) == Seq::<Seq<char>>::empty());
    }
}

proof fn lemma_step_item(st: ListScan, i: ItemV)
    requires
        item_ok(i),
    ensures
        list_step(st, item_line(i)) == (ListScan { items: st.items.push(i), ..st }),
{
    reveal_strlit("# ");
    reveal_strlit("<!-- type: daily -->");
    reveal_strlit("<!-- last-reset: ");
    let line = item_line(i);
    lemma_item_line_facts(i);
    lemma_trim_first(line);
    let t = trim(line);
    if has_prefix(t, "# "@) {
        assert(t.take(2)[0] == t[0]);
    }
    assert(t != daily_marker()) by {
        assert(daily_marker()[0] == '<');
    }
    if has_prefix(t, reset_open()) {
        assert(t.take(17)[0] == t[0]);
    }
    law_item_round_trip(i);
}

proof fn lemma_scan_items(p: Seq<Seq<char>>, items: Seq<ItemV>)
    requires
        forall|j: int| 0 <= j < items.len() ==> item_ok(#[trigger] items[j]),
    ensures
        list_scan(p + item_lines(items)) == (ListScan { items: list_scan(p).items + items, ..list_scan(p) }),
    decreases items.len(),
{
    if items.len() == 0 {
        assert(item_lines(items) == Seq::<Seq<char>>::empty());
        assert(p + item_lines(items) == p);
        assert(list_scan(p).items + items == list_scan(p).items);
    } else {
        let d = items.drop_last();
        assert forall|j: int| 0 <= j < d.len() implies item_ok(#[trigger] d[j]) by {
            assert(d[j] == items[j]);
        }
        lemma_scan_items(p, d);
        let last = items.last();
        assert(item_ok(items[items.len() - 1]));
        let line = item_line(last);
        assert(p + item_lines(items) == (p + item_lines(d)).push(line));
        assert((p + item_lines(items)).drop_last() == p + item_lines(d));
        assert(item_lines(items) == item_lines(d).push(line));
        assert(p + item_lines(items) == (p + item_lines(d)).push(line));
        assert((p + item_lines(items)).last() == line);
        lemma_step_item(list_scan(p + item_lines(d)), last);
        assert(list_scan(p + item_lines(items)) == list_step(list_scan(p + item_lines(d)), line));
        assert((list_scan(p).items + d).push(last) == list_scan(p).items + items);
    }
}

} // verus!

verus! {

pub open spec fn head_lines(l: ListV) -> Seq<Seq<char>> {
    seq!["# "@ + l.name] + (if l.list_type == ListType::Daily {
        seq![daily_marker()]
    } else {
        seq![]
    }) + (match l.last_reset {
        Some(d) => seq![reset_open() + d + reset_close()],
        None => seq![],
    }) + seq![Seq::<char>::empty()]
}

#[verifier::spinoff_prover]
#[verifier::rlimit(40)]
proof fn lemma_list_lines(l: ListV)
    requires
        list_wf(l),
    ensures
        lines(list_text(l)) == head_lines(l) + item_lines(l.items),
{
    reveal_strlit("# ");
    reveal_strlit("<!-- type: daily -->");
    reveal_strlit("<!-- last-reset: ");
    reveal_strlit(" -->");
    let h = "# "@ + l.name;
    let nl = seq!['\n'];
    let dm = if l.list_type == ListType::Daily { daily_marker() + nl } else { seq![] };
    let rm = match l.last_reset {
        Some(d) => reset_open() + d + reset_close() + nl,
        None => seq![],
    };
    let it = items_text(l.items);
    let r3 = nl + it;
    let r2 = rm + r3;
    let r1 = dm + r2;
    assert(list_text(l) == h + nl + r1);
    assert(no_newline(h)) by {
        assert forall|k: int| 0 <= k < h.len() implies #[trigger] h[k] != '\n' by {
            if k >= 2 {
                assert(h[k] == l.name[k - 2]);
            }
        }
    }
    assert(h.last() == l.name.last());
    assert(is_ws('\r'));
    lemma_lines_cons(h, r1);
    lemma_lines_items(l.items);
    let e = Seq::<char>::empty();
    assert(r3 == e + nl + it);
    lemma_lines_cons(e, it);
    let rl = match l.last_reset {
        Some(d) => seq![reset_open() + d + reset_close()],
        None => Seq::<Seq<char>>::empty(),
    };
    match l.last_reset {
        Some(d) => {
            let rline = reset_open() + d + reset_close();
            assert(no_newline(rline)) by {
                assert forall|k: int| 0 <= k < rline.len() implies #[trigger] rline[k] != '\n' by {
                    if 17 <= k < 17 + d.len() {
                        assert(rline[k] == d[k - 17]);
                    }
                }
            }
            assert(r2 == rline + nl + r3);
            lemma_lines_cons(rline, r3);
            assert(strip_cr(rline) == rline);
        },
        None => {
            assert(r2 == r3);
            assert(lines(r2) == rl + lines(r3));
        },
    }
    let dl = if l.list_type == ListType::Daily { seq![daily_marker()] } else { Seq::<Seq<char>>::empty() };
    if l.list_type == ListType::Daily {
        assert(r1 == daily_marker() + nl + r2);
        lemma_lines_cons(daily_marker(), r2);
        assert(strip_cr(daily_marker()) == daily_marker());
    } else {
        assert(r1 == r2);
        assert(lines(r1) == dl + lines(r2));
    }
    assert(strip_cr(e) == e);
    assert(lines(list_text(l)) == seq![h] + dl + rl + seq![e] + item_lines(l.items));
}

proof fn lemma_scan_head(l: ListV)
    requires
        list_wf(l),
    ensures
        list_scan(head_lines(l)) == (ListScan {
            name: l.name,
            items: seq![],
            daily: l.list_type == ListType::Daily,
            last_reset: l.last_reset,
        }),
        forall|i: int| 0 <= i < head_lines(l).len() ==> checkbox(#[trigger] head_lines(l)[i]) is None,
{
    reveal_strlit("# ");
    reveal_strlit("<!-- type: daily -->");
    reveal_strlit("<!-- last-reset: ");
    reveal_strlit(" -->");
    reveal_strlit("- [ ] ");
    reveal_strlit("- [x] ");
    reveal_strlit("- [X] ");
    reveal_strlit("Untitled");
    let h = "# "@ + l.name;
    let e = Seq::<char>::empty();
    let init = ListScan { name: "Untitled"@, items: seq![], daily: false, last_reset: None };
    // The heading names the list.
    assert(h.last() == l.name.last());
    assert(h[0] == '#');
    lemma_trim_keeps(h);
    assert(trim(h) == h);
    assert(h.take(2) == "# "@);
    assert(has_prefix(h, "# "@));
    assert(h.skip(2) == l.name);
    lemma_trim_keeps(l.name);
    let s1 = ListScan { name: l.name, ..init };
    assert(list_step(init, h) == s1);
    assert(seq![h].drop_last() == Seq::<Seq<char>>::empty());
    assert(list_scan(Seq::<Seq<char>>::empty()) == init);
    assert(seq![h].last() == h);
    assert(list_scan(seq![h]) == list_step(list_scan(seq![h].drop_last()), seq![h].last()));
    assert(list_scan(seq![h]) == s1);
    // The daily marker makes it daily.
    let dm = daily_marker();
    lemma_trim_keeps(dm);
    assert(!has_prefix(dm, "# "@)) by {
        assert(dm.take(2)[0] == '<');
    }
    let s2 = ListScan { daily: l.list_type == ListType::Daily, ..s1 };
    let dl = if l.list_type == ListType::Daily { seq![dm] } else { Seq::<Seq<char>>::empty() };
    if l.list_type == ListType::Daily {
        assert(list_step(s1, dm) == s2);
        assert((seq![h] + dl).drop_last() == seq![h]);
    } else {
        assert(seq![h] + dl == seq![h]);
    }
    assert(list_scan(seq![h] + dl) == s2);
    // The reset marker records the date.
    let s3 = ListScan { last_reset: l.last_reset, ..s2 };
    let rl = match l.last_reset {
        Some(d) => seq![reset_open() + d + reset_close()],
        None => Seq::<Seq<char>>::empty(),
    };
    match l.last_reset {
        Some(d) => {
            let rline = reset_open() + d + reset_close();
            assert(rline.last() == '>');
            lemma_trim_keeps(rline);
            assert(!has_prefix(rline, "# "@)) by {
                assert(rline.take(2)[0] == '<');
            }
            assert(rline != dm) by {
                assert(rline[5] == 'l');
                assert(dm[5] == 't');
            }
            assert(rline.take(17) == reset_open());
            assert(rline.skip(17) == d + reset_close());
            assert((d + reset_close()).skip((d + reset_close()).len() - 4) == reset_close());
            assert(rline.skip(17).take(rline.len() - 17 - 4) == d);
            assert(list_step(s2, rline) == s3);
            assert((seq![h] + dl + rl).drop_last() == seq![h] + dl);
        },
        None => {
            assert(seq![h] + dl + rl == seq![h] + dl);
        },
    }
    assert(list_scan(seq![h] + dl + rl) == s3);
    // The blank line changes nothing.
    assert(trim(e) == e);
    assert(checkbox(e) is None);
    assert(list_step(s3, e) == s3);
    assert(head_lines(l) == seq![h] + dl + rl + seq![e]);
    assert((seq![h] + dl + rl + seq![e]).drop_last() == seq![h] + dl + rl);
    // No line of the head is a checkbox line.
    assert forall|i: int| 0 <= i < head_lines(l).len() implies checkbox(#[trigger] head_lines(l)[i]) is None by {
        let x = head_lines(l)[i];
        if x.len() > 0 {
            assert(x[0] == '#' || x[0] == '<');
            assert(trim_start(x) == x);
            if x.len() >= 6 {
                assert(x.take(6)[0] == x[0]);
            }
        } else {
            assert(trim_start(x) == x);
        }
    }
}

/// Writing a well-formed list gives, line by line: its heading, the daily
/// marker and the last-reset marker where it has them, a blank line, then
/// one line per item in order, each starting with its checkbox; the text
/// ends with a line break.
pub proof fn law_list_lines(l: ListV)
    requires
        list_wf(l),
    ensures
        lines(list_text(l)) == head_lines(l) + item_lines(l.items),
        head_lines(l).len() == 2 + (if l.list_type == ListType::Daily { 1int } else { 0 }) + (if l.last_reset is Some {
            1int
        } else {
            0
        }),
        head_lines(l)[0] == "# "@ + l.name,
        lines(list_text(l)).len() == head_lines(l).len() + l.items.len(),
        forall|j: int| 0 <= j < l.items.len() ==> has_prefix(
            #[trigger] lines(list_text(l))[head_lines(l).len() + j],
            box_text(l.items[j].done),
        ),
        list_text(l).last() == '\n',
{
    lemma_list_lines(l);
    lemma_lines_items(l.items);
    let ls = lines(list_text(l));
    assert forall|j: int| 0 <= j < l.items.len() implies has_prefix(
        #[trigger] ls[head_lines(l).len() + j],
        box_text(l.items[j].done),
    ) by {
        assert(ls[head_lines(l).len() + j] == item_line(l.items[j]));
        let b = box_text(l.items[j].done);
        assert(item_line(l.items[j]).take(b.len() as int) == b);
    }
}

/// The name that a line gives the list: the text after `# ` on a heading
/// line, trimmed, where that text is not blank.
pub open spec fn heading_of(line: Seq<char>) -> Option<Seq<char>> {
    let t = trim(line);
    if has_prefix(t, "# "@) && trim(t.skip(2)).len() > 0 {
        Some(trim(t.skip(2)))
    } else {
        None
    }
}

/// The date that a line records as the last reset: the text between
/// `<!-- last-reset: ` and ` -->` on a line that is exactly that marker.
pub open spec fn reset_of(line: Seq<char>) -> Option<Seq<char>> {
    let t = trim(line);
    if has_prefix(t, reset_open()) && has_suffix(t.skip(17), reset_close()) {
        Some(t.skip(17).take(t.len() - 17 - 4))
    } else {
        None
    }
}

pub open spec fn item_of_line() -> spec_fn(Seq<char>) -> Option<ItemV> {
    |line: Seq<char>| parse_line_spec(line)
}

proof fn lemma_line_kinds(x: Seq<char>)
    ensures
        has_prefix(trim(x), "# "@) ==> parse_line_spec(x) is None && trim(x) != daily_marker() && reset_of(x) is None,
        trim(x) == daily_marker() ==> parse_line_spec(x) is None && reset_of(x) is None,
        reset_of(x) is Some ==> parse_line_spec(x) is None,
{
    reveal_strlit("# ");
    reveal_strlit("<!-- type: daily -->");
    reveal_strlit("<!-- last-reset: ");
    reveal_strlit("- [ ] ");
    reveal_strlit("- [x] ");
    reveal_strlit("- [X] ");
    let ts = trim_start(x);
    let t = trim(x);
    lemma_trim_end_prefix(ts);
    if t.len() > 0 {
        assert(t[0] == ts[0]);
        if ts.len() >= 6 {
            assert(ts.take(6)[0] == ts[0]);
        }
    }
    if has_prefix(t, "# "@) {
        assert(t.take(2)[0] == '#');
        assert(t.len() != 20 || t[0] != daily_marker()[0]);
        if t.len() >= 17 {
            assert(t.take(17)[0] == '#');
        }
    }
    if t == daily_marker() {
        assert(t.take(17)[5] == 't');
    }
    if reset_of(x) is Some {
        assert(t.take(17)[0] == '<');
    }
}

#[verifier::spinoff_prover]
proof fn lemma_scan_checkbox_lines(ls: Seq<Seq<char>>)
    ensures
        list_scan(ls).items == ls.filter_map(item_of_line()),
    decreases ls.len(),
{
    if ls.len() > 0 {
        let d = ls.drop_last();
        let x = ls.last();
        lemma_scan_checkbox_lines(d);
        lemma_line_kinds(x);
        assert(list_scan(ls) == list_step(list_scan(d), x));
        assert(ls.filter_map(item_of_line()) == match parse_line_spec(x) {
            Some(it) => d.filter_map(item_of_line()) + seq![it],
            None => d.filter_map(item_of_line()),
        });
    }
}

#[verifier::spinoff_prover]
proof fn lemma_scan_daily(ls: Seq<Seq<char>>)
    ensures
        list_scan(ls).daily <==> exists|i: int| 0 <= i < ls.len() && trim(#[trigger] ls[i]) == daily_marker(),
    decreases ls.len(),
{
    if ls.len() > 0 {
        let d = ls.drop_last();
        let x = ls.last();
        let n = ls.len() - 1;
        lemma_scan_daily(d);
        lemma_line_kinds(x);
        assert(ls[n] == x);
        let st = list_scan(d);
        assert(list_scan(ls) == list_step(st, x));
        if list_scan(ls).daily {
            if !st.daily {
                assert(trim(ls[n]) == daily_marker());
            } else {
                let i = choose|i: int| 0 <= i < d.len() && trim(#[trigger] d[i]) == daily_marker();
                assert(ls[i] == d[i]);
            }
        }
        if exists|i: int| 0 <= i < ls.len() && trim(#[trigger] ls[i]) == daily_marker() {
            let i = choose|i: int| 0 <= i < ls.len() && trim(#[trigger] ls[i]) == daily_marker();
            if i < n {
                assert(ls[i] == d[i]);
                assert(trim(d[i]) == daily_marker());
            }
        }
    }
}

#[verifier::spinoff_prover]
proof fn lemma_scan_name(ls: Seq<Seq<char>>)
    ensures
        (forall|i: int| 0 <= i < ls.len() ==> heading_of(#[trigger] ls[i]) is None) ==> list_scan(ls).name == "Untitled"@,
        forall|i: int|
            0 <= i < ls.len() && heading_of(#[trigger] ls[i]) is Some && (forall|j: int| i < j < ls.len() ==> heading_of(#[trigger] ls[j]) is None)
                ==> list_scan(ls).name == heading_of(ls[i])->0,
    decreases ls.len(),
{
    if ls.len() > 0 {
        let d = ls.drop_last();
        let x = ls.last();
        let n = ls.len() - 1;
        lemma_scan_name(d);
        assert(ls[n] == x);
        let st = list_scan(d);
        assert(list_scan(ls) == list_step(st, x));
        if heading_of(x) is None {
            assert(list_scan(ls).name == st.name);
        }
        if forall|i: int| 0 <= i < ls.len() ==> heading_of(#[trigger] ls[i]) is None {
            assert forall|i: int| 0 <= i < d.len() implies heading_of(#[trigger] d[i]) is None by {
                assert(ls[i] == d[i]);
                assert(heading_of(ls[i]) is None);
            }
            assert(heading_of(ls[n]) is None);
        }
        assert forall|i: int|
            0 <= i < ls.len() && heading_of(#[trigger] ls[i]) is Some && (forall|j: int| i < j < ls.len() ==> heading_of(#[trigger] ls[j]) is None)
            implies list_scan(ls).name == heading_of(ls[i])->0 by {
            if i < n {
                assert(heading_of(ls[n]) is None);
                assert(ls[i] == d[i]);
                assert(heading_of(d[i]) is Some);
                assert forall|j: int| i < j < d.len() implies heading_of(#[trigger] d[j]) is None by {
                    assert(ls[j] == d[j]);
                    assert(heading_of(ls[j]) is None);
                }
            }
        }
    }
}

#[verifier::spinoff_prover]
proof fn lemma_scan_reset(ls: Seq<Seq<char>>)
    ensures
        (forall|i: int| 0 <= i < ls.len() ==> reset_of(#[trigger] ls[i]) is None) ==> list_scan(ls).last_reset is None,
        forall|i: int|
            0 <= i < ls.len() && reset_of(#[trigger] ls[i]) is Some && (forall|j: int| i < j < ls.len() ==> reset_of(#[trigger] ls[j]) is None)
                ==> list_scan(ls).last_reset == reset_of(ls[i]),
    decreases ls.len(),
{
    if ls.len() > 0 {
        let d = ls.drop_last();
        let x = ls.last();
        let n = ls.len() - 1;
        lemma_scan_reset(d);
        lemma_line_kinds(x);
        assert(ls[n] == x);
        let st = list_scan(d);
        assert(list_scan(ls) == list_step(st, x));
        if reset_of(x) is None {
            assert(list_scan(ls).last_reset == st.last_reset);
        }
        if forall|i: int| 0 <= i < ls.len() ==> reset_of(#[trigger] ls[i]) is None {
            assert forall|i: int| 0 <= i < d.len() implies reset_of(#[trigger] d[i]) is None by {
                assert(ls[i] == d[i]);
                assert(reset_of(ls[i]) is None);
            }
            assert(reset_of(ls[n]) is None);
        }
        assert forall|i: int|
            0 <= i < ls.len() && reset_of(#[trigger] ls[i]) is Some && (forall|j: int| i < j < ls.len() ==> reset_of(#[trigger] ls[j]) is None)
            implies list_scan(ls).last_reset == reset_of(ls[i]) by {
            if i < n {
                assert(reset_of(ls[n]) is None);
                assert(ls[i] == d[i]);
                assert(reset_of(d[i]) is Some);
                assert forall|j: int| i < j < d.len() implies reset_of(#[trigger] d[j]) is None by {
                    assert(ls[j] == d[j]);
                    assert(reset_of(ls[j]) is None);
                }
            }
        }
    }
}

/// Reading a list file line by line: its items are the items of its
/// checkbox lines, in order; its name is that of the last heading with a
/// name, or `Untitled` where there is none; it is daily exactly when some
/// line is the daily marker; and its last reset is that of the last
/// last-reset marker, or none.
pub proof fn law_list_by_lines(c: Seq<char>)
    ensures
        ({
            let ls = lines(c);
            let r = parse_list_spec(c);
            &&& r.items == ls.filter_map(item_of_line())
            &&& (r.list_type == ListType::Daily <==> exists|i: int| 0 <= i < ls.len() && trim(#[trigger] ls[i]) == daily_marker())
            &&& ((forall|i: int| 0 <= i < ls.len() ==> heading_of(#[trigger] ls[i]) is None) ==> r.name == "Untitled"@)
            &&& (forall|i: int|
                0 <= i < ls.len() && heading_of(#[trigger] ls[i]) is Some && (forall|j: int| i < j < ls.len() ==> heading_of(#[trigger] ls[j]) is None)
                    ==> r.name == heading_of(ls[i])->0)
            &&& ((forall|i: int| 0 <= i < ls.len() ==> reset_of(#[trigger] ls[i]) is None) ==> r.last_reset is None)
            &&& (forall|i: int|
                0 <= i < ls.len() && reset_of(#[trigger] ls[i]) is Some && (forall|j: int| i < j < ls.len() ==> reset_of(#[trigger] ls[j]) is None)
                    ==> r.last_reset == reset_of(ls[i]))
        }),
{
    let ls = lines(c);
    lemma_scan_checkbox_lines(ls);
    lemma_scan_daily(ls);
    lemma_scan_name(ls);
    lemma_scan_reset(ls);
}

/// Words separated by single spaces, with no whitespace at either end.
pub open spec fn single_spaced(s: Seq<char>) -> bool {
    &&& (s.len() > 0 ==> !is_ws(s[0]) && !is_ws(s.last()))
    &&& forall|i: int| 0 <= i < s.len() && is_ws(#[trigger] s[i]) ==> s[i] == ' ' && i + 1 < s.len() && !is_ws(s[i + 1])
}

proof fn lemma_join_spaced(ws: Seq<Seq<char>>)
    requires
        forall|i: int| 0 <= i < ws.len() ==> (#[trigger] ws[i]).len() > 0 && no_ws(ws[i]),
    ensures
        single_spaced(join(ws, space())),
    decreases ws.len(),
{
    if ws.len() == 1 {
        assert(join(ws, space()) == ws[0]);
        assert(!is_ws(ws[0][0]));
        assert(!is_ws(ws[0][ws[0].len() - 1]));
    } else if ws.len() > 1 {
        let d = ws.drop_last();
        assert forall|i: int| 0 <= i < d.len() implies (#[trigger] d[i]).len() > 0 && no_ws(d[i]) by {
            assert(d[i] == ws[i]);
        }
        lemma_join_spaced(d);
        lemma_join_last(d);
        let jd = join(d, space());
        let w = ws.last();
        assert(w == ws[ws.len() - 1]);
        let x = jd + seq![' '] + w;
        assert(join(ws, space()) == x);
        assert(is_ws(' '));
        assert forall|i: int| 0 <= i < x.len() && is_ws(#[trigger] x[i]) implies x[i] == ' ' && i + 1 < x.len() && !is_ws(x[i + 1]) by {
            if i < jd.len() {
                assert(x[i] == jd[i]);
                if i + 1 < jd.len() {
                    assert(x[i + 1] == jd[i + 1]);
                } else {
                    assert(jd[i] == jd.last());
                }
            } else if i == jd.len() {
                assert(x[i + 1] == w[0]);
            } else {
                assert(x[i] == w[i - jd.len() - 1]);
            }
        }
        assert(x[0] == jd[0]);
        assert(x.last() == w.last());
        assert(!is_ws(w[w.len() - 1]));
    }
}

proof fn lemma_join_cons(a: Seq<char>, ws: Seq<Seq<char>>)
    requires
        ws.len() > 0,
    ensures
        join(seq![a] + ws, space()) == a + space() + join(ws, space()),
    decreases ws.len(),
{
    let x = seq![a] + ws;
    assert(x.len() > 1);
    if ws.len() == 1 {
        assert(x.drop_last() == seq![a]);
        assert(join(x.drop_last(), space()) == a);
        assert(x.last() == ws[0]);
        assert(join(ws, space()) == ws[0]);
        assert(join(x, space()) == join(x.drop_last(), space()) + space() + x.last());
    } else {
        let d = ws.drop_last();
        lemma_join_cons(a, d);
        assert(x.drop_last() == seq![a] + d);
        assert(x.last() == ws.last());
        assert(join(x, space()) == join(seq![a] + d, space()) + space() + ws.last());
        assert(join(ws, space()) == join(d, space()) + space() + ws.last());
        assert(a + space() + join(d, space()) + space() + ws.last() == a + space() + (join(d, space()) + space() + ws.last()));
    }
}

proof fn lemma_spaced_join_words(s: Seq<char>)
    requires
        single_spaced(s),
    ensures
        s == join(words(s), space()),
    decreases s.len(),
{
    if s.len() > 0 {
        lemma_word_len(s);
        let n = word_len(s) as int;
        assert(!is_ws(s[0]));
        assert(words(s) == seq![s.take(n)] + words(s.skip(n)));
        if n == s.len() {
            assert(s.take(n) == s);
            assert(s.skip(n) == Seq::<char>::empty());
            assert(words(s.skip(n)) == Seq::<Seq<char>>::empty());
            assert(words(s) == seq![s]);
        } else {
            assert(is_ws(s[n]));
            let r = s.skip(n + 1);
            assert(r.len() > 0 && r[0] == s[n + 1]);
            assert(r.last() == s.last());
            assert forall|i: int| 0 <= i < r.len() && is_ws(#[trigger] r[i]) implies r[i] == ' ' && i + 1 < r.len() && !is_ws(r[i + 1]) by {
                assert(r[i] == s[n + 1 + i]);
                assert(is_ws(s[n + 1 + i]));
                if i + 1 < r.len() {
                    assert(r[i + 1] == s[n + 2 + i]);
                }
            }
            lemma_spaced_join_words(r);
            let sn = s.skip(n);
            assert(sn[0] == s[n]);
            assert(sn.drop_first() == r);
            assert(words(sn) == words(r));
            lemma_word_len(r);
            assert(words(r) == seq![r.take(word_len(r) as int)] + words(r.skip(word_len(r) as int)));
            lemma_join_cons(s.take(n), words(r));
            assert(seq![s.take(n)] + words(r) == words(s));
            assert(s == s.take(n) + space() + r);
        }
    }
}

proof fn lemma_trim_end_last(s: Seq<char>)
    ensures
        trim_end(s).len() > 0 ==> !is_ws(trim_end(s).last()),
    decreases s.len(),
{
    if s.len() > 0 && is_ws(s.last()) {
        lemma_trim_end_last(s.drop_last());
    }
}

proof fn lemma_spaced_prefix(s: Seq<char>, b: int)
    requires
        single_spaced(s),
        0 <= b <= s.len(),
    ensures
        single_spaced(trim_end(s.take(b))),
{
    let x = s.take(b);
    lemma_trim_end_prefix(x);
    lemma_trim_end_last(x);
    let y = trim_end(x);
    let m = y.len() as int;
    assert forall|i: int| 0 <= i < y.len() && is_ws(#[trigger] y[i]) implies y[i] == ' ' && i + 1 < y.len() && !is_ws(y[i + 1]) by {
        assert(y[i] == s[i]);
        assert(y[m - 1] == y.last());
        if i + 1 < y.len() {
            assert(y[i + 1] == s[i + 1]);
        }
    }
    if m > 0 {
        assert(y[0] == s[0]);
    }
}

proof fn lemma_trim_start_suffix(s: Seq<char>)
    ensures
        trim_start(s).len() <= s.len(),
        trim_start(s) == s.skip(s.len() - trim_start(s).len()),
        trim_start(s).len() > 0 ==> !is_ws(trim_start(s)[0]),
    decreases s.len(),
{
    if s.len() > 0 && is_ws(s[0]) {
        lemma_trim_start_suffix(s.drop_first());
        let k = s.drop_first().len() - trim_start(s).len();
        assert(s.drop_first().skip(k) == s.skip(k + 1));
    } else {
        assert(s.skip(0) == s);
    }
}

proof fn lemma_trim_facts(s: Seq<char>)
    ensures
        trim(s).len() > 0 ==> !is_ws(trim(s)[0]) && !is_ws(trim(s).last()),
        no_newline(s) ==> no_newline(trim(s)),
{
    lemma_trim_start_suffix(s);
    let ts = trim_start(s);
    lemma_trim_end_prefix(ts);
    lemma_trim_end_last(ts);
    let t = trim(s);
    let off = s.len() - ts.len();
    if t.len() > 0 {
        assert(t[0] == ts[0]);
    }
    if no_newline(s) {
        assert forall|i: int| 0 <= i < t.len() implies #[trigger] t[i] != '\n' by {
            assert(t[i] == ts[i]);
            assert(ts[i] == s[off + i]);
        }
    }
}

proof fn lemma_lines_no_newline(s: Seq<char>)
    ensures
        forall|i: int| 0 <= i < lines(s).len() ==> no_newline(#[trigger] lines(s)[i]),
    decreases s.len(),
{
    if s.len() > 0 {
        lemma_line_len(s);
        let n = line_len(s) as int;
        if n == s.len() {
            assert(lines(s) == seq![s]);
        } else {
            let rest = s.skip(n + 1);
            lemma_lines_no_newline(rest);
            let a = strip_cr(s.take(n));
            assert(lines(s) == seq![a] + lines(rest));
            assert forall|i: int| 0 <= i < a.len() implies #[trigger] a[i] != '\n' by {
                assert(a[i] == s[i]);
            }
            assert forall|i: int| 0 <= i < lines(s).len() implies no_newline(#[trigger] lines(s)[i]) by {
                if i > 0 {
                    assert(lines(s)[i] == lines(rest)[i - 1]);
                }
            }
        }
    }
}

/// An item read from a line whose duration fits reads back unchanged from
/// its own line.
#[verifier::spinoff_prover]
#[verifier::rlimit(40)]
proof fn lemma_parsed_item_ok(line: Seq<char>)
    requires
        line_ok(line),
        parse_line_spec(line) is Some,
    ensures
        item_ok(parse_line_spec(line)->0),
{
    let cb = checkbox(line)->0;
    let rest = cb.1;
    let ws = words(rest);
    law_extract_tags(rest);
    lemma_words_elements(rest);
    let r = extract_tags_spec(rest);
    let tt = r.0;
    let tags = r.1;
    let k = ws.len() - tags.len();
    let wk = ws.take(k);
    assert forall|i: int| 0 <= i < wk.len() implies (#[trigger] wk[i]).len() > 0 && no_ws(wk[i]) by {
        assert(wk[i] == ws[i]);
    }
    lemma_join_spaced(wk);
    lemma_words_join(wk);
    assert(tt == join(wk, space()));
    let it = parse_line_spec(line)->0;
    assert(it.tags == tags);
    assert forall|j: int| 0 <= j < tags.len() implies tag_ok(#[trigger] tags[j]) by {
        let w = ws[k + j];
        assert(tags[j] == w.drop_first());
        assert(is_tag_word(w));
        assert(at_tag(w.drop_first()) == w);
        assert(w == ws[k + j]);
        assert forall|q: int| 0 <= q < w.drop_first().len() implies !is_ws(#[trigger] w.drop_first()[q]) by {
            assert(w.drop_first()[q] == w[q + 1]);
        }
    }
    if tt.len() > 0 {
        assert(!is_ws(tt.last()));
    }
    assert(trim_end(tt) == tt);
    let et = extract_time_spec(tt);
    assert(it.title == et.0);
    assert(it.time_secs == et.1 as u64);
    match time_slot(tt) {
        Some((b, ts)) => match time_value(ts) {
            Some(v) => {
                lemma_last_index(tt, '[');
                lemma_spaced_prefix(tt, b);
                lemma_spaced_join_words(et.0);
                assert(v > 0);
                assert(v <= u64::MAX);
                assert(it.time_secs != 0);
            },
            None => {
                assert(et == (tt, 0nat));
            },
        },
        None => {
            assert(et == (tt, 0nat));
        },
    }
    if et.1 == 0 {
        assert(et.0 == tt);
        assert(words(tt) == wk);
        if wk.len() > 0 {
            assert(wk.last() == ws[k - 1]);
        }
    }
}

proof fn lemma_scan_wf(ls: Seq<Seq<char>>)
    requires
        forall|i: int| 0 <= i < ls.len() ==> line_ok(#[trigger] ls[i]) && no_newline(ls[i]),
    ensures
        list_scan(ls).name.len() > 0,
        !is_ws(list_scan(ls).name[0]),
        !is_ws(list_scan(ls).name.last()),
        no_newline(list_scan(ls).name),
        list_scan(ls).last_reset matches Some(d) ==> no_newline(d),
        forall|j: int| 0 <= j < list_scan(ls).items.len() ==> item_ok(#[trigger] list_scan(ls).items[j]),
    decreases ls.len(),
{
    if ls.len() == 0 {
        reveal_strlit("Untitled");
        let u = "Untitled"@;
        assert(u[0] == 'U');
        assert(u.last() == 'd');
        assert(!is_ws('U'));
        assert(!is_ws('d'));
        assert(list_scan(ls).name == u);
    } else {
        let d = ls.drop_last();
        let x = ls.last();
        assert(x == ls[ls.len() - 1]);
        assert forall|i: int| 0 <= i < d.len() implies line_ok(#[trigger] d[i]) && no_newline(d[i]) by {
            assert(d[i] == ls[i]);
        }
        lemma_scan_wf(d);
        reveal_strlit("# ");
        reveal_strlit("<!-- last-reset: ");
        reveal_strlit(" -->");
        let st = list_scan(d);
        assert(list_scan(ls) == list_step(st, x));
        let t = trim(x);
        lemma_trim_facts(x);
        if t.len() >= 2 {
            let t2 = t.skip(2);
            assert forall|i: int| 0 <= i < t2.len() implies #[trigger] t2[i] != '\n' by {
                assert(t2[i] == t[i + 2]);
            }
            lemma_trim_facts(t2);
        }
        if t.len() >= 21 {
            let dd = t.skip(17).take(t.len() - 17 - 4);
            assert forall|i: int| 0 <= i < dd.len() implies #[trigger] dd[i] != '\n' by {
                assert(dd[i] == t[i + 17]);
            }
        }
        if parse_line_spec(x) is Some {
            lemma_parsed_item_ok(x);
        }
        let items = list_scan(ls).items;
        assert forall|j: int| 0 <= j < items.len() implies item_ok(#[trigger] items[j]) by {
            if j < st.items.len() {
                assert(items[j] == st.items[j]);
            }
        }
    }
}

/// Reading a list file, writing the list that it gave and reading that
/// again gives the same list, for every file whose durations fit in a
/// `u64`: what is read is always well-formed.
pub proof fn law_read_write_read(c: Seq<char>)
    requires
        content_ok(c),
    ensures
        list_wf(parse_list_spec(c)),
        parse_list_spec(list_text(parse_list_spec(c))) == parse_list_spec(c),
{
    let ls = lines(c);
    lemma_lines_no_newline(c);
    assert forall|i: int| 0 <= i < ls.len() implies line_ok(#[trigger] ls[i]) && no_newline(ls[i]) by {}
    lemma_scan_wf(ls);
    law_list_round_trip(parse_list_spec(c));
}

/// No text of the item holds a line break.
pub open spec fn item_free(i: ItemV) -> bool {
    &&& no_newline(i.title)
    &&& forall|j: int| 0 <= j < i.tags.len() ==> no_newline(#[trigger] i.tags[j])
}

/// No text of the list holds a line break: its name, its reset date, and
/// the titles and tags of its items.
pub open spec fn list_free(l: ListV) -> bool {
    &&& no_newline(l.name)
    &&& (l.last_reset matches Some(d) ==> no_newline(d))
    &&& forall|j: int| 0 <= j < l.items.len() ==> item_free(#[trigger] l.items[j])
}

proof fn lemma_join_free(ws: Seq<Seq<char>>)
    requires
        forall|j: int| 0 <= j < ws.len() ==> no_newline(#[trigger] ws[j]),
    ensures
        no_newline(join(ws, space())),
    decreases ws.len(),
{
    if ws.len() == 1 {
        assert(join(ws, space()) == ws[0]);
    } else if ws.len() > 1 {
        let d = ws.drop_last();
        assert forall|j: int| 0 <= j < d.len() implies no_newline(#[trigger] d[j]) by {
            assert(d[j] == ws[j]);
        }
        lemma_join_free(d);
        let jd = join(d, space());
        let w = ws[ws.len() - 1];
        let x = jd + space() + w;
        assert(join(ws, space()) == x);
        assert forall|k: int| 0 <= k < x.len() implies #[trigger] x[k] != '\n' by {
            if k < jd.len() {
                assert(x[k] == jd[k]);
            } else if k > jd.len() {
                assert(x[k] == w[k - jd.len() - 1]);
            }
        }
    }
}

proof fn lemma_item_line_free(i: ItemV)
    requires
        item_free(i),
    ensures
        no_newline(item_line(i)),
        has_prefix(item_line(i), box_text(i.done)),
        item_line(i)[5] == ' ',
{
    reveal_strlit("- [x] ");
    reveal_strlit("- [ ] ");
    reveal_strlit(" [");
    reveal_strlit("]");
    let line = item_line(i);
    let bx = box_text(i.done);
    let ts = time_suffix(i.time_secs);
    let tt = tags_text(i.tags);
    assert(line == bx + i.title + ts + tt);
    lemma_time_text_chars(i.time_secs as nat);
    let at = i.tags.map_values(|t: Seq<char>| at_tag(t));
    assert forall|j: int| 0 <= j < at.len() implies no_newline(#[trigger] at[j]) by {
        assert(at[j] == at_tag(i.tags[j]));
        assert(no_newline(i.tags[j]));
        assert forall|k: int| 0 <= k < at[j].len() implies #[trigger] at[j][k] != '\n' by {
            if k > 0 {
                assert(at[j][k] == i.tags[j][k - 1]);
            }
        }
    }
    lemma_join_free(at);
    assert forall|k: int| 0 <= k < line.len() implies #[trigger] line[k] != '\n' by {
        if k < 6 {
            assert(line[k] == bx[k]);
        } else if k < 6 + i.title.len() {
            assert(line[k] == i.title[k - 6]);
        } else if k < 6 + i.title.len() + ts.len() {
            assert(line[k] == ts[k - 6 - i.title.len()]);
            if i.time_secs > 0 {
                let j = k - 6 - i.title.len();
                if 2 <= j < ts.len() - 1 {
                    assert(ts[j] == time_text(i.time_secs as nat)[j - 2]);
                    assert(time_char(time_text(i.time_secs as nat)[j - 2]));
                }
            }
        } else {
            let j = k - 6 - i.title.len() - ts.len();
            assert(line[k] == tt[j]);
            if j > 0 {
                assert(tt[j] == join(at, space())[j - 1]);
            }
        }
    }
    assert(line.take(6) == bx);
    assert(line[5] == bx[5]);
}

proof fn lemma_lines_items_free(items: Seq<ItemV>)
    requires
        forall|j: int| 0 <= j < items.len() ==> item_free(#[trigger] items[j]),
    ensures
        lines(items_text(items)) == items.map_values(|i: ItemV| strip_cr(item_line(i))),
        items_text(items).len() == 0 || items_text(items).last() == '\n',
    decreases items.len(),
{
    if items.len() > 0 {
        let d = items.drop_last();
        assert forall|j: int| 0 <= j < d.len() implies item_free(#[trigger] d[j]) by {
            assert(d[j] == items[j]);
        }
        lemma_lines_items_free(d);
        let last = items.last();
        assert(item_free(items[items.len() - 1]));
        lemma_item_line_free(last);
        lemma_lines_append(items_text(d), item_text(last));
        lemma_lines_single(item_line(last));
        assert(items_text(items) == items_text(d) + item_text(last));
        assert(item_text(last) == item_line(last) + seq!['\n']);
        assert(items.map_values(|i: ItemV| strip_cr(item_line(i))) == d.map_values(|i: ItemV| strip_cr(item_line(i))).push(
            strip_cr(item_line(last)),
        ));
    } else {
        assert(items.map_values(|i: ItemV| strip_cr(item_line(i))) == Seq::<Seq<char>>::empty());
    }
}

/// Writing a list none of whose texts holds a line break gives a text that
/// starts with its heading line and ends with a line break, and whose lines
/// are: the heading, the daily marker and the last-reset marker where it
/// has them, a blank line, then one line per item in order, each starting
/// with its checkbox.
#[verifier::spinoff_prover]
#[verifier::rlimit(40)]
pub proof fn law_list_lines_free(l: ListV)
    requires
        list_free(l),
    ensures
        has_prefix(list_text(l), "# "@ + l.name + seq!['\n']),
        list_text(l).last() == '\n',
        lines(list_text(l)).len() == 2 + (if l.list_type == ListType::Daily { 1int } else { 0 }) + (if l.last_reset is Some {
            1int
        } else {
            0
        }) + l.items.len(),
        forall|j: int| 0 <= j < l.items.len() ==> has_prefix(
            #[trigger] lines(list_text(l))[lines(list_text(l)).len() - l.items.len() + j],
            box_text(l.items[j].done),
        ),
{
    reveal_strlit("# ");
    reveal_strlit("<!-- type: daily -->");
    reveal_strlit("<!-- last-reset: ");
    reveal_strlit(" -->");
    let h = "# "@ + l.name;
    let nl = seq!['\n'];
    let dm = if l.list_type == ListType::Daily { daily_marker() + nl } else { seq![] };
    let rm = match l.last_reset {
        Some(d) => reset_open() + d + reset_close() + nl,
        None => seq![],
    };
    let it = items_text(l.items);
    let r3 = nl + it;
    let r2 = rm + r3;
    let r1 = dm + r2;
    assert(list_text(l) == h + nl + r1);
    assert(list_text(l).take(h.len() + 1 as int) == h + nl);
    assert forall|k: int| 0 <= k < h.len() implies #[trigger] h[k] != '\n' by {
        if k >= 2 {
            assert(h[k] == l.name[k - 2]);
        }
    }
    lemma_lines_cons(h, r1);
    lemma_lines_items_free(l.items);
    let il = l.items.map_values(|i: ItemV| strip_cr(item_line(i)));
    // The blank line and the items.
    let e = Seq::<char>::empty();
    assert(r3 == e + nl + it);
    lemma_lines_cons(e, it);
    assert(lines(r3).len() == 1 + il.len());
    // The last-reset marker.
    let rlen: int = match l.last_reset {
        Some(d) => {
            let rline = reset_open() + d + reset_close();
            assert forall|k: int| 0 <= k < rline.len() implies #[trigger] rline[k] != '\n' by {
                if 17 <= k < 17 + d.len() {
                    assert(rline[k] == d[k - 17]);
                }
            }
            lemma_lines_cons(rline, r3);
            assert(rm + r3 == rline + nl + r3);
            1
        },
        None => {
            assert(rm + r3 == r3);
            0
        },
    };
    assert(lines(r2).len() == rlen + lines(r3).len());
    let dlen: int = if l.list_type == ListType::Daily {
        lemma_lines_cons(daily_marker(), r2);
        assert(dm + r2 == daily_marker() + nl + r2);
        1
    } else {
        assert(dm + r2 == r2);
        0
    };
    assert(lines(r1).len() == dlen + lines(r2).len());
    let ls = lines(list_text(l));
    assert(ls.len() == 1 + lines(r1).len());
    // The item lines come last, each its item's line without a final `\r`.
    assert forall|j: int| 0 <= j < l.items.len() implies has_prefix(
        #[trigger] ls[ls.len() - l.items.len() + j],
        box_text(l.items[j].done),
    ) by {
        assert(ls[ls.len() - l.items.len() + j] == lines(r3)[1 + j]);
        assert(lines(r3)[1 + j] == il[j]);
        let x = item_line(l.items[j]);
        lemma_item_line_free(l.items[j]);
        let b = box_text(l.items[j].done);
        reveal_strlit("- [x] ");
        reveal_strlit("- [ ] ");
        assert(b.len() == 6);
        assert(x.take(6) == b);
        assert(il[j] == strip_cr(x));
        if x.len() > 0 && x.last() == '\r' {
            if x.len() == 6 {
                assert(x.last() == x[5]);
            }
            assert(x.drop_last().take(6) == x.take(6));
            assert(strip_cr(x) == x.drop_last());
        } else {
            assert(strip_cr(x) == x);
        }
    }
    if it.len() > 0 {
        assert(list_text(l).last() == it.last());
    } else {
        assert(list_text(l).last() == r3.last());
    }
}

/// Reading back the file of a well-formed list gives that list.
pub proof fn law_list_round_trip(l: ListV)
    requires
        list_wf(l),
    ensures
        content_ok(list_text(l)),
        parse_list_spec(list_text(l)) == l,
{
    lemma_list_lines(l);
    lemma_scan_head(l);
    lemma_scan_items(head_lines(l), l.items);
    assert(Seq::<ItemV>::empty() + l.items == l.items);
    let ls = lines(list_text(l));
    assert forall|i: int| 0 <= i < ls.len() implies line_ok(#[trigger] ls[i]) by {
        if i < head_lines(l).len() {
            assert(ls[i] == head_lines(l)[i]);
            assert(checkbox(head_lines(l)[i]) is None);
        } else {
            let j = i - head_lines(l).len();
            assert(ls[i] == item_line(l.items[j]));
            assert(item_ok(l.items[j]));
            law_item_round_trip(l.items[j]);
        }
    }
}

} // verus!

verus! {

// ---------------------------------------------------------------------------
// What the files of a context hold
// ---------------------------------------------------------------------------

/// The files that saving the lists writes: for each list, its file name and
/// its Markdown text.
pub fn save_all(lists: &[TodoList]) -> (r: Vec<(String, String)>)
    ensures
        r@.len() == lists@.len(),
        forall|k: int| 0 <= k < r@.len() ==> (#[trigger] r@[k]).0@ == filename_of(lists@[k].name@) && r@[k].1@ == list_text(lists@[k]@),
{
    let mut out: Vec<(String, String)> = Vec::new();
    let mut k: usize = 0;
    while k < lists.len()
        invariant
            k <= lists.len(),
            out@.len() == k,
            forall|q: int| 0 <= q < k ==> (#[trigger] out@[q]).0@ == filename_of(lists@[q].name@) && out@[q].1@ == list_text(lists@[q]@),
        decreases lists.len() - k,
    {
        out.push((name_to_filename(lists[k].name.as_str()), serialize_list(&lists[k])));
        k = k + 1;
    }
    out
}

/// The text of the order file: the file names of the lists, one per line.
pub fn order_text(lists: &[TodoList]) -> (r: String)
    ensures
        r@ == join(lists@.map_values(|l: TodoList| filename_of(l.name@)), seq!['\n']),
{
    let mut names: Vec<Vec<char>> = Vec::new();
    let mut k: usize = 0;
    while k < lists.len()
        invariant
            k <= lists.len(),
            views(names@) == lists@.take(k as int).map_values(|l: TodoList| filename_of(l.name@)),
        decreases lists.len() - k,
    {
        let f = name_to_filename(lists[k].name.as_str());
        let ghost before = names@;
        names.push(chars_of(f.as_str()));
        assert(lists@.take(k + 1) == lists@.take(k as int).push(lists@[k as int]));
        assert(views(names@) =~= views(before).push(filename_of(lists@[k as int].name@)));
        k = k + 1;
    }
    assert(lists@.take(lists.len() as int) == lists@);
    let mut sep: Vec<char> = Vec::new();
    sep.push('\n');
    assert(sep@ == seq!['\n']);
    let out = join_chars(&names, &sep);
    string_of(out.as_slice())
}

pub open spec fn nonempty_line() -> spec_fn(Seq<char>) -> bool {
    |l: Seq<char>| l.len() > 0
}

/// The file names an order file lists: its lines that are not empty.
pub fn order_lines(content: &str) -> (r: Vec<String>)
    ensures
        strings_view(r@) == lines(content@).filter(nonempty_line()),
{
    let v = chars_of(content);
    let ls = split_lines(&v);
    let ghost lv = lines(content@);
    let mut out: Vec<String> = Vec::new();
    let mut k: usize = 0;
    while k < ls.len()
        invariant
            k <= ls.len(),
            views(ls@) == lv,
            lv == lines(content@),
            strings_view(out@) == lv.take(k as int).filter(nonempty_line()),
        decreases ls.len() - k,
    {
        proof {
            crate::app::lemma_filter_take(lv, nonempty_line(), k as int);
            assert(lv[k as int] == ls@[k as int]@);
        }
        if ls[k].len() > 0 {
            let ghost before = out@;
            out.push(string_of(ls[k].as_slice()));
            assert(strings_view(out@) =~= strings_view(before).push(lv[k as int]));
        }
        k = k + 1;
    }
    assert(lv.take(ls.len() as int) == lv);
    out
}

/// The text of the last context file, trimmed, if it is not empty.
pub fn last_context_of(content: &str) -> (r: Option<String>)
    ensures
        match r {
            Some(s) => s@ == trim(content@) && s@.len() > 0,
            None => trim(content@).len() == 0,
        },
{
    let t = crate::text::trim_chars(&chars_of(content));
    if t.len() == 0 {
        None
    } else {
        Some(string_of(t.as_slice()))
    }
}

/// Whether the lock file shows another running instance: it holds a
/// process id, once trimmed, and that process is alive.
pub fn lock_held(content: &str, alive: bool) -> (r: bool)
    ensures
        r == (trim(content@).len() > 0 && alive),
{
    let t = crate::text::trim_chars(&chars_of(content));
    t.len() > 0 && alive
}

/// The text appended to a list's archive file: each item as a line.
pub fn archive_text(items: &[TodoItem]) -> (r: String)
    ensures
        r@ == items_text(items_view(items@)),
{
    let mut out: Vec<char> = Vec::new();
    let mut k: usize = 0;
    while k < items.len()
        invariant
            k <= items.len(),
            out@ == items_text(items_view(items@.take(k as int))),
        decreases items.len() - k,
    {
        let line = serialize_item(&items[k]);
        let ghost before = out@;
        push_str(&mut out, line.as_str());
        proof {
            assert(items@.take(k + 1) == items@.take(k as int).push(items@[k as int]));
            assert(items_view(items@.take(k + 1)) =~= items_view(items@.take(k as int)).push(items@[k as int]@));
            assert(items_view(items@.take(k + 1)).drop_last() =~= items_view(items@.take(k as int)));
        }
        k = k + 1;
    }
    assert(items@.take(items.len() as int) == items@);
    string_of(out.as_slice())
}

} // verus!

verus! {

/// The name does not start with a dot.
pub open spec fn not_hidden() -> spec_fn(Seq<char>) -> bool {
    |n: Seq<char>| !(n.len() > 0 && n[0] == '.')
}

/// The contexts among the names of a data directory's subdirectories:
/// those not starting with a dot, sorted.
pub fn context_names(names: &Vec<String>) -> (r: Vec<String>)
    ensures
        crate::text::lex_sorted(strings_view(r@)),
        strings_view(r@).to_multiset() == strings_view(names@).filter(not_hidden()).to_multiset(),
{
    let ghost nv = strings_view(names@);
    let mut kept: Vec<String> = Vec::new();
    let mut k: usize = 0;
    while k < names.len()
        invariant
            k <= names.len(),
            nv == strings_view(names@),
            strings_view(kept@) == nv.take(k as int).filter(not_hidden()),
        decreases names.len() - k,
    {
        proof {
            crate::app::lemma_filter_take(nv, not_hidden(), k as int);
        }
        let c = chars_of(names[k].as_str());
        if !(c.len() > 0 && c[0] == '.') {
            let ghost before = kept@;
            kept.push(names[k].clone());
            assert(strings_view(kept@) =~= strings_view(before).push(nv[k as int]));
        }
        k = k + 1;
    }
    assert(nv.take(names.len() as int) == nv);
    let r = crate::text::sort_lex(&kept);
    assert(crate::text::string_views(r@) == strings_view(r@));
    assert(crate::text::string_views(kept@) == strings_view(kept@));
    r
}

/// Where a file name stands in the order file: the index of its first
/// line, or after all lines if it is not there.
pub open spec fn order_rank(order: Seq<Seq<char>>, n: Seq<char>) -> int {
    if exists|k: int| 0 <= k < order.len() && order[k] == n {
        choose|k: int| 0 <= k < order.len() && order[k] == n && forall|j: int| 0 <= j < k ==> order[j] != n
    } else {
        order.len() as int
    }
}

pub open spec fn rank_is(order: Seq<Seq<char>>, r: int) -> spec_fn(Seq<char>) -> bool {
    |n: Seq<char>| order_rank(order, n) == r
}

/// The names of rank below `r`, by rank, those of equal rank in their
/// order.
pub open spec fn by_rank(names: Seq<Seq<char>>, order: Seq<Seq<char>>, r: int) -> Seq<Seq<char>>
    decreases r,
{
    if r <= 0 {
        Seq::empty()
    } else {
        by_rank(names, order, r - 1) + names.filter(rank_is(order, r - 1))
    }
}

fn rank_in(order: &Vec<String>, name: &String) -> (r: usize)
    ensures
        r == order_rank(strings_view(order@), name@),
{
    let ghost ov = strings_view(order@);
    let mut k: usize = 0;
    while k < order.len() && !crate::text::str_eq(order[k].as_str(), name.as_str())
        invariant
            k <= order.len(),
            ov == strings_view(order@),
            forall|j: int| 0 <= j < k ==> ov[j] != name@,
        decreases order.len() - k,
    {
        k = k + 1;
    }
    proof {
        if k < order.len() {
            assert(ov[k as int] == name@);
            let c = choose|c: int| 0 <= c < ov.len() && ov[c] == name@ && forall|j: int| 0 <= j < c ==> ov[j] != name@;
            if c < k {
                assert(ov[c] != name@);
            }
            if c > k {
                assert(ov[k as int] != name@);
            }
        } else {
            assert(!(exists|c: int| 0 <= c < ov.len() && ov[c] == name@));
        }
    }
    k
}

/// The order in which the Markdown files of a context are read: as the
/// order file lists them, then those it does not list; with no order file,
/// by name.
pub fn order_files(names: &Vec<String>, order: &Vec<String>) -> (r: Vec<String>)
    ensures
        order@.len() == 0 ==> crate::text::lex_sorted(strings_view(r@)) && strings_view(r@).to_multiset() == strings_view(names@).to_multiset(),
        order@.len() > 0 ==> strings_view(r@) == by_rank(strings_view(names@), strings_view(order@), order@.len() + 1int),
{
    if order.len() == 0 {
        let r = crate::text::sort_lex(names);
        assert(crate::text::string_views(r@) == strings_view(r@));
        assert(crate::text::string_views(names@) == strings_view(names@));
        return r;
    }
    let ghost nv = strings_view(names@);
    let ghost ov = strings_view(order@);
    let mut ranks: Vec<usize> = Vec::new();
    let mut k: usize = 0;
    while k < names.len()
        invariant
            k <= names.len(),
            ranks@.len() == k,
            ov == strings_view(order@),
            nv == strings_view(names@),
            forall|q: int| 0 <= q < k ==> #[trigger] ranks@[q] == order_rank(ov, nv[q]),
        decreases names.len() - k,
    {
        ranks.push(rank_in(order, &names[k]));
        k = k + 1;
    }
    let mut out: Vec<String> = Vec::new();
    let mut r: usize = 0;
    let n = order.len();
    loop
        invariant_except_break
            strings_view(out@) == by_rank(nv, ov, r as int),
        invariant
            r <= n,
            n == order@.len(),
            ranks@.len() == names@.len(),
            ov == strings_view(order@),
            nv == strings_view(names@),
            forall|q: int| 0 <= q < names@.len() ==> #[trigger] ranks@[q] == order_rank(ov, nv[q]),
        ensures
            strings_view(out@) == by_rank(nv, ov, n + 1),
        decreases n - r,
    {
        let ghost base = strings_view(out@);
        let mut j: usize = 0;
        while j < names.len()
            invariant
                j <= names.len(),
                r <= order.len(),
                ranks@.len() == names@.len(),
                ov == strings_view(order@),
                nv == strings_view(names@),
                forall|q: int| 0 <= q < names@.len() ==> #[trigger] ranks@[q] == order_rank(ov, nv[q]),
                strings_view(out@) == base + nv.take(j as int).filter(rank_is(ov, r as int)),
            decreases names.len() - j,
        {
            proof {
                crate::app::lemma_filter_take(nv, rank_is(ov, r as int), j as int);
            }
            if ranks[j] == r {
                let ghost before = out@;
                out.push(names[j].clone());
                assert(strings_view(out@) =~= strings_view(before).push(nv[j as int]));
            }
            j = j + 1;
        }
        assert(nv.take(names.len() as int) == nv);
        if r == n {
            break;
        }
        r = r + 1;
    }
    out
}

} // verus!
