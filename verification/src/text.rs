use vstd::prelude::*;

verus! {

/// The Unicode `White_Space` property, which `char::is_whitespace` tests.
pub open spec fn is_ws(c: char) -> bool {
    let n = c as u32;
    ||| 0x09 <= n <= 0x0D
    ||| n == 0x20
    ||| n == 0x85
    ||| n == 0xA0
    ||| n == 0x1680
    ||| 0x2000 <= n <= 0x200A
    ||| n == 0x2028
    ||| n == 0x2029
    ||| n == 0x202F
    ||| n == 0x205F
    ||| n == 0x3000
}

pub fn is_whitespace(c: char) -> (b: bool)
    ensures
        b == is_ws(c),
{
    let n = c as u32;
    (0x09 <= n && n <= 0x0D) || n == 0x20 || n == 0x85 || n == 0xA0 || n == 0x1680 || (0x2000 <= n
        && n <= 0x200A) || n == 0x2028 || n == 0x2029 || n == 0x202F || n == 0x205F || n == 0x3000
}

/// The characters of a string slice, in order.
pub fn chars_of(s: &str) -> (v: Vec<char>)
    ensures
        v@ == s@,
{
    let mut v: Vec<char> = Vec::new();
    for c in it: s.chars()
        invariant
            v@ == it.seq().take(it.index() as int),
    {
        v.push(c);
    }
    v
}

} // verus!

verus! {

/// The string made of the given characters, in order.
#[verifier::external_body]
pub(crate) fn string_of(v: &[char]) -> (s: String)
    ensures
        s@ == v@,
{
    v.iter().collect()
}

/// What `str::to_lowercase` returns: the Unicode lowercase mapping of each
/// character, which may change the length of the text.
pub uninterp spec fn lowercase(s: Seq<char>) -> Seq<char>;

/// Calls `str::to_lowercase`; its result is named by `lowercase`.
#[verifier::external_body]
pub(crate) fn to_lowercase(s: &str) -> (r: String)
    ensures
        r@ == lowercase(s@),
{
    s.to_lowercase()
}

/// What `char::is_alphanumeric` returns: whether the character has the
/// Unicode `Alphabetic` or `Numeric` property.
pub uninterp spec fn alphanumeric(c: char) -> bool;

/// Calls `char::is_alphanumeric`; its result is named by `alphanumeric`.
#[verifier::external_body]
pub(crate) fn is_alphanumeric(c: char) -> (b: bool)
    ensures
        b == alphanumeric(c),
{
    c.is_alphanumeric()
}

pub open spec fn is_ascii_digit(c: char) -> bool {
    '0' <= c && c <= '9'
}

pub open spec fn no_ws(s: Seq<char>) -> bool {
    forall|i: int| 0 <= i < s.len() ==> !is_ws(#[trigger] s[i])
}

/// `s` without its leading whitespace.
pub open spec fn trim_start(s: Seq<char>) -> Seq<char>
    decreases s.len(),
{
    if s.len() > 0 && is_ws(s[0]) {
        trim_start(s.drop_first())
    } else {
        s
    }
}

/// `s` without its trailing whitespace.
pub open spec fn trim_end(s: Seq<char>) -> Seq<char>
    decreases s.len(),
{
    if s.len() > 0 && is_ws(s.last()) {
        trim_end(s.drop_last())
    } else {
        s
    }
}

pub open spec fn trim(s: Seq<char>) -> Seq<char> {
    trim_end(trim_start(s))
}

pub open spec fn has_prefix(s: Seq<char>, p: Seq<char>) -> bool {
    p.len() <= s.len() && s.take(p.len() as int) == p
}

pub open spec fn has_suffix(s: Seq<char>, p: Seq<char>) -> bool {
    p.len() <= s.len() && s.skip(s.len() - p.len()) == p
}

/// The number of leading characters of `s` that are not whitespace.
pub open spec fn word_len(s: Seq<char>) -> nat
    decreases s.len(),
{
    if s.len() > 0 && !is_ws(s[0]) {
        1 + word_len(s.drop_first())
    } else {
        0
    }
}

pub proof fn lemma_word_len(s: Seq<char>)
    ensures
        word_len(s) <= s.len(),
        forall|i: int| 0 <= i < word_len(s) ==> !is_ws(#[trigger] s[i]),
        word_len(s) < s.len() ==> is_ws(s[word_len(s) as int]),
    decreases s.len(),
{
    if s.len() > 0 && !is_ws(s[0]) {
        lemma_word_len(s.drop_first());
        assert forall|i: int| 0 <= i < word_len(s) implies !is_ws(#[trigger] s[i]) by {
            if i > 0 {
                assert(s[i] == s.drop_first()[i - 1]);
            }
        }
    }
}

/// The maximal runs of non-whitespace characters of `s`, in order: what
/// `str::split_whitespace` yields.
pub open spec fn words(s: Seq<char>) -> Seq<Seq<char>>
    decreases s.len(),
{
    if s.len() == 0 {
        seq![]
    } else if is_ws(s[0]) {
        words(s.drop_first())
    } else {
        let n = word_len(s);
        proof {
            lemma_word_len(s);
        }
        seq![s.take(n as int)] + words(s.skip(n as int))
    }
}

/// The pieces of `ws` joined with `sep` between each two of them.
pub open spec fn join(ws: Seq<Seq<char>>, sep: Seq<char>) -> Seq<char>
    decreases ws.len(),
{
    if ws.len() == 0 {
        seq![]
    } else if ws.len() == 1 {
        ws[0]
    } else {
        join(ws.drop_last(), sep) + sep + ws.last()
    }
}

/// The number of leading characters of `s` before the first newline.
pub open spec fn line_len(s: Seq<char>) -> nat
    decreases s.len(),
{
    if s.len() > 0 && s[0] != '\n' {
        1 + line_len(s.drop_first())
    } else {
        0
    }
}

pub proof fn lemma_line_len(s: Seq<char>)
    ensures
        line_len(s) <= s.len(),
        forall|i: int| 0 <= i < line_len(s) ==> #[trigger] s[i] != '\n',
        line_len(s) < s.len() ==> s[line_len(s) as int] == '\n',
    decreases s.len(),
{
    if s.len() > 0 && s[0] != '\n' {
        lemma_line_len(s.drop_first());
        assert forall|i: int| 0 <= i < line_len(s) implies #[trigger] s[i] != '\n' by {
            if i > 0 {
                assert(s[i] == s.drop_first()[i - 1]);
            }
        }
    }
}

pub open spec fn strip_cr(s: Seq<char>) -> Seq<char> {
    if s.len() > 0 && s.last() == '\r' {
        s.drop_last()
    } else {
        s
    }
}

/// The lines of `s`, as `str::lines` yields them: split at each `\n`, one
/// `\r` right before a `\n` dropped, and no empty line after a final `\n`.
pub open spec fn lines(s: Seq<char>) -> Seq<Seq<char>>
    decreases s.len(),
{
    if s.len() == 0 {
        seq![]
    } else {
        let n = line_len(s);
        proof {
            lemma_line_len(s);
        }
        if n == s.len() {
            seq![s]
        } else {
            seq![strip_cr(s.take(n as int))] + lines(s.skip(n as int + 1))
        }
    }
}

pub open spec fn digit_char(d: nat) -> char {
    if d == 0 { '0' } else if d == 1 { '1' } else if d == 2 { '2' } else if d == 3 { '3' }
    else if d == 4 { '4' } else if d == 5 { '5' } else if d == 6 { '6' } else if d == 7 { '7' }
    else if d == 8 { '8' } else { '9' }
}

pub open spec fn digit_value(c: char) -> nat {
    ((c as u32) - ('0' as u32)) as nat
}

/// The decimal representation of `n`, without leading zeros.
pub open spec fn decimal(n: nat) -> Seq<char>
    decreases n,
{
    if n < 10 {
        seq![digit_char(n)]
    } else {
        decimal(n / 10).push(digit_char(n % 10))
    }
}

/// The value of a string of decimal digits.
pub open spec fn digits_value(s: Seq<char>) -> nat
    decreases s.len(),
{
    if s.len() == 0 {
        0
    } else {
        digits_value(s.drop_last()) * 10 + digit_value(s.last())
    }
}

pub open spec fn all_digits(s: Seq<char>) -> bool {
    forall|i: int| 0 <= i < s.len() ==> is_ascii_digit(#[trigger] s[i])
}

} // verus!

verus! {

pub open spec fn views(ws: Seq<Vec<char>>) -> Seq<Seq<char>> {
    ws.map_values(|w: Vec<char>| w@)
}

proof fn lemma_word_len_concat(cur: Seq<char>, rest: Seq<char>)
    requires
        no_ws(cur),
        rest.len() == 0 || is_ws(rest[0]),
    ensures
        word_len(cur + rest) == cur.len(),
    decreases cur.len(),
{
    if cur.len() > 0 {
        assert((cur + rest).drop_first() == cur.drop_first() + rest);
        lemma_word_len_concat(cur.drop_first(), rest);
    } else {
        assert(cur + rest == rest);
    }
}

proof fn lemma_words_word_then_ws(cur: Seq<char>, rest: Seq<char>)
    requires
        no_ws(cur),
        cur.len() > 0,
        rest.len() == 0 || is_ws(rest[0]),
    ensures
        words(cur + rest) == seq![cur] + words(rest),
{
    lemma_word_len_concat(cur, rest);
    assert((cur + rest).take(cur.len() as int) == cur);
    assert((cur + rest).skip(cur.len() as int) == rest);
}

/// Splits `v` at whitespace, as `str::split_whitespace` does.
pub fn split_whitespace(v: &Vec<char>) -> (out: Vec<Vec<char>>)
    ensures
        views(out@) == words(v@),
        forall|i: int| 0 <= i < out@.len() ==> no_ws(#[trigger] out@[i]@) && out@[i]@.len() > 0,
{
    let mut out: Vec<Vec<char>> = Vec::new();
    let mut cur: Vec<char> = Vec::new();
    let mut i: usize = 0;
    assert(cur@ + v@.skip(0) == v@);
    assert(views(out@) == Seq::<Seq<char>>::empty());
    assert(views(out@) + words(v@) == words(v@));
    while i < v.len()
        invariant
            i <= v.len(),
            no_ws(cur@),
            words(v@) == views(out@) + words(cur@ + v@.skip(i as int)),
            forall|j: int| 0 <= j < out@.len() ==> no_ws(#[trigger] out@[j]@) && out@[j]@.len() > 0,
        decreases v.len() - i,
    {
        let c = v[i];
        let ghost rest = v@.skip(i as int);
        assert(rest.drop_first() == v@.skip(i + 1));
        if is_whitespace(c) {
            if cur.len() > 0 {
                proof {
                    lemma_words_word_then_ws(cur@, rest);
                }
                assert(words(rest) == words(rest.drop_first()));
                let ghost old_out = out@;
                out.push(cur);
                assert(views(out@) == views(old_out) + seq![cur@]);
                cur = Vec::new();
                assert(cur@ + v@.skip(i + 1) == v@.skip(i + 1));
            } else {
                assert(cur@ + rest == rest);
                assert(cur@ + v@.skip(i + 1) == v@.skip(i + 1));
            }
        } else {
            let ghost old_cur = cur@;
            cur.push(c);
            assert(cur@ + v@.skip(i + 1) == old_cur + rest);
        }
        i = i + 1;
    }
    assert(v@.skip(i as int) == Seq::<char>::empty());
    assert(cur@ + v@.skip(i as int) == cur@);
    if cur.len() > 0 {
        proof {
            lemma_words_word_then_ws(cur@, Seq::<char>::empty());
        }
        assert(cur@ + Seq::<char>::empty() == cur@);
        assert(words(Seq::<char>::empty()) == Seq::<Seq<char>>::empty());
        let ghost old_out = out@;
        out.push(cur);
        assert(views(out@) == views(old_out) + seq![cur@]);
    }
    out
}

} // verus!

verus! {

/// Appends the characters of `s` to `out`.
pub fn push_all(out: &mut Vec<char>, s: &Vec<char>)
    ensures
        final(out)@ == old(out)@ + s@,
{
    let mut i: usize = 0;
    while i < s.len()
        invariant
            i <= s.len(),
            out@ == old(out)@ + s@.take(i as int),
        decreases s.len() - i,
    {
        out.push(s[i]);
        assert(s@.take(i + 1) == s@.take(i as int).push(s@[i as int]));
        i = i + 1;
    }
    assert(s@.take(s.len() as int) == s@);
}

/// Appends the characters of `s` to `out`.
pub fn push_str(out: &mut Vec<char>, s: &str)
    ensures
        final(out)@ == old(out)@ + s@,
{
    let v = chars_of(s);
    push_all(out, &v);
}

/// The characters of `v` from index `a` up to, not including, index `b`.
pub fn sub_chars(v: &Vec<char>, a: usize, b: usize) -> (r: Vec<char>)
    requires
        a <= b <= v.len(),
    ensures
        r@ == v@.subrange(a as int, b as int),
{
    let mut r: Vec<char> = Vec::new();
    let mut i: usize = a;
    while i < b
        invariant
            a <= i <= b <= v.len(),
            r@ == v@.subrange(a as int, i as int),
        decreases b - i,
    {
        r.push(v[i]);
        assert(v@.subrange(a as int, i + 1) == v@.subrange(a as int, i as int).push(v@[i as int]));
        i = i + 1;
    }
    r
}

/// Whether `a` and `b` hold the same characters.
pub fn eq_chars(a: &Vec<char>, b: &Vec<char>) -> (r: bool)
    ensures
        r == (a@ == b@),
{
    if a.len() != b.len() {
        return false;
    }
    let mut i: usize = 0;
    while i < a.len()
        invariant
            i <= a.len() == b.len(),
            a@.take(i as int) == b@.take(i as int),
        decreases a.len() - i,
    {
        if a[i] != b[i] {
            return false;
        }
        assert(a@.take(i + 1) == a@.take(i as int).push(a@[i as int]));
        assert(b@.take(i + 1) == b@.take(i as int).push(b@[i as int]));
        i = i + 1;
    }
    assert(a@.take(a.len() as int) == a@);
    assert(b@.take(b.len() as int) == b@);
    true
}

/// Whether `v` begins with `p`.
pub fn starts_with(v: &Vec<char>, p: &Vec<char>) -> (r: bool)
    ensures
        r == has_prefix(v@, p@),
{
    if p.len() > v.len() {
        return false;
    }
    let head = sub_chars(v, 0, p.len());
    assert(v@.take(p.len() as int) == v@.subrange(0, p.len() as int));
    eq_chars(&head, p)
}

/// Whether `v` ends with `p`.
pub fn ends_with(v: &Vec<char>, p: &Vec<char>) -> (r: bool)
    ensures
        r == has_suffix(v@, p@),
{
    if p.len() > v.len() {
        return false;
    }
    let tail = sub_chars(v, v.len() - p.len(), v.len());
    assert(v@.skip(v.len() - p.len()) == v@.subrange(v.len() - p.len(), v.len() as int));
    eq_chars(&tail, p)
}

proof fn lemma_trim_start_at(s: Seq<char>, k: int)
    requires
        0 <= k <= s.len(),
        forall|i: int| 0 <= i < k ==> is_ws(#[trigger] s[i]),
        k == s.len() || !is_ws(s[k]),
    ensures
        trim_start(s) == s.skip(k),
    decreases k,
{
    if k == 0 {
        assert(s.skip(0) == s);
    } else {
        assert forall|i: int| 0 <= i < k - 1 implies is_ws(#[trigger] s.drop_first()[i]) by {
            assert(s.drop_first()[i] == s[i + 1]);
        }
        if k - 1 < s.drop_first().len() {
            assert(s.drop_first()[k - 1] == s[k]);
        }
        lemma_trim_start_at(s.drop_first(), k - 1);
        assert(s.drop_first().skip(k - 1) == s.skip(k));
    }
}

proof fn lemma_trim_end_at(s: Seq<char>, k: int)
    requires
        0 <= k <= s.len(),
        forall|i: int| k <= i < s.len() ==> is_ws(#[trigger] s[i]),
        k == 0 || !is_ws(s[k - 1]),
    ensures
        trim_end(s) == s.take(k),
    decreases s.len() - k,
{
    if k == s.len() {
        assert(s.take(k) == s);
    } else {
        assert forall|i: int| k <= i < s.len() - 1 implies is_ws(#[trigger] s.drop_last()[i]) by {
            assert(s.drop_last()[i] == s[i]);
        }
        if k > 0 {
            assert(s.drop_last()[k - 1] == s[k - 1]);
        }
        lemma_trim_end_at(s.drop_last(), k);
        assert(s.drop_last().take(k) == s.take(k));
    }
}

/// `v` without leading whitespace.
pub fn trim_start_chars(v: &Vec<char>) -> (r: Vec<char>)
    ensures
        r@ == trim_start(v@),
{
    let mut k: usize = 0;
    while k < v.len() && is_whitespace(v[k])
        invariant
            k <= v.len(),
            forall|i: int| 0 <= i < k ==> is_ws(#[trigger] v@[i]),
        decreases v.len() - k,
    {
        k = k + 1;
    }
    proof {
        lemma_trim_start_at(v@, k as int);
    }
    assert(v@.skip(k as int) == v@.subrange(k as int, v.len() as int));
    sub_chars(v, k, v.len())
}

/// `v` without trailing whitespace.
pub fn trim_end_chars(v: &Vec<char>) -> (r: Vec<char>)
    ensures
        r@ == trim_end(v@),
{
    let mut k: usize = v.len();
    while k > 0 && is_whitespace(v[k - 1])
        invariant
            k <= v.len(),
            forall|i: int| k <= i < v.len() ==> is_ws(#[trigger] v@[i]),
        decreases k,
    {
        k = k - 1;
    }
    proof {
        lemma_trim_end_at(v@, k as int);
    }
    assert(v@.take(k as int) == v@.subrange(0, k as int));
    sub_chars(v, 0, k)
}

/// `v` without leading and trailing whitespace.
pub fn trim_chars(v: &Vec<char>) -> (r: Vec<char>)
    ensures
        r@ == trim(v@),
{
    let s = trim_start_chars(v);
    trim_end_chars(&s)
}

/// The pieces of `ws` joined with `sep` between each two of them.
pub fn join_chars(ws: &Vec<Vec<char>>, sep: &Vec<char>) -> (out: Vec<char>)
    ensures
        out@ == join(views(ws@), sep@),
{
    let mut out: Vec<char> = Vec::new();
    let mut i: usize = 0;
    while i < ws.len()
        invariant
            i <= ws.len(),
            out@ == join(views(ws@).take(i as int), sep@),
        decreases ws.len() - i,
    {
        let ghost prev = views(ws@).take(i as int);
        let ghost next = views(ws@).take(i + 1);
        assert(next.drop_last() == prev);
        if i > 0 {
            push_all(&mut out, sep);
        }
        push_all(&mut out, &ws[i]);
        assert(next.last() == ws@[i as int]@);
        if i == 0 {
            assert(out@ == ws@[0]@);
        }
        i = i + 1;
    }
    assert(views(ws@).take(ws.len() as int) == views(ws@));
    out
}

proof fn lemma_line_len_concat(cur: Seq<char>, rest: Seq<char>)
    requires
        forall|i: int| 0 <= i < cur.len() ==> #[trigger] cur[i] != '\n',
        rest.len() == 0 || rest[0] == '\n',
    ensures
        line_len(cur + rest) == cur.len(),
    decreases cur.len(),
{
    if cur.len() > 0 {
        assert((cur + rest).drop_first() == cur.drop_first() + rest);
        assert forall|i: int| 0 <= i < cur.drop_first().len() implies #[trigger] cur.drop_first()[i] != '\n' by {
            assert(cur.drop_first()[i] == cur[i + 1]);
        }
        lemma_line_len_concat(cur.drop_first(), rest);
    } else {
        assert(cur + rest == rest);
    }
}

/// `v` without one trailing carriage return.
pub fn strip_cr_chars(v: &Vec<char>) -> (r: Vec<char>)
    ensures
        r@ == strip_cr(v@),
{
    let mut r = sub_chars(v, 0, v.len());
    assert(r@ == v@);
    if r.len() > 0 && r[r.len() - 1] == '\r' {
        r.pop();
    }
    r
}

/// Splits `v` into lines, as `str::lines` does.
pub fn split_lines(v: &Vec<char>) -> (out: Vec<Vec<char>>)
    ensures
        views(out@) == lines(v@),
{
    let mut out: Vec<Vec<char>> = Vec::new();
    let mut cur: Vec<char> = Vec::new();
    let mut i: usize = 0;
    assert(cur@ + v@.skip(0) == v@);
    assert(views(out@) + lines(v@) == lines(v@));
    while i < v.len()
        invariant
            i <= v.len(),
            forall|j: int| 0 <= j < cur@.len() ==> #[trigger] cur@[j] != '\n',
            lines(v@) == views(out@) + lines(cur@ + v@.skip(i as int)),
        decreases v.len() - i,
    {
        let c = v[i];
        let ghost rest = v@.skip(i as int);
        assert(rest.skip(1) == v@.skip(i + 1));
        if c == '\n' {
            proof {
                lemma_line_len_concat(cur@, rest);
            }
            assert((cur@ + rest).take(cur@.len() as int) == cur@);
            assert((cur@ + rest).skip(cur@.len() as int + 1) == rest.skip(1));
            let line = strip_cr_chars(&cur);
            let ghost old_out = out@;
            out.push(line);
            assert(views(out@) == views(old_out) + seq![strip_cr(cur@)]);
            cur = Vec::new();
            assert(cur@ + v@.skip(i + 1) == v@.skip(i + 1));
        } else {
            let ghost old_cur = cur@;
            cur.push(c);
            assert(cur@ + v@.skip(i + 1) == old_cur + rest);
        }
        i = i + 1;
    }
    assert(v@.skip(i as int) == Seq::<char>::empty());
    assert(cur@ + v@.skip(i as int) == cur@);
    if cur.len() > 0 {
        proof {
            lemma_line_len_concat(cur@, Seq::<char>::empty());
        }
        assert(cur@ + Seq::<char>::empty() == cur@);
        let ghost old_out = out@;
        out.push(cur);
        assert(views(out@) == views(old_out) + seq![cur@]);
    } else {
        assert(views(out@) + Seq::<Seq<char>>::empty() == views(out@));
    }
    out
}

fn digit_to_char(d: u64) -> (c: char)
    requires
        d < 10,
    ensures
        c == digit_char(d as nat),
{
    if d == 0 { '0' } else if d == 1 { '1' } else if d == 2 { '2' } else if d == 3 { '3' }
    else if d == 4 { '4' } else if d == 5 { '5' } else if d == 6 { '6' } else if d == 7 { '7' }
    else if d == 8 { '8' } else { '9' }
}

/// The decimal representation of `n`.
pub fn decimal_chars(n: u64) -> (r: Vec<char>)
    ensures
        r@ == decimal(n as nat),
    decreases n,
{
    if n < 10 {
        let mut r: Vec<char> = Vec::new();
        r.push(digit_to_char(n));
        r
    } else {
        let mut r = decimal_chars(n / 10);
        r.push(digit_to_char(n % 10));
        r
    }
}

} // verus!

verus! {

pub proof fn lemma_word_len_append(a: Seq<char>, r: Seq<char>)
    requires
        word_len(a) < a.len() || r.len() == 0 || is_ws(r[0]),
    ensures
        word_len(a + r) == word_len(a),
    decreases a.len(),
{
    if a.len() == 0 {
        assert(a + r == r);
    } else {
        assert((a + r)[0] == a[0]);
        if !is_ws(a[0]) {
            assert((a + r).drop_first() == a.drop_first() + r);
            lemma_word_len_append(a.drop_first(), r);
        }
    }
}

pub proof fn lemma_words_concat(a: Seq<char>, b: Seq<char>)
    ensures
        words(a + seq![' '] + b) == words(a) + words(b),
    decreases a.len(),
{
    let s = a + seq![' '] + b;
    if a.len() == 0 {
        assert(s.drop_first() == b);
        assert(is_ws(s[0]));
        assert(words(a) == Seq::<Seq<char>>::empty());
        assert(words(a) + words(b) == words(b));
    } else if is_ws(a[0]) {
        assert(s.drop_first() == a.drop_first() + seq![' '] + b);
        lemma_words_concat(a.drop_first(), b);
    } else {
        lemma_word_len(a);
        let n = word_len(a);
        lemma_word_len_append(a, seq![' '] + b);
        assert(a + seq![' '] + b == a + (seq![' '] + b));
        assert(s.take(n as int) == a.take(n as int));
        assert(s.skip(n as int) == a.skip(n as int) + seq![' '] + b);
        lemma_words_concat(a.skip(n as int), b);
    }
}

pub proof fn lemma_words_single(w: Seq<char>)
    requires
        w.len() > 0,
        no_ws(w),
    ensures
        words(w) == seq![w],
{
    lemma_word_len(w);
    if word_len(w) < w.len() {
        assert(is_ws(w[word_len(w) as int]));
        assert(!is_ws(w[word_len(w) as int]));
    }
    assert(word_len(w) == w.len());
    assert(!is_ws(w[0]));
    assert(w.take(w.len() as int) == w);
    assert(words(Seq::<char>::empty()) == Seq::<Seq<char>>::empty());
    assert(seq![w] + Seq::<Seq<char>>::empty() == seq![w]);
    assert(w.skip(w.len() as int) == Seq::<char>::empty());
}

pub proof fn lemma_words_join(ws: Seq<Seq<char>>)
    requires
        forall|i: int| 0 <= i < ws.len() ==> (#[trigger] ws[i]).len() > 0 && no_ws(ws[i]),
    ensures
        words(join(ws, seq![' '])) == ws,
    decreases ws.len(),
{
    if ws.len() == 0 {
    } else if ws.len() == 1 {
        lemma_words_single(ws[0]);
    } else {
        let d = ws.drop_last();
        assert forall|i: int| 0 <= i < d.len() implies (#[trigger] d[i]).len() > 0 && no_ws(d[i]) by {
            assert(d[i] == ws[i]);
        }
        lemma_words_join(d);
        lemma_words_concat(join(d, seq![' ']), ws.last());
        lemma_words_single(ws.last());
        assert(d + seq![ws.last()] == ws);
    }
}

pub proof fn lemma_words_elements(s: Seq<char>)
    ensures
        forall|i: int| 0 <= i < words(s).len() ==> (#[trigger] words(s)[i]).len() > 0 && no_ws(words(s)[i]),
    decreases s.len(),
{
    if s.len() == 0 {
    } else if is_ws(s[0]) {
        lemma_words_elements(s.drop_first());
        assert(words(s) == words(s.drop_first()));
    } else {
        lemma_word_len(s);
        let n = word_len(s);
        lemma_words_elements(s.skip(n as int));
        let w = s.take(n as int);
        assert(n >= 1);
        assert forall|i: int| 0 <= i < w.len() implies !is_ws(#[trigger] w[i]) by {
            assert(w[i] == s[i]);
        }
        assert(words(s) == seq![w] + words(s.skip(n as int)));
        assert forall|i: int| 0 <= i < words(s).len() implies (#[trigger] words(s)[i]).len() > 0 && no_ws(words(s)[i]) by {
            if i > 0 {
                assert(words(s)[i] == words(s.skip(n as int))[i - 1]);
            } else {
                assert(words(s)[0] == w);
            }
        }
    }
}

pub proof fn lemma_join_last(ws: Seq<Seq<char>>)
    requires
        ws.len() > 0,
        ws.last().len() > 0,
    ensures
        join(ws, seq![' ']).len() > 0,
        join(ws, seq![' ']).last() == ws.last().last(),
{
    if ws.len() > 1 {
        let j = join(ws.drop_last(), seq![' ']) + seq![' '] + ws.last();
        assert(j.last() == ws.last().last());
    }
}

pub proof fn lemma_join_push(ws: Seq<Seq<char>>, x: Seq<char>)
    requires
        ws.len() > 0,
    ensures
        join(ws.push(x), seq![' ']) == join(ws, seq![' ']) + seq![' '] + x,
{
    assert(ws.push(x).drop_last() == ws);
}

} // verus!

verus! {

pub open spec fn no_newline(s: Seq<char>) -> bool {
    forall|i: int| 0 <= i < s.len() ==> #[trigger] s[i] != '\n'
}

pub proof fn lemma_lines_cons(a: Seq<char>, rest: Seq<char>)
    requires
        no_newline(a),
    ensures
        lines(a + seq!['\n'] + rest) == seq![strip_cr(a)] + lines(rest),
{
    let s = a + seq!['\n'] + rest;
    lemma_line_len_concat(a, seq!['\n'] + rest);
    assert(a + (seq!['\n'] + rest) == s);
    assert(s.take(a.len() as int) == a);
    assert(s.skip(a.len() as int + 1) == rest);
}

pub proof fn lemma_lines_append(p: Seq<char>, q: Seq<char>)
    requires
        p.len() == 0 || p.last() == '\n',
    ensures
        lines(p + q) == lines(p) + lines(q),
    decreases p.len(),
{
    if p.len() == 0 {
        assert(p + q == q);
        assert(lines(p) == Seq::<Seq<char>>::empty());
        assert(lines(p) + lines(q) == lines(q));
    } else {
        lemma_line_len(p);
        let n = line_len(p);
        if n == p.len() {
            assert(p[p.len() - 1] != '\n');
        }
        let a = p.take(n as int);
        let r = p.skip(n as int + 1);
        assert(no_newline(a));
        assert(p == a + seq!['\n'] + r);
        lemma_lines_cons(a, r);
        assert(p + q == a + seq!['\n'] + (r + q));
        lemma_lines_cons(a, r + q);
        if r.len() > 0 {
            assert(r.last() == p.last());
        }
        lemma_lines_append(r, q);
    }
}

pub proof fn lemma_lines_single(a: Seq<char>)
    requires
        no_newline(a),
    ensures
        lines(a + seq!['\n']) == seq![strip_cr(a)],
{
    lemma_lines_cons(a, Seq::<char>::empty());
    assert(a + seq!['\n'] + Seq::<char>::empty() == a + seq!['\n']);
    assert(seq![strip_cr(a)] + Seq::<Seq<char>>::empty() == seq![strip_cr(a)]);
}

pub proof fn lemma_trim_keeps(s: Seq<char>)
    requires
        s.len() > 0,
        !is_ws(s[0]),
        !is_ws(s.last()),
    ensures
        trim(s) == s,
{
    assert(trim_start(s) == s);
}

} // verus!

verus! {

/// `a` comes strictly before `b` in lexicographic order of code points,
/// which is the order of their UTF-8 bytes.
pub open spec fn lex_lt(a: Seq<char>, b: Seq<char>) -> bool
    decreases a.len(),
{
    if b.len() == 0 {
        false
    } else if a.len() == 0 {
        true
    } else if a[0] != b[0] {
        a[0] < b[0]
    } else {
        lex_lt(a.drop_first(), b.drop_first())
    }
}

pub proof fn lemma_lex_lt_irreflexive(a: Seq<char>)
    ensures
        !lex_lt(a, a),
    decreases a.len(),
{
    if a.len() > 0 {
        lemma_lex_lt_irreflexive(a.drop_first());
    }
}

pub proof fn lemma_lex_lt_trichotomy(a: Seq<char>, b: Seq<char>)
    ensures
        a != b ==> (lex_lt(a, b) || lex_lt(b, a)),
        !(lex_lt(a, b) && lex_lt(b, a)),
    decreases a.len(),
{
    if a.len() > 0 && b.len() > 0 && a[0] == b[0] {
        lemma_lex_lt_trichotomy(a.drop_first(), b.drop_first());
        if a != b {
            assert(a.drop_first() != b.drop_first()) by {
                if a.drop_first() == b.drop_first() {
                    assert(a == seq![a[0]] + a.drop_first());
                    assert(b == seq![b[0]] + b.drop_first());
                }
            }
        }
    } else if a.len() == 0 && b.len() == 0 {
        assert(a == b);
    }
}

pub proof fn lemma_lex_lt_transitive(a: Seq<char>, b: Seq<char>, c: Seq<char>)
    requires
        lex_lt(a, b),
        lex_lt(b, c),
    ensures
        lex_lt(a, c),
    decreases a.len(),
{
    if a.len() > 0 && b.len() > 0 && c.len() > 0 && a[0] == b[0] && b[0] == c[0] {
        lemma_lex_lt_transitive(a.drop_first(), b.drop_first(), c.drop_first());
    }
}

/// Whether `a` comes strictly before `b` in lexicographic order.
pub fn lex_less(a: &Vec<char>, b: &Vec<char>) -> (r: bool)
    ensures
        r == lex_lt(a@, b@),
{
    let mut i: usize = 0;
    assert(a@.skip(0) == a@);
    assert(b@.skip(0) == b@);
    while i < a.len() && i < b.len() && a[i] == b[i]
        invariant
            i <= a.len(),
            i <= b.len(),
            a@.take(i as int) == b@.take(i as int),
            lex_lt(a@, b@) == lex_lt(a@.skip(i as int), b@.skip(i as int)),
        decreases a.len() - i,
    {
        assert(a@.skip(i as int).drop_first() == a@.skip(i + 1));
        assert(b@.skip(i as int).drop_first() == b@.skip(i + 1));
        assert(a@.take(i + 1) == a@.take(i as int).push(a@[i as int]));
        assert(b@.take(i + 1) == b@.take(i as int).push(b@[i as int]));
        i = i + 1;
    }
    if i == b.len() {
        false
    } else if i == a.len() {
        true
    } else {
        a[i] < b[i]
    }
}

/// What `str::len` returns: the number of bytes of the UTF-8 encoding.
pub open spec fn utf8_len(s: Seq<char>) -> usize {
    vstd::utf8::encode_utf8(s).len() as usize
}

/// Sort keys of displayed text: shorter text first, then lexicographic.
pub open spec fn shorter_first_lt(a: Seq<char>, b: Seq<char>) -> bool {
    utf8_len(a) < utf8_len(b) || (utf8_len(a) == utf8_len(b) && lex_lt(a, b))
}

/// Whether `a` comes strictly before `b`: shorter first, then lexicographic.
pub fn shorter_first_less(a: &String, b: &String) -> (r: bool)
    ensures
        r == shorter_first_lt(a@, b@),
{
    let sa = a.as_str();
    let sb = b.as_str();
    let la = sa.len();
    let lb = sb.len();
    assert(la == utf8_len(a@));
    assert(lb == utf8_len(b@));
    if la != lb {
        return la < lb;
    }
    let va = chars_of(a.as_str());
    let vb = chars_of(b.as_str());
    lex_less(&va, &vb)
}

} // verus!

verus! {

/// Whether two string slices hold the same text.
pub fn str_eq(a: &str, b: &str) -> (r: bool)
    ensures
        r == (a@ == b@),
{
    let va = chars_of(a);
    let vb = chars_of(b);
    eq_chars(&va, &vb)
}

} // verus!

verus! {

/// The number of leading characters of `s` before the first `sep`.
pub open spec fn piece_len(s: Seq<char>, sep: char) -> nat
    decreases s.len(),
{
    if s.len() > 0 && s[0] != sep {
        1 + piece_len(s.drop_first(), sep)
    } else {
        0
    }
}

pub proof fn lemma_piece_len(s: Seq<char>, sep: char)
    ensures
        piece_len(s, sep) <= s.len(),
        forall|i: int| 0 <= i < piece_len(s, sep) ==> #[trigger] s[i] != sep,
        piece_len(s, sep) < s.len() ==> s[piece_len(s, sep) as int] == sep,
    decreases s.len(),
{
    if s.len() > 0 && s[0] != sep {
        lemma_piece_len(s.drop_first(), sep);
        assert forall|i: int| 0 <= i < piece_len(s, sep) implies #[trigger] s[i] != sep by {
            if i > 0 {
                assert(s[i] == s.drop_first()[i - 1]);
            }
        }
    }
}

/// The pieces of `s` between occurrences of `sep`, as `str::split` yields
/// them: never empty, and with an empty piece for each separator at an end.
pub open spec fn split_on(s: Seq<char>, sep: char) -> Seq<Seq<char>>
    decreases s.len(),
{
    let n = piece_len(s, sep);
    proof {
        lemma_piece_len(s, sep);
    }
    if n == s.len() {
        seq![s]
    } else {
        seq![s.take(n as int)] + split_on(s.skip(n as int + 1), sep)
    }
}

proof fn lemma_piece_len_concat(cur: Seq<char>, rest: Seq<char>, sep: char)
    requires
        forall|i: int| 0 <= i < cur.len() ==> #[trigger] cur[i] != sep,
        rest.len() == 0 || rest[0] == sep,
    ensures
        piece_len(cur + rest, sep) == cur.len(),
    decreases cur.len(),
{
    if cur.len() > 0 {
        assert((cur + rest).drop_first() == cur.drop_first() + rest);
        assert forall|i: int| 0 <= i < cur.drop_first().len() implies #[trigger] cur.drop_first()[i] != sep by {
            assert(cur.drop_first()[i] == cur[i + 1]);
        }
        lemma_piece_len_concat(cur.drop_first(), rest, sep);
    } else {
        assert(cur + rest == rest);
    }
}

/// Splits `v` at each `sep`, as `str::split` does.
pub fn split_chars(v: &Vec<char>, sep: char) -> (out: Vec<Vec<char>>)
    ensures
        views(out@) == split_on(v@, sep),
        out@.len() > 0,
{
    let mut out: Vec<Vec<char>> = Vec::new();
    let mut cur: Vec<char> = Vec::new();
    let mut i: usize = 0;
    assert(cur@ + v@.skip(0) == v@);
    assert(views(out@) + split_on(v@, sep) == split_on(v@, sep));
    while i < v.len()
        invariant
            i <= v.len(),
            forall|j: int| 0 <= j < cur@.len() ==> #[trigger] cur@[j] != sep,
            split_on(v@, sep) == views(out@) + split_on(cur@ + v@.skip(i as int), sep),
        decreases v.len() - i,
    {
        let c = v[i];
        let ghost rest = v@.skip(i as int);
        assert(rest.skip(1) == v@.skip(i + 1));
        if c == sep {
            proof {
                lemma_piece_len_concat(cur@, rest, sep);
            }
            assert((cur@ + rest).take(cur@.len() as int) == cur@);
            assert((cur@ + rest).skip(cur@.len() as int + 1) == rest.skip(1));
            let ghost old_out = out@;
            out.push(cur);
            assert(views(out@) == views(old_out) + seq![cur@]);
            cur = Vec::new();
            assert(cur@ + v@.skip(i + 1) == v@.skip(i + 1));
        } else {
            let ghost old_cur = cur@;
            cur.push(c);
            assert(cur@ + v@.skip(i + 1) == old_cur + rest);
        }
        i = i + 1;
    }
    assert(v@.skip(i as int) == Seq::<char>::empty());
    assert(cur@ + v@.skip(i as int) == cur@);
    proof {
        lemma_piece_len_concat(cur@, Seq::<char>::empty(), sep);
    }
    assert(cur@ + Seq::<char>::empty() == cur@);
    let ghost old_out = out@;
    out.push(cur);
    assert(views(out@) == views(old_out) + seq![cur@]);
    out
}

pub open spec fn is_ascii_alnum(c: char) -> bool {
    ('a' <= c && c <= 'z') || ('A' <= c && c <= 'Z') || ('0' <= c && c <= '9')
}

/// The lowercase of the text of `v`, by `str::to_lowercase`.
pub fn lowercase_chars(v: &Vec<char>) -> (r: Vec<char>)
    ensures
        r@ == lowercase(v@),
{
    let s = string_of(v.as_slice());
    let l = to_lowercase(s.as_str());
    chars_of(l.as_str())
}

/// Whether `v` holds exactly the text `s`.
pub fn chars_eq_str(v: &Vec<char>, s: &str) -> (r: bool)
    ensures
        r == (v@ == s@),
{
    let w = chars_of(s);
    eq_chars(v, &w)
}

} // verus!

verus! {

pub proof fn lemma_shorter_first_strict(a: Seq<char>, b: Seq<char>, c: Seq<char>)
    ensures
        !shorter_first_lt(a, a),
        a != b ==> (shorter_first_lt(a, b) || shorter_first_lt(b, a)),
        !(shorter_first_lt(a, b) && shorter_first_lt(b, a)),
        shorter_first_lt(a, b) && shorter_first_lt(b, c) ==> shorter_first_lt(a, c),
{
    lemma_lex_lt_irreflexive(a);
    lemma_lex_lt_trichotomy(a, b);
    if shorter_first_lt(a, b) && shorter_first_lt(b, c) && utf8_len(a) == utf8_len(b) && utf8_len(b) == utf8_len(c) {
        lemma_lex_lt_transitive(a, b, c);
    }
}

pub open spec fn strings_sorted(v: Seq<Seq<char>>) -> bool {
    forall|i: int, j: int| 0 <= i < j < v.len() ==> shorter_first_lt(#[trigger] v[i], #[trigger] v[j])
}

pub open spec fn string_views(v: Seq<String>) -> Seq<Seq<char>> {
    v.map_values(|s: String| s@)
}

/// Sorts distinct strings, shorter first, then lexicographic.
pub fn sort_shorter_first(v: Vec<String>) -> (r: Vec<String>)
    requires
        string_views(v@).no_duplicates(),
    ensures
        string_views(r@).no_duplicates(),
        string_views(r@).to_set() == string_views(v@).to_set(),
        r@.len() == v@.len(),
        strings_sorted(string_views(r@)),
{
    let mut out: Vec<String> = Vec::new();
    let mut i: usize = 0;
    while i < v.len()
        invariant
            i <= v.len(),
            string_views(v@).no_duplicates(),
            string_views(out@).no_duplicates(),
            string_views(out@).to_set() == string_views(v@).take(i as int).to_set(),
            out@.len() == i,
            strings_sorted(string_views(out@)),
        decreases v.len() - i,
    {
        let x = &v[i];
        let mut p: usize = 0;
        while p < out.len() && !shorter_first_less(x, &out[p])
            invariant
                p <= out.len(),
                forall|q: int| 0 <= q < p ==> !shorter_first_lt(x@, #[trigger] out@[q]@),
            decreases out.len() - p,
        {
            p = p + 1;
        }
        let ghost old_out = string_views(out@);
        let ghost xs = x@;
        assert(!old_out.contains(xs)) by {
            if old_out.contains(xs) {
                let k = choose|k: int| 0 <= k < old_out.len() && old_out[k] == xs;
                assert(string_views(v@).take(i as int).to_set().contains(xs));
                let m = choose|m: int| 0 <= m < i && string_views(v@).take(i as int)[m] == xs;
                assert(string_views(v@)[m] == string_views(v@)[i as int]);
            }
        }
        out.insert(p, x.clone());
        let ghost nv = string_views(out@);
        assert(nv == old_out.insert(p as int, xs));
        assert forall|q: int| 0 <= q < p implies shorter_first_lt(#[trigger] old_out[q], xs) by {
            lemma_shorter_first_strict(old_out[q], xs, xs);
            assert(old_out[q] == out@[q]@) by {
                assert(nv[q] == old_out[q]);
            }
        }
        assert(strings_sorted(nv)) by {
            assert forall|a: int, b: int| 0 <= a < b < nv.len() implies shorter_first_lt(#[trigger] nv[a], #[trigger] nv[b]) by {
                if b < p {
                    assert(nv[a] == old_out[a] && nv[b] == old_out[b]);
                } else if b == p {
                    assert(nv[a] == old_out[a]);
                } else if a < p {
                    assert(nv[a] == old_out[a] && nv[b] == old_out[b - 1]);
                    assert(shorter_first_lt(xs, old_out[p as int]));
                    lemma_shorter_first_strict(old_out[a], xs, old_out[p as int]);
                    if b - 1 > p {
                        lemma_shorter_first_strict(old_out[a], old_out[p as int], old_out[b - 1]);
                    }
                } else if a == p {
                    assert(nv[b] == old_out[b - 1]);
                    if b - 1 > p {
                        lemma_shorter_first_strict(xs, old_out[p as int], old_out[b - 1]);
                    }
                } else {
                    assert(nv[a] == old_out[a - 1] && nv[b] == old_out[b - 1]);
                }
            }
        }
        assert(nv.no_duplicates()) by {
            assert forall|a: int, b: int| 0 <= a < nv.len() && 0 <= b < nv.len() && a != b implies nv[a] != nv[b] by {
                if a < b {
                    assert(shorter_first_lt(nv[a], nv[b]));
                    lemma_shorter_first_strict(nv[a], nv[a], nv[a]);
                } else {
                    assert(shorter_first_lt(nv[b], nv[a]));
                    lemma_shorter_first_strict(nv[a], nv[a], nv[a]);
                }
            }
        }
        assert(string_views(v@).take(i + 1) == string_views(v@).take(i as int).push(xs));
        assert(nv.to_set() == old_out.to_set().insert(xs)) by {
            assert forall|s: Seq<char>| nv.to_set().contains(s) <==> old_out.to_set().insert(xs).contains(s) by {
                if nv.to_set().contains(s) {
                    let k = choose|k: int| 0 <= k < nv.len() && nv[k] == s;
                    if k < p {
                        assert(old_out[k] == s);
                    } else if k > p {
                        assert(old_out[k - 1] == s);
                    }
                }
                if old_out.to_set().contains(s) && s != xs {
                    let k = choose|k: int| 0 <= k < old_out.len() && old_out[k] == s;
                    if k < p {
                        assert(nv[k] == s);
                    } else {
                        assert(nv[k + 1] == s);
                    }
                }
                if s == xs {
                    assert(nv[p as int] == xs);
                }
            }
        }
        assert(string_views(v@).take(i + 1).to_set() == string_views(v@).take(i as int).to_set().insert(xs)) by {
            let t = string_views(v@).take(i as int);
            assert forall|s: Seq<char>| t.push(xs).to_set().contains(s) <==> t.to_set().insert(xs).contains(s) by {
                if t.push(xs).to_set().contains(s) {
                    let k = choose|k: int| 0 <= k < t.push(xs).len() && t.push(xs)[k] == s;
                    if k < t.len() {
                        assert(t[k] == s);
                    }
                }
                if t.to_set().contains(s) {
                    let k = choose|k: int| 0 <= k < t.len() && t[k] == s;
                    assert(t.push(xs)[k] == s);
                }
                if s == xs {
                    assert(t.push(xs)[t.len() as int] == xs);
                }
            }
        }
        i = i + 1;
    }
    assert(string_views(v@).take(v.len() as int) == string_views(v@));
    out
}

} // verus!

verus! {

/// `n` occurs in `h`.
pub open spec fn has_sub(h: Seq<char>, n: Seq<char>) -> bool {
    exists|i: int| 0 <= i <= h.len() - n.len() && #[trigger] h.subrange(i, i + n.len()) == n
}

/// Whether `n` occurs in `h`.
pub fn contains_chars(h: &Vec<char>, n: &Vec<char>) -> (r: bool)
    ensures
        r == has_sub(h@, n@),
{
    if n.len() > h.len() {
        return false;
    }
    let mut i: usize = 0;
    while i <= h.len() - n.len()
        invariant
            n.len() <= h.len(),
            i <= h.len() - n.len() + 1,
            forall|j: int| 0 <= j < i ==> #[trigger] h@.subrange(j, j + n@.len()) != n@,
        decreases h.len() - n.len() + 1 - i,
    {
        let mut k: usize = 0;
        while k < n.len() && h[i + k] == n[k]
            invariant
                k <= n.len(),
                i + n.len() <= h.len(),
                forall|q: int| 0 <= q < k ==> h@[i + q] == n@[q],
            decreases n.len() - k,
        {
            k = k + 1;
        }
        if k == n.len() {
            assert(h@.subrange(i as int, i + n@.len()) =~= n@);
            return true;
        }
        assert(h@.subrange(i as int, i + n@.len())[k as int] != n@[k as int]);
        i = i + 1;
    }
    false
}

} // verus!

verus! {

/// No string comes after a later one.
pub open spec fn lex_sorted(v: Seq<Seq<char>>) -> bool {
    forall|i: int, j: int| 0 <= i < j < v.len() ==> !lex_lt(#[trigger] v[j], #[trigger] v[i])
}

proof fn lemma_insert_multiset<A>(s: Seq<A>, i: int, a: A)
    requires
        0 <= i <= s.len(),
    ensures
        s.insert(i, a).to_multiset() == s.to_multiset().insert(a),
{
    broadcast use vstd::seq_lib::group_to_multiset_ensures;
    let t = s.insert(i, a);
    assert(t.remove(i) =~= s);
    assert(t[i] == a);
    assert(t.to_multiset().remove(a) == s.to_multiset());
    assert(t.contains(a));
    assert(t.to_multiset().count(a) > 0);
    assert(t.to_multiset() =~= s.to_multiset().insert(a));
}

/// Sorts strings in lexicographic order, keeping equal ones in their order.
pub fn sort_lex(v: &Vec<String>) -> (r: Vec<String>)
    ensures
        lex_sorted(string_views(r@)),
        string_views(r@).to_multiset() == string_views(v@).to_multiset(),
{
    broadcast use vstd::seq_lib::group_to_multiset_ensures;
    let mut out: Vec<String> = Vec::new();
    let mut k: usize = 0;
    while k < v.len()
        invariant
            k <= v.len(),
            lex_sorted(string_views(out@)),
            string_views(out@).to_multiset() == string_views(v@.take(k as int)).to_multiset(),
        decreases v.len() - k,
    {
        let x = chars_of(v[k].as_str());
        let mut pos: usize = 0;
        while pos < out.len() && !lex_less(&x, &chars_of(out[pos].as_str()))
            invariant
                pos <= out.len(),
                k < v.len(),
                x@ == v@[k as int]@,
                forall|q: int| 0 <= q < pos ==> !lex_lt(x@, (#[trigger] out@[q])@),
            decreases out.len() - pos,
        {
            pos = pos + 1;
        }
        let ghost old_v = string_views(out@);
        out.insert(pos, v[k].clone());
        let ghost nv = string_views(out@);
        assert(nv =~= old_v.insert(pos as int, x@));
        assert forall|a: int, b: int| 0 <= a < b < nv.len() implies !lex_lt(#[trigger] nv[b], #[trigger] nv[a]) by {
            if b < pos {
                assert(nv[a] == old_v[a] && nv[b] == old_v[b]);
            } else if b == pos {
                assert(nv[a] == old_v[a]);
                assert(!lex_lt(x@, old_v[a]));
            } else if a < pos {
                assert(nv[a] == old_v[a] && nv[b] == old_v[b - 1]);
                assert(!lex_lt(x@, old_v[a]));
                if pos < old_v.len() {
                    assert(lex_lt(x@, old_v[pos as int]));
                }
                if lex_lt(old_v[b - 1], old_v[a]) {
                    lemma_lex_lt_trichotomy(x@, old_v[a]);
                    if b - 1 > pos {
                        assert(!lex_lt(old_v[b - 1], old_v[pos as int]));
                    }
                    assert(!lex_lt(old_v[b - 1], old_v[a])) by {
                        assert(!lex_lt(old_v[b - 1], old_v[a]));
                    }
                }
            } else if a == pos {
                assert(nv[b] == old_v[b - 1]);
                assert(lex_lt(x@, old_v[pos as int]));
                if b - 1 > pos {
                    assert(!lex_lt(old_v[b - 1], old_v[pos as int]));
                    lemma_lex_lt_trichotomy(old_v[b - 1], old_v[pos as int]);
                    if old_v[b - 1] != old_v[pos as int] {
                        lemma_lex_lt_transitive(x@, old_v[pos as int], old_v[b - 1]);
                    }
                }
                lemma_lex_lt_trichotomy(x@, old_v[b - 1]);
            } else {
                assert(nv[a] == old_v[a - 1] && nv[b] == old_v[b - 1]);
            }
        }
        proof {
            lemma_insert_multiset(old_v, pos as int, x@);
            assert(string_views(v@.take(k + 1)) =~= string_views(v@.take(k as int)).push(x@));
            let sk = string_views(v@.take(k as int));
            lemma_insert_multiset(sk, sk.len() as int, x@);
            assert(sk.insert(sk.len() as int, x@) =~= sk.push(x@));
            assert(string_views(out@) == nv);
        }
        k = k + 1;
    }
    assert(v@.take(v.len() as int) == v@);
    out
}

} // verus!
