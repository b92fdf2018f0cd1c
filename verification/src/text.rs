//! Character-level text utilities over `Seq<char>` models.
//!
//! Text is handled as vectors of `char`; every operation states its result
//! over the `Seq<char>` view of its arguments.
use vstd::prelude::*;

verus! {

// ---------------------------------------------------------------------------
// Specifications
// ---------------------------------------------------------------------------

/// Unicode `White_Space`, the property that `char::is_whitespace` tests.
pub open spec fn is_ws(c: char) -> bool {
    ||| ('\u{9}' <= c && c <= '\u{d}')
    ||| c == ' '
    ||| c == '\u{85}'
    ||| c == '\u{a0}'
    ||| c == '\u{1680}'
    ||| ('\u{2000}' <= c && c <= '\u{200a}')
    ||| c == '\u{2028}'
    ||| c == '\u{2029}'
    ||| c == '\u{202f}'
    ||| c == '\u{205f}'
    ||| c == '\u{3000}'
}

/// `s` without its leading whitespace.
pub open spec fn trim_start(s: Seq<char>) -> Seq<char>
    decreases s.len(),
{
    if s.len() > 0 && is_ws(s[0]) {
        trim_start(s.drop_first())
    } else {
        s
    }
}

/// `s` without its trailing whitespace.
pub open spec fn trim_end(s: Seq<char>) -> Seq<char>
    decreases s.len(),
{
    if s.len() > 0 && is_ws(s.last()) {
        trim_end(s.drop_last())
    } else {
        s
    }
}

/// `s` without leading and trailing whitespace (as `str::trim`).
pub open spec fn trim(s: Seq<char>) -> Seq<char> {
    trim_end(trim_start(s))
}

/// Index of the first `c` in `s`, or `s.len()` when `c` does not occur.
pub open spec fn pos_of(s: Seq<char>, c: char) -> int
    decreases s.len(),
{
    if s.len() == 0 {
        0
    } else if s[0] == c {
        0
    } else {
        1 + pos_of(s.drop_first(), c)
    }
}

/// `s` without one trailing carriage return.
pub open spec fn strip_cr(s: Seq<char>) -> Seq<char> {
    if s.len() > 0 && s.last() == '\r' {
        s.drop_last()
    } else {
        s
    }
}

/// The lines of `s` as `str::lines` yields them: split at `\n`, a `\r`
/// directly before a `\n` dropped, no empty line after a final `\n`.
pub open spec fn lines_of(s: Seq<char>) -> Seq<Seq<char>>
    decreases s.len(),
{
    if s.len() == 0 {
        seq![]
    } else {
        let i = pos_of(s, '\n');
        if i >= s.len() || i < 0 {
            seq![s]
        } else {
            seq![strip_cr(s.subrange(0, i))] + lines_of(s.subrange(i + 1, s.len() as int))
        }
    }
}

/// The pieces of `s` between occurrences of `c` (as `str::split` with a char):
/// always at least one piece.
pub open spec fn split_on(s: Seq<char>, c: char) -> Seq<Seq<char>>
    decreases s.len(),
{
    let i = pos_of(s, c);
    if i >= s.len() || i < 0 {
        seq![s]
    } else {
        seq![s.subrange(0, i)] + split_on(s.subrange(i + 1, s.len() as int), c)
    }
}

/// Index of the first whitespace character of `s`, or `s.len()`.
pub open spec fn pos_ws(s: Seq<char>) -> int
    decreases s.len(),
{
    if s.len() == 0 {
        0
    } else if is_ws(s[0]) {
        0
    } else {
        1 + pos_ws(s.drop_first())
    }
}

/// The maximal runs of non-whitespace characters of `s`
/// (as `str::split_whitespace`).
pub open spec fn words_of(s: Seq<char>) -> Seq<Seq<char>>
    decreases s.len(),
{
    let t = trim_start(s);
    if t.len() == 0 || t.len() > s.len() {
        seq![]
    } else {
        let i = pos_ws(t);
        if i <= 0 || i > t.len() {
            seq![t]
        } else {
            seq![t.subrange(0, i)] + words_of(t.subrange(i, t.len() as int))
        }
    }
}

/// `pat` occurs in `s` starting at index `i`.
pub open spec fn occurs_at(s: Seq<char>, pat: Seq<char>, i: int) -> bool {
    0 <= i && i + pat.len() <= s.len() && s.subrange(i, i + pat.len()) == pat
}

/// `pat` occurs somewhere in `s` (as `str::contains`).
pub open spec fn contains_seq(s: Seq<char>, pat: Seq<char>) -> bool {
    exists|i: int| occurs_at(s, pat, i)
}

/// The first index at which `pat` occurs in `s` (as `str::find`).
pub open spec fn find_seq(s: Seq<char>, pat: Seq<char>) -> Option<int> {
    if contains_seq(s, pat) {
        Some(choose|i: int| occurs_at(s, pat, i) && forall|j: int| 0 <= j < i ==> !occurs_at(s, pat, j))
    } else {
        None
    }
}

/// `s` begins with `pat`.
pub open spec fn starts_with(s: Seq<char>, pat: Seq<char>) -> bool {
    occurs_at(s, pat, 0)
}

/// `c` is an ASCII decimal digit.
pub open spec fn is_digit(c: char) -> bool {
    '0' <= c && c <= '9'
}

/// The value of the decimal numeral `d` (all of whose characters are digits).
pub open spec fn decimal_value(d: Seq<char>) -> int
    decreases d.len(),
{
    if d.len() == 0 {
        0
    } else {
        10 * decimal_value(d.drop_last()) + (d.last() as int - '0' as int)
    }
}

/// `s` without one leading `+`.
pub open spec fn unsigned_digits(s: Seq<char>) -> Seq<char> {
    if s.len() > 0 && s[0] == '+' {
        s.drop_first()
    } else {
        s
    }
}

/// What `str::parse::<u64>` gives: an optional `+`, then one or more digits
/// whose value fits in a `u64`.
pub open spec fn parse_u64(s: Seq<char>) -> Option<u64> {
    let d = unsigned_digits(s);
    if d.len() > 0 && (forall|i: int| 0 <= i < d.len() ==> #[trigger] is_digit(d[i])) && decimal_value(d)
        <= u64::MAX {
        Some(decimal_value(d) as u64)
    } else {
        None
    }
}

/// Law: decimal parsing as `str::parse::<u64>` does it: the empty text and
/// any text with a character other than a digit (after one optional leading
/// `+`) give nothing; a digit gives its value; appending a digit multiplies
/// the value by ten and adds the digit, while that fits in a `u64`; a leading
/// `+` changes nothing.
pub proof fn law_parse_u64(d: Seq<char>, c: char)
    ensures
        parse_u64(Seq::<char>::empty()) is None,
        '0' <= c <= '9' ==> parse_u64(seq![c]) == Some((c as int - '0' as int) as u64),
        (d.len() == 0 || d[0] != '+') ==> parse_u64(seq!['+'] + d) == parse_u64(d),
        (d.len() == 0 || d[0] != '+') && (exists|i: int| 0 <= i < d.len() && !('0' <= #[trigger] d[i] <= '9'))
            ==> parse_u64(d) is None,
        parse_u64(d) is Some && d[0] != '+' && '0' <= c <= '9' && 10 * parse_u64(d).unwrap() + (c as int - '0' as int)
            <= u64::MAX ==> parse_u64(d.push(c)) == Some(
            (10 * parse_u64(d).unwrap() + (c as int - '0' as int)) as u64,
        ),
{
    let one = seq![c];
    assert(one.drop_last() =~= Seq::<char>::empty());
    if '0' <= c <= '9' {
        assert(one[0] == c);
        assert(unsigned_digits(one) == one);
        assert(is_digit(one[0]));
        assert(one.last() == c);
        assert(decimal_value(one.drop_last()) == 0);
        assert(decimal_value(one) == c as int - '0' as int);
    }
    assert((seq!['+'] + d).drop_first() =~= d);
    if parse_u64(d) is Some && d[0] != '+' && '0' <= c <= '9' {
        let e = d.push(c);
        assert(e.drop_last() =~= d);
        assert(e.last() == c);
        assert(e[0] == d[0]);
        assert(unsigned_digits(e) == e);
        assert(unsigned_digits(d) == d);
        assert(decimal_value(e) == 10 * decimal_value(d) + (c as int - '0' as int));
        lemma_decimal_nonneg(d);
        assert(parse_u64(d).unwrap() == decimal_value(d));
        assert forall|i: int| 0 <= i < e.len() implies #[trigger] is_digit(e[i]) by {
            if i < d.len() {
                assert(e[i] == d[i]);
                assert(is_digit(d[i]));
            }
        }
    }
    if (d.len() == 0 || d[0] != '+') && (exists|i: int| 0 <= i < d.len() && !('0' <= #[trigger] d[i] <= '9')) {
        let i = choose|i: int| 0 <= i < d.len() && !('0' <= #[trigger] d[i] <= '9');
        assert(!is_digit(d[i]));
    }
}

/// Index of the last `c` in `s`, or -1 when `c` does not occur.
pub open spec fn last_pos_of(s: Seq<char>, c: char) -> int
    decreases s.len(),
{
    if s.len() == 0 {
        -1
    } else if s.last() == c {
        s.len() - 1
    } else {
        last_pos_of(s.drop_last(), c)
    }
}

/// `s` with every non-overlapping occurrence of `from`, scanning from the
/// left, replaced by `to` (as `str::replace`).
#[verifier::opaque]
pub open spec fn replace_all(s: Seq<char>, from: Seq<char>, to: Seq<char>) -> Seq<char>
    decreases s.len(),
{
    match find_seq(s, from) {
        Some(i) => if 0 <= i && i + from.len() <= s.len() && from.len() > 0 {
            s.take(i) + to + replace_all(s.skip(i + from.len()), from, to)
        } else {
            s
        },
        None => s,
    }
}

/// The Unicode lowercase mapping of `s`, as `str::to_lowercase` computes it.
pub uninterp spec fn lowercase(s: Seq<char>) -> Seq<char>;

/// The number of bytes `c` takes in UTF-8 (`char::len_utf8`).
pub open spec fn utf8_len_char(c: char) -> int {
    if (c as u32) < 0x80 {
        1
    } else if (c as u32) < 0x800 {
        2
    } else if (c as u32) < 0x10000 {
        3
    } else {
        4
    }
}

/// The number of bytes `s` takes in UTF-8 (`str::len`).
pub open spec fn utf8_len(s: Seq<char>) -> int
    decreases s.len(),
{
    if s.len() == 0 {
        0
    } else {
        utf8_len(s.drop_last()) + utf8_len_char(s.last())
    }
}

// ---------------------------------------------------------------------------
// Lemmas
// ---------------------------------------------------------------------------

pub proof fn lemma_pos_of(s: Seq<char>, c: char, i: int)
    requires
        0 <= i <= s.len(),
        forall|k: int| 0 <= k < i ==> s[k] != c,
        i == s.len() || s[i] == c,
    ensures
        pos_of(s, c) == i,
    decreases i,
{
    if i > 0 {
        lemma_pos_of(s.drop_first(), c, i - 1);
    }
}

/// `pos_of(s, c)` is the index of the first `c` in `s`, or `s.len()`.
pub proof fn lemma_pos_of_props(s: Seq<char>, c: char)
    ensures
        0 <= pos_of(s, c) <= s.len(),
        forall|k: int| 0 <= k < pos_of(s, c) ==> s[k] != c,
        pos_of(s, c) == s.len() || s[pos_of(s, c)] == c,
    decreases s.len(),
{
    if s.len() > 0 && s[0] != c {
        lemma_pos_of_props(s.drop_first(), c);
        assert forall|k: int| 0 <= k < pos_of(s, c) implies s[k] != c by {
            if k > 0 {
                assert(s[k] == s.drop_first()[k - 1]);
            }
        }
    }
}

/// The lines of `a` followed by `b`, where `a` is empty or ends with a line
/// break, are the lines of `a` followed by those of `b`.
pub proof fn lemma_lines_concat(a: Seq<char>, b: Seq<char>)
    requires
        a.len() == 0 || a.last() == '\n',
    ensures
        lines_of(a + b) == lines_of(a) + lines_of(b),
    decreases a.len(),
{
    if a.len() == 0 {
        assert(a + b =~= b);
        assert(lines_of(a) + lines_of(b) =~= lines_of(b));
    } else {
        lemma_pos_of_props(a, '\n');
        let i = pos_of(a, '\n');
        if i == a.len() {
            assert(a[a.len() - 1] == '\n');
        }
        assert(i < a.len());
        let ab = a + b;
        assert forall|k: int| 0 <= k < i implies ab[k] != '\n' by {
            assert(ab[k] == a[k]);
        }
        assert(ab[i] == a[i]);
        lemma_pos_of(ab, '\n', i);
        let rest = a.subrange(i + 1, a.len() as int);
        if rest.len() > 0 {
            assert(rest.last() == a.last());
        }
        lemma_lines_concat(rest, b);
        assert(ab.subrange(0, i) =~= a.subrange(0, i));
        assert(ab.subrange(i + 1, ab.len() as int) =~= rest + b);
        assert(lines_of(a + b) =~= seq![strip_cr(a.subrange(0, i))] + lines_of(rest + b));
        assert(lines_of(a) =~= seq![strip_cr(a.subrange(0, i))] + lines_of(rest));
        assert(seq![strip_cr(a.subrange(0, i))] + (lines_of(rest) + lines_of(b)) =~= lines_of(a) + lines_of(b));
    }
}

/// A text that starts with `pat` (holding no line break) has a first line
/// that starts with `pat`.
pub proof fn lemma_first_line_starts(s: Seq<char>, pat: Seq<char>)
    requires
        starts_with(s, pat),
        pat.len() > 0,
        forall|k: int| 0 <= k < pat.len() ==> pat[k] != '\n' && pat[k] != '\r',
    ensures
        lines_of(s).len() > 0,
        starts_with(lines_of(s)[0], pat),
{
    lemma_pos_of_props(s, '\n');
    let i = pos_of(s, '\n');
    assert(s.subrange(0, pat.len() as int) == pat);
    if i < pat.len() {
        assert(s[i] == pat[i]);
    }
    if i < s.len() {
        let head = s.subrange(0, i);
        let first = strip_cr(head);
        if head.last() == '\r' {
            if i == pat.len() {
                assert(head.last() == pat[i - 1]);
            }
        }
        assert(first.len() >= pat.len());
        assert(first.subrange(0, pat.len() as int) =~= pat);
        assert(lines_of(s)[0] == first);
    } else {
        assert(lines_of(s) =~= seq![s]);
    }
}

/// Splitting `a`, `c`, `b` at `c`, where `a` holds no `c`, gives `a` and then
/// the pieces of `b`; a text without `c` is one piece.
pub proof fn lemma_split_on_piece(a: Seq<char>, c: char, b: Seq<char>)
    requires
        forall|k: int| 0 <= k < a.len() ==> a[k] != c,
    ensures
        split_on(a + seq![c] + b, c) == seq![a] + split_on(b, c),
        split_on(a, c) == seq![a],
{
    let s = a + seq![c] + b;
    assert forall|k: int| 0 <= k < a.len() implies s[k] != c by {
        assert(s[k] == a[k]);
    }
    assert(s[a.len() as int] == c);
    lemma_pos_of(s, c, a.len() as int);
    assert(s.subrange(0, a.len() as int) =~= a);
    assert(s.subrange(a.len() as int + 1, s.len() as int) =~= b);
    lemma_pos_of(a, c, a.len() as int);
}

proof fn lemma_pos_ws(s: Seq<char>, i: int)
    requires
        0 <= i <= s.len(),
        forall|k: int| 0 <= k < i ==> !is_ws(s[k]),
        i == s.len() || is_ws(s[i]),
    ensures
        pos_ws(s) == i,
    decreases i,
{
    if i > 0 {
        lemma_pos_ws(s.drop_first(), i - 1);
    }
}

proof fn lemma_trim_start(s: Seq<char>, i: int)
    requires
        0 <= i <= s.len(),
        forall|k: int| 0 <= k < i ==> is_ws(s[k]),
        i == s.len() || !is_ws(s[i]),
    ensures
        trim_start(s) == s.subrange(i, s.len() as int),
    decreases i,
{
    if i > 0 {
        lemma_trim_start(s.drop_first(), i - 1);
        assert(s.drop_first().subrange(i - 1, s.len() - 1) =~= s.subrange(i, s.len() as int));
    } else {
        assert(s.subrange(0, s.len() as int) =~= s);
    }
}

proof fn lemma_trim_end(s: Seq<char>, j: int)
    requires
        0 <= j <= s.len(),
        forall|k: int| j <= k < s.len() ==> is_ws(s[k]),
        j == 0 || !is_ws(s[j - 1]),
    ensures
        trim_end(s) == s.subrange(0, j),
    decreases s.len() - j,
{
    if j < s.len() {
        lemma_trim_end(s.drop_last(), j);
        assert(s.drop_last().subrange(0, j) =~= s.subrange(0, j));
    } else {
        assert(s.subrange(0, s.len() as int) =~= s);
    }
}

proof fn lemma_trim_start_shape(s: Seq<char>) -> (a: int)
    ensures
        0 <= a <= s.len(),
        trim_start(s) == s.subrange(a, s.len() as int),
        a == s.len() || !is_ws(s[a]),
    decreases s.len(),
{
    if s.len() > 0 && is_ws(s[0]) {
        let a = lemma_trim_start_shape(s.drop_first());
        assert(s.drop_first().subrange(a, s.len() - 1) =~= s.subrange(a + 1, s.len() as int));
        a + 1
    } else {
        assert(s.subrange(0, s.len() as int) =~= s);
        0
    }
}

proof fn lemma_trim_end_shape(s: Seq<char>) -> (b: int)
    ensures
        0 <= b <= s.len(),
        trim_end(s) == s.subrange(0, b),
        b == 0 || !is_ws(s[b - 1]),
    decreases s.len(),
{
    if s.len() > 0 && is_ws(s.last()) {
        let b = lemma_trim_end_shape(s.drop_last());
        assert(s.drop_last().subrange(0, b) =~= s.subrange(0, b));
        b
    } else {
        assert(s.subrange(0, s.len() as int) =~= s);
        s.len() as int
    }
}

/// `trim(s)` is a piece of `s` that neither starts nor ends with whitespace.
pub proof fn lemma_trim_shape(s: Seq<char>) -> (r: (int, int))
    ensures
        0 <= r.0 <= r.1 <= s.len(),
        trim(s) == s.subrange(r.0, r.1),
        trim(s).len() > 0 ==> !is_ws(trim(s)[0]) && !is_ws(trim(s).last()),
{
    let a = lemma_trim_start_shape(s);
    let y = s.subrange(a, s.len() as int);
    let b = lemma_trim_end_shape(y);
    assert(y.subrange(0, b) =~= s.subrange(a, a + b));
    (a, a + b)
}

/// Trimming twice trims no more than once.
pub proof fn lemma_trim_idempotent(s: Seq<char>)
    ensures
        trim(trim(s)) == trim(s),
{
    let t = trim(s);
    lemma_trim_shape(s);
    lemma_trim_start(t, 0);
    assert(t.subrange(0, t.len() as int) =~= t);
    lemma_trim_end(t, t.len() as int);
}

proof fn lemma_find_first(s: Seq<char>, pat: Seq<char>, i: int)
    requires
        occurs_at(s, pat, i),
        forall|j: int| 0 <= j < i ==> !occurs_at(s, pat, j),
    ensures
        find_seq(s, pat) == Some(i),
{
    assert(contains_seq(s, pat));
    let w = choose|w: int| occurs_at(s, pat, w) && forall|j: int| 0 <= j < w ==> !occurs_at(s, pat, j);
    assert(occurs_at(s, pat, w) && forall|j: int| 0 <= j < w ==> !occurs_at(s, pat, j));
    if w < i {
        assert(!occurs_at(s, pat, w));
    } else if w > i {
        assert(!occurs_at(s, pat, i));
    }
}

proof fn lemma_find_none(s: Seq<char>, pat: Seq<char>, limit: int)
    requires
        limit == s.len() - pat.len(),
        forall|j: int| 0 <= j <= limit ==> !occurs_at(s, pat, j),
    ensures
        find_seq(s, pat) is None,
        forall|j: int| !occurs_at(s, pat, j),
{
    assert forall|j: int| !occurs_at(s, pat, j) by {
        if occurs_at(s, pat, j) {
            assert(0 <= j <= limit);
        }
    }
}

// ---------------------------------------------------------------------------
// Executable operations
// ---------------------------------------------------------------------------

/// Copies the characters of `s` into a vector.
pub fn chars_of(s: &str) -> (res: Vec<char>)
    ensures
        res@ == s@,
{
    let mut res: Vec<char> = Vec::new();
    for c in it: s.chars()
        invariant
            res@ == it.seq().take(it.index() as int),
            it.seq() == s@,
    {
        res.push(c);
    }
    res
}

/// Builds a `String` holding the characters of `v` (`FromIterator<&char>`
/// for `String`, which appends each char in order).
#[verifier::external_body]
pub(crate) fn string_of(v: &[char]) -> (res: String)
    ensures
        res@ == v@,
{
    String::from_iter(v.iter())
}

/// `char::is_whitespace`: the Unicode `White_Space` property.
pub fn is_whitespace(c: char) -> (res: bool)
    ensures
        res == is_ws(c),
{
    ('\u{9}' <= c && c <= '\u{d}') || c == ' ' || c == '\u{85}' || c == '\u{a0}' || c == '\u{1680}'
        || ('\u{2000}' <= c && c <= '\u{200a}') || c == '\u{2028}' || c == '\u{2029}'
        || c == '\u{202f}' || c == '\u{205f}' || c == '\u{3000}'
}

/// The characters `v[lo..hi]` as a new vector.
pub fn slice_of(v: &Vec<char>, lo: usize, hi: usize) -> (res: Vec<char>)
    requires
        lo <= hi <= v.len(),
    ensures
        res@ == v@.subrange(lo as int, hi as int),
{
    let mut res: Vec<char> = Vec::new();
    let mut k = lo;
    while k < hi
        invariant
            lo <= k <= hi <= v.len(),
            res@ == v@.subrange(lo as int, k as int),
        decreases hi - k,
    {
        res.push(v[k]);
        k += 1;
    }
    res
}

/// `v` without leading and trailing whitespace.
pub fn trim_chars(v: &Vec<char>) -> (res: Vec<char>)
    ensures
        res@ == trim(v@),
{
    let n = v.len();
    let mut lo: usize = 0;
    while lo < n && is_whitespace(v[lo])
        invariant
            lo <= n == v.len(),
            forall|k: int| 0 <= k < lo ==> is_ws(v@[k]),
        decreases n - lo,
    {
        lo += 1;
    }
    proof {
        lemma_trim_start(v@, lo as int);
    }
    let mut hi: usize = n;
    while hi > lo && is_whitespace(v[hi - 1])
        invariant
            lo <= hi <= n == v.len(),
            forall|k: int| hi <= k < n ==> is_ws(v@[k]),
        decreases hi,
    {
        hi -= 1;
    }
    let ghost t = v@.subrange(lo as int, n as int);
    proof {
        assert forall|k: int| hi - lo <= k < t.len() implies is_ws(t[k]) by {}
        lemma_trim_end(t, hi - lo);
        assert(t.subrange(0, hi - lo) =~= v@.subrange(lo as int, hi as int));
    }
    slice_of(v, lo, hi)
}

/// `pat` occurs in `s` at index `i`.
pub fn matches_at(s: &Vec<char>, pat: &Vec<char>, i: usize) -> (res: bool)
    ensures
        res == occurs_at(s@, pat@, i as int),
{
    if i > s.len() || pat.len() > s.len() - i {
        return false;
    }
    let mut k: usize = 0;
    while k < pat.len()
        invariant
            i + pat.len() <= s.len(),
            k <= pat.len(),
            forall|j: int| 0 <= j < k ==> s@[i + j] == pat@[j],
        decreases pat.len() - k,
    {
        if s[i + k] != pat[k] {
            assert(s@.subrange(i as int, i + pat.len())[k as int] != pat@[k as int]);
            return false;
        }
        k += 1;
    }
    assert(s@.subrange(i as int, i + pat.len()) =~= pat@);
    true
}

/// The first index at which `pat` occurs in `s` (as `str::find`).
pub fn find_chars(s: &Vec<char>, pat: &Vec<char>) -> (res: Option<usize>)
    ensures
        match res {
            Some(i) => find_seq(s@, pat@) == Some(i as int),
            None => find_seq(s@, pat@) is None,
        },
        res matches Some(i) ==> occurs_at(s@, pat@, i as int) && forall|j: int|
            0 <= j < i ==> !occurs_at(s@, pat@, j),
        res is None ==> forall|j: int| !occurs_at(s@, pat@, j),
{
    if pat.len() > s.len() {
        proof {
            lemma_find_none(s@, pat@, s@.len() - pat@.len());
        }
        return None;
    }
    let limit = s.len() - pat.len();
    let mut i: usize = 0;
    loop
        invariant
            i <= limit == s.len() - pat.len(),
            forall|j: int| 0 <= j < i ==> !occurs_at(s@, pat@, j),
        ensures
            forall|j: int| 0 <= j <= limit ==> !occurs_at(s@, pat@, j),
        decreases limit - i,
    {
        if matches_at(s, pat, i) {
            proof {
                lemma_find_first(s@, pat@, i as int);
            }
            return Some(i);
        }
        if i == limit {
            break;
        }
        i += 1;
    }
    proof {
        lemma_find_none(s@, pat@, limit as int);
    }
    None
}

/// `pat` occurs somewhere in `s` (as `str::contains`).
pub fn contains_chars(s: &Vec<char>, pat: &Vec<char>) -> (res: bool)
    ensures
        res == contains_seq(s@, pat@),
{
    match find_chars(s, pat) {
        Some(i) => true,
        None => false,
    }
}

/// The index of the first `c` in `v[from..]`, or `v.len()`.
pub fn index_of_char_from(v: &Vec<char>, c: char, from: usize) -> (res: usize)
    requires
        from <= v.len(),
    ensures
        from <= res <= v.len(),
        res == from + pos_of(v@.subrange(from as int, v.len() as int), c),
{
    let mut i = from;
    while i < v.len() && v[i] != c
        invariant
            from <= i <= v.len(),
            forall|k: int| from <= k < i ==> v@[k] != c,
        decreases v.len() - i,
    {
        i += 1;
    }
    proof {
        lemma_pos_of(v@.subrange(from as int, v.len() as int), c, i - from);
    }
    i
}

/// The lines of `text` (as `str::lines`).
pub fn lines(text: &Vec<char>) -> (res: Vec<Vec<char>>)
    ensures
        res@.map_values(|l: Vec<char>| l@) == lines_of(text@),
{
    let n = text.len();
    let mut res: Vec<Vec<char>> = Vec::new();
    let mut start: usize = 0;
    assert(text@.subrange(0, n as int) =~= text@);
    while start < n
        invariant
            n == text.len(),
            start <= n,
            lines_of(text@) == res@.map_values(|l: Vec<char>| l@) + lines_of(
                text@.subrange(start as int, n as int),
            ),
        decreases n - start,
    {
        let ghost rest = text@.subrange(start as int, n as int);
        let i = index_of_char_from(text, '\n', start);
        let ghost old_res = res@;
        if i == n {
            let line = slice_of(text, start, n);
            res.push(line);
            proof {
                assert(lines_of(rest) == seq![rest]);
                assert(text@.subrange(n as int, n as int).len() == 0);
                assert(res@.map_values(|l: Vec<char>| l@) =~= old_res.map_values(
                    |l: Vec<char>| l@,
                ).push(rest));
            }
            start = n;
        } else {
            let hi = if i > start && text[i - 1] == '\r' {
                i - 1
            } else {
                i
            };
            let line = slice_of(text, start, hi);
            res.push(line);
            proof {
                let j = i - start;
                assert(rest.subrange(0, j) =~= text@.subrange(start as int, i as int));
                assert(rest.subrange(j + 1, rest.len() as int) =~= text@.subrange(
                    i + 1,
                    n as int,
                ));
                assert(strip_cr(rest.subrange(0, j)) =~= text@.subrange(start as int, hi as int));
                assert(res@.map_values(|l: Vec<char>| l@) =~= old_res.map_values(
                    |l: Vec<char>| l@,
                ).push(text@.subrange(start as int, hi as int)));
            }
            start = i + 1;
        }
    }
    assert(lines_of(text@.subrange(n as int, n as int)) == Seq::<Seq<char>>::empty());
    assert(res@.map_values(|l: Vec<char>| l@) =~= lines_of(text@));
    res
}

proof fn lemma_decimal_monotone(d: Seq<char>, k: int)
    requires
        0 <= k <= d.len(),
        forall|i: int| 0 <= i < d.len() ==> #[trigger] is_digit(d[i]),
    ensures
        decimal_value(d.take(k)) <= decimal_value(d),
        0 <= decimal_value(d.take(k)),
    decreases d.len() - k,
{
    if k < d.len() {
        lemma_decimal_monotone(d, k + 1);
        assert(d.take(k + 1).drop_last() =~= d.take(k));
        assert(is_digit(d[k]));
    } else {
        assert(d.take(k) =~= d);
        lemma_decimal_nonneg(d);
    }
}

proof fn lemma_decimal_nonneg(d: Seq<char>)
    requires
        forall|i: int| 0 <= i < d.len() ==> #[trigger] is_digit(d[i]),
    ensures
        0 <= decimal_value(d),
    decreases d.len(),
{
    if d.len() > 0 {
        assert(is_digit(d[d.len() - 1]));
        lemma_decimal_nonneg(d.drop_last());
    }
}

/// Parses `s` as `str::parse::<u64>` does.
pub fn parse_u64_chars(s: &Vec<char>) -> (res: Option<u64>)
    ensures
        res == parse_u64(s@),
{
    let n = s.len();
    let start: usize = if n > 0 && s[0] == '+' {
        1
    } else {
        0
    };
    let ghost d = unsigned_digits(s@);
    proof {
        if start == 1 {
            assert(d =~= s@.subrange(start as int, n as int));
        } else {
            assert(d =~= s@.subrange(start as int, n as int));
        }
    }
    if start == n {
        return None;
    }
    let mut value: u64 = 0;
    let mut i = start;
    while i < n
        invariant
            start <= i <= n == s.len(),
            d == s@.subrange(start as int, n as int),
            d == unsigned_digits(s@),
            forall|k: int| 0 <= k < i - start ==> #[trigger] is_digit(d[k]),
            value as int == decimal_value(d.take(i - start)),
        decreases n - i,
    {
        let c = s[i];
        assert(c == d[i - start]);
        if !('0' <= c && c <= '9') {
            proof {
                assert(!is_digit(d[i - start]));
                assert(!(forall|k: int| 0 <= k < d.len() ==> #[trigger] is_digit(d[k])));
            }
            return None;
        }
        let digit: u64 = (c as u32 - '0' as u32) as u64;
        proof {
            assert(d.take(i - start + 1).drop_last() =~= d.take(i - start));
            assert(d.take(i - start + 1).last() == c);
        }
        if value > (u64::MAX - digit) / 10 {
            proof {
                assert(value * 10 + digit > u64::MAX) by (nonlinear_arith)
                    requires
                        value > (u64::MAX - digit) / 10,
                        digit <= 9,
                ;
                let j = i - start + 1;
                assert(decimal_value(d.take(j)) == 10 * decimal_value(d.take(i - start)) + (c as int - '0' as int));
                assert(decimal_value(d.take(j)) > u64::MAX);
                if forall|k: int| 0 <= k < d.len() ==> #[trigger] is_digit(d[k]) {
                    lemma_decimal_monotone(d, j);
                    assert(decimal_value(d) > u64::MAX);
                }
            }
            return None;
        }
        proof {
            assert(value * 10 + digit <= u64::MAX) by (nonlinear_arith)
                requires
                    value <= (u64::MAX - digit) / 10,
                    digit <= 9,
            ;
        }
        value = value * 10 + digit;
        i += 1;
    }
    proof {
        assert(d.take(n - start) =~= d);
    }
    Some(value)
}

/// `str::to_lowercase`. Its result depends on the characters of `s` alone;
/// nothing more of the Unicode case mapping is stated here.
#[verifier::external_body]
pub(crate) fn to_lowercase(s: &str) -> (res: String)
    ensures
        res@ == lowercase(s@),
{
    s.to_lowercase()
}

/// The pieces of `v` between occurrences of `c` (as `str::split`).
pub fn split_chars(v: &Vec<char>, c: char) -> (res: Vec<Vec<char>>)
    ensures
        res@.map_values(|l: Vec<char>| l@) == split_on(v@, c),
{
    let n = v.len();
    let mut res: Vec<Vec<char>> = Vec::new();
    let mut start: usize = 0;
    assert(v@.subrange(0, n as int) =~= v@);
    loop
        invariant
            n == v.len(),
            start <= n,
            split_on(v@, c) == res@.map_values(|l: Vec<char>| l@) + split_on(
                v@.subrange(start as int, n as int),
                c,
            ),
        decreases n - start,
    {
        let ghost rest = v@.subrange(start as int, n as int);
        let i = index_of_char_from(v, c, start);
        let ghost old_res = res@;
        let piece = slice_of(v, start, i);
        res.push(piece);
        if i == n {
            proof {
                assert(split_on(rest, c) == seq![rest]);
                assert(res@.map_values(|l: Vec<char>| l@) =~= old_res.map_values(|l: Vec<char>| l@).push(rest));
                assert(res@.map_values(|l: Vec<char>| l@) =~= split_on(v@, c));
            }
            return res;
        }
        proof {
            let j = i - start;
            assert(rest.subrange(0, j) =~= v@.subrange(start as int, i as int));
            assert(rest.subrange(j + 1, rest.len() as int) =~= v@.subrange(i + 1, n as int));
            assert(res@.map_values(|l: Vec<char>| l@) =~= old_res.map_values(|l: Vec<char>| l@).push(
                v@.subrange(start as int, i as int),
            ));
        }
        start = i + 1;
    }
}

/// The maximal runs of non-whitespace characters of `v` (as `str::split_whitespace`).
pub fn words(v: &Vec<char>) -> (res: Vec<Vec<char>>)
    ensures
        res@.map_values(|l: Vec<char>| l@) == words_of(v@),
{
    let n = v.len();
    let mut res: Vec<Vec<char>> = Vec::new();
    let mut start: usize = 0;
    assert(v@.subrange(0, n as int) =~= v@);
    loop
        invariant
            n == v.len(),
            start <= n,
            words_of(v@) == res@.map_values(|l: Vec<char>| l@) + words_of(v@.subrange(start as int, n as int)),
        decreases n - start,
    {
        let ghost rest = v@.subrange(start as int, n as int);
        let mut lo = start;
        while lo < n && is_whitespace(v[lo])
            invariant
                start <= lo <= n == v.len(),
                forall|k: int| start <= k < lo ==> is_ws(v@[k]),
            decreases n - lo,
        {
            lo += 1;
        }
        proof {
            lemma_trim_start(rest, lo - start);
            assert(rest.subrange(lo - start, rest.len() as int) =~= v@.subrange(lo as int, n as int));
        }
        let ghost t = v@.subrange(lo as int, n as int);
        if lo == n {
            proof {
                assert(words_of(rest) == Seq::<Seq<char>>::empty());
                assert(res@.map_values(|l: Vec<char>| l@) + Seq::<Seq<char>>::empty() =~= res@.map_values(
                    |l: Vec<char>| l@,
                ));
            }
            return res;
        }
        let mut hi = lo;
        while hi < n && !is_whitespace(v[hi])
            invariant
                lo <= hi <= n == v.len(),
                forall|k: int| lo <= k < hi ==> !is_ws(v@[k]),
            decreases n - hi,
        {
            hi += 1;
        }
        proof {
            lemma_pos_ws(t, hi - lo);
            assert(t.subrange(0, hi - lo) =~= v@.subrange(lo as int, hi as int));
            assert(t.subrange(hi - lo, t.len() as int) =~= v@.subrange(hi as int, n as int));
            assert(hi > lo);
        }
        let ghost old_res = res@;
        let w = slice_of(v, lo, hi);
        res.push(w);
        proof {
            assert(res@.map_values(|l: Vec<char>| l@) =~= old_res.map_values(|l: Vec<char>| l@).push(
                v@.subrange(lo as int, hi as int),
            ));
        }
        start = hi;
    }
}

/// The UTF-8 length of `v`, or `usize::MAX` when it would not fit.
pub fn utf8_len_saturating(v: &Vec<char>) -> (res: usize)
    ensures
        res == if utf8_len(v@) <= usize::MAX {
            utf8_len(v@)
        } else {
            usize::MAX as int
        },
{
    let mut total: usize = 0;
    let mut k: usize = 0;
    while k < v.len()
        invariant
            k <= v.len(),
            total == if utf8_len(v@.take(k as int)) <= usize::MAX {
                utf8_len(v@.take(k as int))
            } else {
                usize::MAX as int
            },
            utf8_len(v@.take(k as int)) >= 0,
        decreases v.len() - k,
    {
        let c = v[k];
        let w: usize = if (c as u32) < 0x80 {
            1
        } else if (c as u32) < 0x800 {
            2
        } else if (c as u32) < 0x10000 {
            3
        } else {
            4
        };
        proof {
            assert(v@.take(k + 1).drop_last() =~= v@.take(k as int));
            assert(v@.take(k + 1).last() == c);
        }
        total = total.saturating_add(w);
        k += 1;
    }
    assert(v@.take(v.len() as int) =~= v@);
    total
}

/// The index of the last `c` in `v`, if any (as `str::rfind` with a char).
pub fn rfind_char(v: &Vec<char>, c: char) -> (res: Option<usize>)
    ensures
        match res {
            Some(i) => i as int == last_pos_of(v@, c) && i < v@.len(),
            None => last_pos_of(v@, c) == -1,
        },
{
    let mut k = v.len();
    assert(v@.take(k as int) =~= v@);
    while k > 0 && v[k - 1] != c
        invariant
            k <= v.len(),
            last_pos_of(v@, c) == last_pos_of(v@.take(k as int), c),
        decreases k,
    {
        proof {
            assert(v@.take(k as int).drop_last() =~= v@.take(k - 1));
        }
        k -= 1;
    }
    if k == 0 {
        proof {
            assert(v@.take(0).len() == 0);
        }
        None
    } else {
        proof {
            assert(v@.take(k as int).last() == c);
        }
        Some(k - 1)
    }
}

/// Appends `src[lo..hi]` to `dst`.
pub fn append_range(dst: &mut Vec<char>, src: &Vec<char>, lo: usize, hi: usize)
    requires
        lo <= hi <= src@.len(),
    ensures
        final(dst)@ == old(dst)@ + src@.subrange(lo as int, hi as int),
{
    let mut k = lo;
    while k < hi
        invariant
            lo <= k <= hi <= src@.len(),
            dst@ == old(dst)@ + src@.subrange(lo as int, k as int),
        decreases hi - k,
    {
        dst.push(src[k]);
        k += 1;
        assert(dst@ =~= old(dst)@ + src@.subrange(lo as int, k as int));
    }
}

proof fn lemma_replace_step(s: Seq<char>, from: Seq<char>, to: Seq<char>, i: int)
    requires
        from.len() > 0,
        find_seq(s, from) == Some(i),
        occurs_at(s, from, i),
    ensures
        replace_all(s, from, to) == s.take(i) + to + replace_all(s.skip(i + from.len()), from, to),
{
    reveal(replace_all);
}

proof fn lemma_replace_none(s: Seq<char>, from: Seq<char>, to: Seq<char>)
    requires
        find_seq(s, from) is None,
    ensures
        replace_all(s, from, to) == s,
{
    reveal(replace_all);
}

/// `v` with every non-overlapping occurrence of `from` replaced by `to`.
pub fn replace_chars(v: &Vec<char>, from: &Vec<char>, to: &Vec<char>) -> (res: Vec<char>)
    requires
        from@.len() > 0,
    ensures
        res@ == replace_all(v@, from@, to@),
{
    let mut res: Vec<char> = Vec::new();
    let mut rest = slice_of(v, 0, v.len());
    assert(v@.subrange(0, v@.len() as int) =~= v@);
    assert(res@ + replace_all(rest@, from@, to@) =~= replace_all(rest@, from@, to@));
    loop
        invariant
            from@.len() > 0,
            replace_all(v@, from@, to@) == res@ + replace_all(rest@, from@, to@),
        decreases rest@.len(),
    {
        match find_chars(&rest, from) {
            Some(i) => {
                let ghost r0 = rest@;
                let ghost res0 = res@;
                assert(occurs_at(r0, from@, i as int));
                let rl = rest.len();
                let fl = from.len();
                assert(i + fl <= rl);
                let hi = i + fl;
                append_range(&mut res, &rest, 0, i);
                append_range(&mut res, to, 0, to.len());
                let next = slice_of(&rest, hi, rest.len());
                proof {
                    lemma_replace_step(r0, from@, to@, i as int);
                    assert(r0.subrange(0, i as int) =~= r0.take(i as int));
                    assert(to@.subrange(0, to@.len() as int) =~= to@);
                    assert(next@ =~= r0.skip(hi as int));
                    assert(res0 + (r0.take(i as int) + to@ + replace_all(next@, from@, to@)) =~= res@
                        + replace_all(next@, from@, to@));
                }
                rest = next;
            },
            None => {
                let ghost res0 = res@;
                append_range(&mut res, &rest, 0, rest.len());
                proof {
                    assert(rest@.subrange(0, rest@.len() as int) =~= rest@);
                    lemma_replace_none(rest@, from@, to@);
                }
                return res;
            },
        }
    }
}

} // verus!
