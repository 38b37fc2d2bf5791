//! Text as sequences of characters, with specifications of what std's string functions do.

use vstd::prelude::*;

verus! {

broadcast use vstd::string::group_string_axioms;

/// The characters of `s`, in order.
pub fn chars_of(s: &str) -> (v: Vec<char>)
    ensures
        v@ == s@,
{
    let mut v: Vec<char> = Vec::new();
    for c in iter: s.chars()
        invariant
            v@ == iter.seq().take(iter.index() as int),
    {
        v.push(c);
    }
    assert(v@ =~= s@);
    v
}

/// Appends one character to a string: `String::push` from std, which the std
/// documentation describes as appending the given char to the end of the string.
#[verifier::external_body]
pub(crate) fn push_char(s: &mut String, c: char)
    ensures
        final(s)@ == old(s)@.push(c),
{
    s.push(c);
}

/// A new string holding the characters `v[from..to]`.
pub fn string_of(v: &Vec<char>, from: usize, to: usize) -> (r: String)
    requires
        from <= to <= v.len(),
    ensures
        r@ == v@.subrange(from as int, to as int),
{
    let mut r = String::new();
    let mut i: usize = from;
    while i < to
        invariant
            from <= i <= to <= v.len(),
            r@ == v@.subrange(from as int, i as int),
        decreases to - i,
    {
        push_char(&mut r, v[i]);
        assert(v@.subrange(from as int, i + 1) == v@.subrange(from as int, i as int).push(v@[i as int]));
        i = i + 1;
    }
    r
}

// ---------------------------------------------------------------------------
// Lines, as `str::lines` splits them.
// ---------------------------------------------------------------------------

/// Index of the first `'\n'` in `s`, or `s.len()` when there is none.
pub open spec fn line_end(s: Seq<char>) -> int
    decreases s.len(),
{
    if s.len() == 0 {
        0
    } else if s[0] == '\n' {
        0
    } else {
        1 + line_end(s.drop_first())
    }
}

/// `l` without one trailing `'\r'`, if it has one.
pub open spec fn strip_cr(l: Seq<char>) -> Seq<char> {
    if l.len() > 0 && l.last() == '\r' {
        l.drop_last()
    } else {
        l
    }
}

/// The lines of `s`: split after each `'\n'`, the `'\n'` (and a `'\r'` just before it)
/// dropped; a final line ending is optional, and the empty text has no lines.
pub open spec fn lines(s: Seq<char>) -> Seq<Seq<char>>
    decreases s.len(),
{
    if s.len() == 0 {
        seq![]
    } else {
        let k = line_end(s);
        if 0 <= k < s.len() {
            seq![strip_cr(s.take(k))] + lines(s.skip(k + 1))
        } else {
            seq![s]
        }
    }
}

pub proof fn lemma_line_end_bounds(s: Seq<char>)
    ensures
        0 <= line_end(s) <= s.len(),
        line_end(s) < s.len() ==> s[line_end(s)] == '\n',
        forall|j: int| 0 <= j < line_end(s) ==> s[j] != '\n',
    decreases s.len(),
{
    if s.len() > 0 && s[0] != '\n' {
        lemma_line_end_bounds(s.drop_first());
        assert forall|j: int| 0 <= j < line_end(s) implies s[j] != '\n' by {
            if j > 0 {
                assert(s[j] == s.drop_first()[j - 1]);
            }
        }
    }
}

/// The first line ending of `p + q` lies in `p` when `p` holds one.
proof fn lemma_line_end_concat(p: Seq<char>, q: Seq<char>)
    requires
        line_end(p) < p.len(),
    ensures
        line_end(p + q) == line_end(p),
    decreases p.len(),
{
    lemma_line_end_bounds(p);
    if p[0] != '\n' {
        assert((p + q).drop_first() == p.drop_first() + q);
        lemma_line_end_concat(p.drop_first(), q);
    }
}

/// `line_end(s)` is `k` when `s[k]` is the first `'\n'`.
proof fn lemma_line_end_at(s: Seq<char>, k: int)
    requires
        0 <= k <= s.len(),
        k < s.len() ==> s[k] == '\n',
        forall|j: int| 0 <= j < k ==> s[j] != '\n',
    ensures
        line_end(s) == k,
    decreases s.len(),
{
    if s.len() > 0 && k > 0 {
        lemma_line_end_at(s.drop_first(), k - 1);
    }
}

/// Lines of a text whose first part ends a line do not run across the join.
pub proof fn lemma_lines_concat(p: Seq<char>, q: Seq<char>)
    requires
        p.len() == 0 || p.last() == '\n',
    ensures
        lines(p + q) == lines(p) + lines(q),
    decreases p.len(),
{
    if p.len() == 0 {
        assert(p + q == q);
    } else {
        lemma_line_end_bounds(p);
        assert(line_end(p) < p.len()) by {
            if line_end(p) == p.len() {
                assert(p[p.len() - 1] != '\n');
            }
        }
        lemma_line_end_concat(p, q);
        let k = line_end(p);
        assert((p + q).take(k) == p.take(k));
        assert((p + q).skip(k + 1) == p.skip(k + 1) + q);
        let r = p.skip(k + 1);
        assert(r.len() == 0 || r.last() == '\n') by {
            if r.len() > 0 {
                assert(r.last() == p.last());
            }
        }
        lemma_lines_concat(r, q);
        assert(lines(p + q) == seq![strip_cr(p.take(k))] + (lines(r) + lines(q)));
    }
}

/// A piece holding exactly one `'\n'`, at its end, is one line.
pub proof fn lemma_lines_one_terminated(q: Seq<char>)
    requires
        q.len() > 0,
        q.last() == '\n',
        forall|j: int| 0 <= j < q.len() - 1 ==> q[j] != '\n',
    ensures
        lines(q) == seq![strip_cr(q.drop_last())],
{
    lemma_line_end_at(q, q.len() - 1);
    assert(q.skip(q.len() as int) == Seq::<char>::empty());
    assert(lines(Seq::<char>::empty()) == Seq::<Seq<char>>::empty());
    assert(q.take(q.len() - 1) == q.drop_last());
    assert(lines(q) == seq![strip_cr(q.take(q.len() - 1))] + lines(q.skip(q.len() as int)));
}

/// A nonempty piece with no `'\n'` is one line.
pub proof fn lemma_lines_unterminated(q: Seq<char>)
    requires
        q.len() > 0,
        forall|j: int| 0 <= j < q.len() ==> q[j] != '\n',
    ensures
        lines(q) == seq![q],
{
    lemma_line_end_at(q, q.len() as int);
}

/// A line's content: no `'\n'` in it, and no `'\r'` at its end (which a line break
/// after it would absorb).
pub open spec fn is_line(l: Seq<char>) -> bool {
    (forall|j: int| 0 <= j < l.len() ==> l[j] != '\n') && (l.len() == 0 || l.last() != '\r')
}

/// `ls`, each followed by a line break.
pub open spec fn joined_lines(ls: Seq<Seq<char>>) -> Seq<char>
    decreases ls.len(),
{
    if ls.len() == 0 {
        seq![]
    } else {
        joined_lines(ls.drop_last()) + ls.last() + seq!['\n']
    }
}

/// Lines joined with line breaks split back into the same lines.
pub proof fn lemma_joined_lines(ls: Seq<Seq<char>>)
    requires
        forall|i: int| 0 <= i < ls.len() ==> is_line(#[trigger] ls[i]),
    ensures
        lines(joined_lines(ls)) == ls,
    decreases ls.len(),
{
    if ls.len() > 0 {
        let rest = ls.drop_last();
        assert forall|i: int| 0 <= i < rest.len() implies is_line(#[trigger] rest[i]) by {
            assert(rest[i] == ls[i]);
        }
        lemma_joined_lines(rest);
        let l = ls[ls.len() - 1];
        assert(is_line(l));
        let q = l + seq!['\n'];
        assert forall|j: int| 0 <= j < q.len() - 1 implies q[j] != '\n' by {
            assert(q[j] == l[j]);
        }
        lemma_lines_one_terminated(q);
        assert(q.drop_last() == l);
        assert(strip_cr(l) == l);
        let prev = joined_lines(rest);
        lemma_lines_concat(prev, q);
        assert(joined_lines(ls) == prev + q);
        assert(rest + seq![l] == ls);
    }
}

/// The lines of `v`, as half-open index ranges `[start, end)` into `v`.
pub fn line_spans(v: &Vec<char>) -> (spans: Vec<(usize, usize)>)
    ensures
        spans.len() == lines(v@).len(),
        forall|i: int|
            0 <= i < spans.len() ==> {
                &&& (#[trigger] spans[i]).0 <= spans[i].1 <= v.len()
                &&& v@.subrange(spans[i].0 as int, spans[i].1 as int) == lines(v@)[i]
            },
{
    let mut spans: Vec<(usize, usize)> = Vec::new();
    let mut start: usize = 0;
    let mut i: usize = 0;
    let n = v.len();
    while i < n
        invariant
            n == v.len(),
            start <= i <= n,
            start == 0 || v@[start - 1] == '\n',
            forall|j: int| start <= j < i ==> v@[j] != '\n',
            spans.len() == lines(v@.take(start as int)).len(),
            forall|k: int|
                0 <= k < spans.len() ==> {
                    &&& (#[trigger] spans[k]).0 <= spans[k].1 <= start
                    &&& v@.subrange(spans[k].0 as int, spans[k].1 as int) == lines(
                        v@.take(start as int),
                    )[k]
                },
        decreases n - i,
    {
        if v[i] == '\n' {
            let end: usize = if i > start && v[i - 1] == '\r' {
                i - 1
            } else {
                i
            };
            let ghost p = v@.take(start as int);
            let ghost q = v@.subrange(start as int, i + 1);
            proof {
                assert(v@.take(i + 1) == p + q);
                lemma_lines_one_terminated(q);
                lemma_lines_concat(p, q);
                assert(q.drop_last() == v@.subrange(start as int, i as int));
                assert(strip_cr(q.drop_last()) == v@.subrange(start as int, end as int));
            }
            spans.push((start, end));
            start = i + 1;
        }
        i = i + 1;
    }
    if start < n {
        let ghost p = v@.take(start as int);
        let ghost q = v@.subrange(start as int, n as int);
        proof {
            assert(v@ == p + q);
            lemma_lines_unterminated(q);
            lemma_lines_concat(p, q);
        }
        spans.push((start, n));
    } else {
        assert(v@.take(start as int) == v@);
    }
    spans
}


// ---------------------------------------------------------------------------
// Whitespace, trimming and words, as `char::is_whitespace`, `str::trim` and
// `str::split_whitespace` see them.
// ---------------------------------------------------------------------------

/// The Unicode `White_Space` property.
pub open spec fn is_whitespace(c: char) -> bool {
    ||| '\u{9}' <= c <= '\u{d}'
    ||| c == ' '
    ||| c == '\u{85}'
    ||| c == '\u{a0}'
    ||| c == '\u{1680}'
    ||| '\u{2000}' <= c <= '\u{200a}'
    ||| c == '\u{2028}'
    ||| c == '\u{2029}'
    ||| c == '\u{202f}'
    ||| c == '\u{205f}'
    ||| c == '\u{3000}'
}

pub fn is_whitespace_char(c: char) -> (b: bool)
    ensures
        b == is_whitespace(c),
{
    ('\u{9}' <= c && c <= '\u{d}') || c == ' ' || c == '\u{85}' || c == '\u{a0}' || c == '\u{1680}'
        || ('\u{2000}' <= c && c <= '\u{200a}') || c == '\u{2028}' || c == '\u{2029}' || c
        == '\u{202f}' || c == '\u{205f}' || c == '\u{3000}'
}

/// `s` without its leading whitespace.
pub open spec fn trim_start(s: Seq<char>) -> Seq<char>
    decreases s.len(),
{
    if s.len() > 0 && is_whitespace(s[0]) {
        trim_start(s.drop_first())
    } else {
        s
    }
}

/// `s` without its trailing whitespace.
pub open spec fn trim_end(s: Seq<char>) -> Seq<char>
    decreases s.len(),
{
    if s.len() > 0 && is_whitespace(s.last()) {
        trim_end(s.drop_last())
    } else {
        s
    }
}

/// `s` without leading and trailing whitespace.
pub open spec fn trim(s: Seq<char>) -> Seq<char> {
    trim_end(trim_start(s))
}

pub proof fn lemma_trim_start_at(s: Seq<char>, k: int)
    requires
        0 <= k <= s.len(),
        forall|j: int| 0 <= j < k ==> is_whitespace(#[trigger] s[j]),
        k < s.len() ==> !is_whitespace(s[k]),
    ensures
        trim_start(s) == s.skip(k),
    decreases k,
{
    if k == 0 {
        assert(s.skip(0) == s);
    } else {
        assert forall|j: int| 0 <= j < k - 1 implies is_whitespace(#[trigger] s.drop_first()[j]) by {
            assert(s.drop_first()[j] == s[j + 1]);
        }
        lemma_trim_start_at(s.drop_first(), k - 1);
        assert(s.drop_first().skip(k - 1) == s.skip(k));
    }
}

proof fn lemma_trim_end_at(s: Seq<char>, k: int)
    requires
        0 <= k <= s.len(),
        forall|j: int| k <= j < s.len() ==> is_whitespace(#[trigger] s[j]),
        k > 0 ==> !is_whitespace(s[k - 1]),
    ensures
        trim_end(s) == s.take(k),
    decreases s.len() - k,
{
    if k == s.len() {
        assert(s.take(k) == s);
    } else {
        lemma_trim_end_at(s.drop_last(), k);
        assert(s.drop_last().take(k) == s.take(k));
    }
}

/// The bounds of `trim(v[from..to])` within `v`.
pub fn trim_span(v: &Vec<char>, from: usize, to: usize) -> (r: (usize, usize))
    requires
        from <= to <= v.len(),
    ensures
        from <= r.0 <= r.1 <= to,
        v@.subrange(r.0 as int, r.1 as int) == trim(v@.subrange(from as int, to as int)),
{
    let mut a: usize = from;
    while a < to && is_whitespace_char(v[a])
        invariant
            from <= a <= to <= v.len(),
            forall|j: int| from <= j < a ==> is_whitespace(#[trigger] v@[j]),
        decreases to - a,
    {
        a = a + 1;
    }
    let ghost s = v@.subrange(from as int, to as int);
    proof {
        lemma_trim_start_at(s, a - from);
        assert(s.skip(a - from) == v@.subrange(a as int, to as int));
    }
    let mut b: usize = to;
    while b > a && is_whitespace_char(v[b - 1])
        invariant
            from <= a <= b <= to <= v.len(),
            forall|j: int| b <= j < to ==> is_whitespace(#[trigger] v@[j]),
        decreases b - a,
    {
        b = b - 1;
    }
    let ghost t = v@.subrange(a as int, to as int);
    proof {
        lemma_trim_end_at(t, b - a);
        assert(t.take(b - a) == v@.subrange(a as int, b as int));
    }
    (a, b)
}

/// Index of the first whitespace character in `s`, or `s.len()`.
pub open spec fn word_end(s: Seq<char>) -> int
    decreases s.len(),
{
    if s.len() == 0 {
        0
    } else if is_whitespace(s[0]) {
        0
    } else {
        1 + word_end(s.drop_first())
    }
}

/// The maximal runs of non-whitespace characters of `s`, in order.
pub open spec fn words(s: Seq<char>) -> Seq<Seq<char>>
    decreases s.len(),
{
    if s.len() == 0 {
        seq![]
    } else if is_whitespace(s[0]) {
        words(s.drop_first())
    } else {
        let k = word_end(s);
        if 1 <= k <= s.len() {
            seq![s.take(k)] + words(s.skip(k))
        } else {
            seq![s]
        }
    }
}

pub proof fn lemma_word_end_at(s: Seq<char>, k: int)
    requires
        0 <= k <= s.len(),
        k < s.len() ==> is_whitespace(s[k]),
        forall|j: int| 0 <= j < k ==> !is_whitespace(#[trigger] s[j]),
    ensures
        word_end(s) == k,
    decreases s.len(),
{
    if s.len() > 0 && k > 0 {
        assert forall|j: int| 0 <= j < k - 1 implies !is_whitespace(#[trigger] s.drop_first()[j]) by {
            assert(s.drop_first()[j] == s[j + 1]);
        }
        lemma_word_end_at(s.drop_first(), k - 1);
    }
}

/// The words of `v[from..to]`, as index ranges into `v`.
pub fn word_spans(v: &Vec<char>, from: usize, to: usize) -> (spans: Vec<(usize, usize)>)
    requires
        from <= to <= v.len(),
    ensures
        spans.len() == words(v@.subrange(from as int, to as int)).len(),
        forall|i: int|
            0 <= i < spans.len() ==> {
                &&& from <= (#[trigger] spans[i]).0 <= spans[i].1 <= to
                &&& v@.subrange(spans[i].0 as int, spans[i].1 as int) == words(
                    v@.subrange(from as int, to as int),
                )[i]
            },
{
    let ghost all = words(v@.subrange(from as int, to as int));
    let mut spans: Vec<(usize, usize)> = Vec::new();
    let ghost mut done: Seq<Seq<char>> = seq![];
    let mut i: usize = from;
    while i < to
        invariant
            from <= i <= to <= v.len(),
            all == words(v@.subrange(from as int, to as int)),
            all == done + words(v@.subrange(i as int, to as int)),
            spans.len() == done.len(),
            forall|k: int|
                0 <= k < spans.len() ==> {
                    &&& from <= (#[trigger] spans[k]).0 <= spans[k].1 <= i
                    &&& v@.subrange(spans[k].0 as int, spans[k].1 as int) == done[k]
                },
        decreases to - i,
    {
        let ghost rest = v@.subrange(i as int, to as int);
        if is_whitespace_char(v[i]) {
            assert(rest.drop_first() == v@.subrange(i + 1, to as int));
            i = i + 1;
        } else {
            let mut j: usize = i + 1;
            while j < to && !is_whitespace_char(v[j])
                invariant
                    i < j <= to <= v.len(),
                    !is_whitespace(v@[i as int]),
                    forall|m: int| i <= m < j ==> !is_whitespace(#[trigger] v@[m]),
                decreases to - j,
            {
                j = j + 1;
            }
            proof {
                assert forall|m: int| 0 <= m < j - i implies !is_whitespace(#[trigger] rest[m]) by {
                    assert(rest[m] == v@[i + m]);
                }
                lemma_word_end_at(rest, j - i);
                assert(rest.take(j - i) == v@.subrange(i as int, j as int));
                assert(rest.skip(j - i) == v@.subrange(j as int, to as int));
                done = done.push(v@.subrange(i as int, j as int));
            }
            spans.push((i, j));
            i = j;
        }
    }
    proof {
        assert(v@.subrange(to as int, to as int) == Seq::<char>::empty());
        assert(words(Seq::<char>::empty()) == Seq::<Seq<char>>::empty());
        assert(all == done);
    }
    spans
}


// ---------------------------------------------------------------------------
// Prefixes and substrings.
// ---------------------------------------------------------------------------

/// `s` begins with `p`.
pub open spec fn starts_with(s: Seq<char>, p: Seq<char>) -> bool {
    p.len() <= s.len() && s.take(p.len() as int) == p
}

/// `p` occurs somewhere in `s`.
pub open spec fn contains(s: Seq<char>, p: Seq<char>) -> bool {
    exists|i: int| 0 <= i && i + p.len() <= s.len() && #[trigger] s.subrange(i, i + p.len()) == p
}

/// Whether `v[at..]` begins with `p`, `p` fitting before `to`.
pub fn matches_at(v: &Vec<char>, at: usize, to: usize, p: &Vec<char>) -> (b: bool)
    requires
        at <= to <= v.len(),
    ensures
        b == (at + p.len() <= to && v@.subrange(at as int, at + p.len()) == p@),
{
    if p.len() > to - at {
        return false;
    }
    let mut k: usize = 0;
    while k < p.len()
        invariant
            at + p.len() <= to <= v.len(),
            k <= p.len(),
            forall|m: int| 0 <= m < k ==> v@[at + m] == p@[m],
        decreases p.len() - k,
    {
        if v[at + k] != p[k] {
            assert(v@.subrange(at as int, at + p.len())[k as int] != p@[k as int]);
            return false;
        }
        k = k + 1;
    }
    assert(v@.subrange(at as int, at + p.len()) =~= p@);
    true
}

/// Whether `v[from..to]` begins with `p`.
pub fn has_prefix(v: &Vec<char>, from: usize, to: usize, p: &Vec<char>) -> (b: bool)
    requires
        from <= to <= v.len(),
    ensures
        b == starts_with(v@.subrange(from as int, to as int), p@),
{
    let b = matches_at(v, from, to, p);
    assert(b ==> v@.subrange(from as int, to as int).take(p.len() as int) == v@.subrange(
        from as int,
        from + p.len(),
    ));
    assert(p.len() <= to - from ==> v@.subrange(from as int, to as int).take(p.len() as int)
        == v@.subrange(from as int, from + p.len()));
    b
}

/// Whether `p` occurs in `v[from..to]`.
pub fn has_substring(v: &Vec<char>, from: usize, to: usize, p: &Vec<char>) -> (b: bool)
    requires
        from <= to <= v.len(),
    ensures
        b == contains(v@.subrange(from as int, to as int), p@),
{
    let ghost s = v@.subrange(from as int, to as int);
    if p.len() == 0 {
        assert(s.subrange(0, 0 + p.len()) == p@);
        return true;
    }
    if p.len() > to - from {
        return false;
    }
    let last: usize = to - p.len();
    let mut at: usize = from;
    while at <= last
        invariant
            from <= at <= last + 1,
            last + p.len() == to,
            to <= v.len(),
            p.len() > 0,
            s == v@.subrange(from as int, to as int),
            forall|i: int|
                0 <= i < at - from ==> #[trigger] s.subrange(i, i + p.len()) != p@,
        decreases last + 1 - at,
    {
        assert(s.subrange(at - from, at - from + p.len()) == v@.subrange(
            at as int,
            at + p.len(),
        ));
        if matches_at(v, at, to, p) {
            return true;
        }
        at = at + 1;
    }
    false
}

/// `s` without the trailing run of `c`.
pub open spec fn trim_end_char(s: Seq<char>, c: char) -> Seq<char>
    decreases s.len(),
{
    if s.len() > 0 && s.last() == c {
        trim_end_char(s.drop_last(), c)
    } else {
        s
    }
}

// ---------------------------------------------------------------------------
// Unsigned decimal numbers, as `u32::from_str` reads them and `Display` writes them.
// ---------------------------------------------------------------------------

pub open spec fn is_digit(c: char) -> bool {
    '0' <= c <= '9'
}

pub open spec fn digit_value(c: char) -> nat {
    (c as int - '0' as int) as nat
}

/// The value of a run of decimal digits, most significant first.
pub open spec fn digits_value(s: Seq<char>) -> nat
    decreases s.len(),
{
    if s.len() == 0 {
        0
    } else {
        digits_value(s.drop_last()) * 10 + digit_value(s.last())
    }
}

pub open spec fn all_digits(s: Seq<char>) -> bool {
    forall|i: int| 0 <= i < s.len() ==> is_digit(#[trigger] s[i])
}

/// `s` without one leading `'+'`.
pub open spec fn unsigned_digits(s: Seq<char>) -> Seq<char> {
    if s.len() > 0 && s[0] == '+' {
        s.drop_first()
    } else {
        s
    }
}

/// `u32::from_str`: an optional `'+'`, then one or more ASCII digits, the value
/// fitting in 32 bits; anything else is refused.
pub open spec fn parse_u32(s: Seq<char>) -> Option<u32> {
    let d = unsigned_digits(s);
    if d.len() > 0 && all_digits(d) && digits_value(d) <= u32::MAX {
        Some(digits_value(d) as u32)
    } else {
        None
    }
}

/// `s.parse::<u32>().unwrap_or(0)`.
pub open spec fn parse_u32_or_zero(s: Seq<char>) -> u32 {
    match parse_u32(s) {
        Some(n) => n,
        None => 0,
    }
}

proof fn lemma_digits_value_grows(s: Seq<char>, k: int)
    requires
        0 <= k <= s.len(),
        all_digits(s),
    ensures
        digits_value(s.take(k)) <= digits_value(s),
    decreases s.len() - k,
{
    if k < s.len() {
        lemma_digits_value_grows(s.drop_last(), k);
        assert(s.drop_last().take(k) == s.take(k));
        assert(s.take(s.len() as int) == s);
    } else {
        assert(s.take(k) == s);
    }
}

/// The value of `v[from..to]` read as a `u32`, or `None` where `u32::from_str` refuses it.
pub fn parse_u32_span(v: &Vec<char>, from: usize, to: usize) -> (r: Option<u32>)
    requires
        from <= to <= v.len(),
    ensures
        r == parse_u32(v@.subrange(from as int, to as int)),
{
    let ghost s = v@.subrange(from as int, to as int);
    let start: usize = if from < to && v[from] == '+' {
        from + 1
    } else {
        from
    };
    let ghost d = v@.subrange(start as int, to as int);
    assert(d == unsigned_digits(s));
    if start == to {
        return None;
    }
    let mut acc: u64 = 0;
    let mut i: usize = start;
    while i < to
        invariant
            start <= i <= to <= v.len(),
            d == v@.subrange(start as int, to as int),
            d == unsigned_digits(v@.subrange(from as int, to as int)),
            all_digits(d.take(i - start)),
            acc == digits_value(d.take(i - start)),
            acc <= u32::MAX,
        decreases to - i,
    {
        let c = v[i];
        if c < '0' || c > '9' {
            assert(!all_digits(d)) by {
                assert(d[i - start] == c);
                assert(!is_digit(d[i - start]));
            }
            return None;
        }
        let ghost pre = d.take(i - start);
        assert(d.take(i - start + 1).drop_last() == pre);
        assert(d.take(i - start + 1).last() == c);
        acc = acc * 10 + (c as u64 - '0' as u64);
        assert(acc == digits_value(d.take(i - start + 1)));
        assert(all_digits(d.take(i - start + 1))) by {
            assert forall|m: int| 0 <= m < i - start + 1 implies is_digit(
                #[trigger] d.take(i - start + 1)[m],
            ) by {
                if m < i - start {
                    assert(d.take(i - start + 1)[m] == pre[m]);
                }
            }
        }
        if acc > 0xffff_ffff {
            proof {
                if all_digits(d) {
                    lemma_digits_value_grows(d, i - start + 1);
                }
            }
            return None;
        }
        i = i + 1;
    }
    assert(d.take(to - start) == d);
    Some(acc as u32)
}

/// The digit for `d < 10`.
pub open spec fn digit_char(d: nat) -> char {
    ('0' as int + d) as char
}

/// The decimal representation of `n`, without leading zeros.
pub open spec fn decimal(n: nat) -> Seq<char>
    decreases n,
{
    if n < 10 {
        seq![digit_char(n)]
    } else {
        decimal(n / 10).push(digit_char(n % 10))
    }
}

/// Appends the decimal representation of `n` to `s`.
pub fn push_decimal(s: &mut String, n: u64)
    ensures
        final(s)@ == old(s)@ + decimal(n as nat),
    decreases n,
{
    if n >= 10 {
        push_decimal(s, n / 10);
    }
    let d: u8 = (n % 10) as u8;
    let c: char = (48u8 + d) as char;
    assert(c == digit_char((n % 10) as nat));
    push_char(s, c);
}

// ---------------------------------------------------------------------------
// Padding, as `format!("{:<width$}", s)` does it.
// ---------------------------------------------------------------------------

/// `s` followed by spaces up to `width` characters; `s` itself when it is not shorter.
pub open spec fn pad_right(s: Seq<char>, width: nat) -> Seq<char> {
    if s.len() >= width {
        s
    } else {
        s + Seq::new((width - s.len()) as nat, |_i: int| ' ')
    }
}

/// Appends `t` padded to `width` characters.
pub fn push_padded(s: &mut String, t: &str, width: usize)
    ensures
        final(s)@ == old(s)@ + pad_right(t@, width as nat),
{
    let len = t.unicode_len();
    s.append(t);
    if len < width {
        let mut k: usize = len;
        while k < width
            invariant
                len == t@.len(),
                len <= k <= width,
                s@ == old(s)@ + t@ + Seq::new((k - len) as nat, |_i: int| ' '),
            decreases width - k,
        {
            push_char(s, ' ');
            assert(Seq::new((k + 1 - len) as nat, |_i: int| ' ') == Seq::new(
                (k - len) as nat,
                |_i: int| ' ',
            ).push(' '));
            k = k + 1;
        }
        assert(old(s)@ + t@ + Seq::new((width - len) as nat, |_i: int| ' ') == old(s)@ + (t@
            + Seq::new((width - len) as nat, |_i: int| ' ')));
    } else {
        assert(old(s)@ + t@ == old(s)@ + pad_right(t@, width as nat));
    }
}


/// `s` without leading and trailing whitespace, as a new string.
pub fn trimmed(s: &str) -> (r: String)
    ensures
        r@ == trim(s@),
{
    let v = chars_of(s);
    let (a, b) = trim_span(&v, 0, v.len());
    assert(v@.subrange(0, v.len() as int) == v@);
    string_of(&v, a, b)
}

/// `s` followed by `t`, as a new string.
pub fn concatenated(s: &str, t: &str) -> (r: String)
    ensures
        r@ == s@ + t@,
{
    let mut r = String::from_str(s);
    r.append(t);
    r
}


/// The decimal representation of `n` reads back as `n`: it is a nonempty run of digits,
/// without a sign, whose value is `n`.
pub proof fn lemma_decimal_reads_back(n: nat)
    ensures
        decimal(n).len() > 0,
        all_digits(decimal(n)),
        digits_value(decimal(n)) == n,
        n <= u32::MAX ==> parse_u32(decimal(n)) == Some(n as u32),
    decreases n,
{
    if n >= 10 {
        lemma_decimal_reads_back(n / 10);
        let d = decimal(n / 10);
        assert(decimal(n).drop_last() == d);
        assert forall|i: int| 0 <= i < decimal(n).len() implies is_digit(#[trigger] decimal(n)[i]) by {
            if i < d.len() {
                assert(decimal(n)[i] == d[i]);
            }
        }
        assert((n / 10) * 10 + n % 10 == n) by (nonlinear_arith);
        assert(decimal(n).last() == digit_char(n % 10));
        assert(digit_value(digit_char(n % 10)) == n % 10);
        assert(digits_value(decimal(n)) == digits_value(d) * 10 + digit_value(digit_char(n % 10)));
    } else {
        assert(decimal(n).drop_last() == Seq::<char>::empty());
        assert(digit_value(digit_char(n)) == n);
        assert(digits_value(decimal(n)) == digits_value(Seq::<char>::empty()) * 10 + digit_value(
            digit_char(n),
        ));
    }
    assert(is_digit(decimal(n)[0]));
    assert(unsigned_digits(decimal(n)) == decimal(n));
}

/// Two runs of non-whitespace characters with one space between them are two words.
pub proof fn lemma_two_words(w1: Seq<char>, w2: Seq<char>)
    requires
        w1.len() > 0,
        w2.len() > 0,
        forall|i: int| 0 <= i < w1.len() ==> !is_whitespace(#[trigger] w1[i]),
        forall|i: int| 0 <= i < w2.len() ==> !is_whitespace(#[trigger] w2[i]),
    ensures
        words(w1 + seq![' '] + w2) == seq![w1, w2],
{
    let s = w1 + seq![' '] + w2;
    lemma_word_end_at(s, w1.len() as int);
    assert(s.take(w1.len() as int) == w1);
    let r = s.skip(w1.len() as int);
    assert(r == seq![' '] + w2);
    assert(r.drop_first() == w2);
    lemma_word_end_at(w2, w2.len() as int);
    assert(w2.take(w2.len() as int) == w2);
    assert(w2.skip(w2.len() as int) == Seq::<char>::empty());
    assert(words(Seq::<char>::empty()) == Seq::<Seq<char>>::empty());
    assert(words(w2) == seq![w2]);
    assert(words(r) == words(w2));
    assert(words(s) == seq![w1] + words(r));
}

} // verus!
