//! Character-level text model: the meaning of splitting, trimming and line
//! breaking on `Seq<char>`, and executable scanners over a `Vec<char>` that
//! are proved to agree with it.
use vstd::prelude::*;

verus! {

/// What separates pieces of text: one given character, or any character
/// with the Unicode `White_Space` property.
#[derive(Clone, Copy, Debug, PartialEq, Eq)]
pub enum Delim {
    Char(char),
    Whitespace,
}

/// The Unicode `White_Space` property, which `char::is_whitespace` reports.
pub open spec fn is_space(c: char) -> bool {
    ||| ('\u{9}' <= c && c <= '\u{d}')
    ||| c == ' '
    ||| c == '\u{85}'
    ||| c == '\u{a0}'
    ||| c == '\u{1680}'
    ||| ('\u{2000}' <= c && c <= '\u{200a}')
    ||| c == '\u{2028}'
    ||| c == '\u{2029}'
    ||| c == '\u{202f}'
    ||| c == '\u{205f}'
    ||| c == '\u{3000}'
}

pub open spec fn is_delim(d: Delim, c: char) -> bool {
    match d {
        Delim::Char(x) => c == x,
        Delim::Whitespace => is_space(c),
    }
}

/// `s` with every leading character matching `d` removed.
pub open spec fn strip_start(s: Seq<char>, d: Delim) -> Seq<char>
    decreases s.len(),
{
    if s.len() > 0 && is_delim(d, s[0]) {
        strip_start(s.drop_first(), d)
    } else {
        s
    }
}

/// `s` with every trailing character matching `d` removed.
pub open spec fn strip_end(s: Seq<char>, d: Delim) -> Seq<char>
    decreases s.len(),
{
    if s.len() > 0 && is_delim(d, s.last()) {
        strip_end(s.drop_last(), d)
    } else {
        s
    }
}

/// `str::trim_matches` with a single character, or `str::trim` for whitespace.
pub open spec fn trim_delim(s: Seq<char>, d: Delim) -> Seq<char> {
    strip_end(strip_start(s, d), d)
}

/// `str::trim`.
pub open spec fn trim(s: Seq<char>) -> Seq<char> {
    trim_delim(s, Delim::Whitespace)
}

/// Index of the last character matching `d`, or -1.
pub open spec fn last_delim(s: Seq<char>, d: Delim) -> int
    decreases s.len(),
{
    if s.len() == 0 {
        -1
    } else if is_delim(d, s.last()) {
        s.len() - 1
    } else {
        last_delim(s.drop_last(), d)
    }
}

/// Index of the first character matching `d`, or -1.
pub open spec fn first_delim(s: Seq<char>, d: Delim) -> int
    decreases s.len(),
{
    if s.len() == 0 {
        -1
    } else if is_delim(d, s[0]) {
        0
    } else {
        let r = first_delim(s.drop_first(), d);
        if r < 0 {
            -1
        } else {
            r + 1
        }
    }
}

/// The pieces that `str::split` yields: always at least one, possibly empty.
pub open spec fn split_by(s: Seq<char>, d: Delim) -> Seq<Seq<char>>
    decreases s.len(),
{
    let k = last_delim(s, d);
    if 0 <= k && k < s.len() {
        split_by(s.take(k), d).push(s.skip(k + 1))
    } else {
        seq![s]
    }
}

/// `str::split_once` on a character.
pub open spec fn split_once(s: Seq<char>, c: char) -> Option<(Seq<char>, Seq<char>)> {
    let i = first_delim(s, Delim::Char(c));
    if 0 <= i && i < s.len() {
        Some((s.take(i), s.skip(i + 1)))
    } else {
        None
    }
}

/// `str::split_whitespace`: the non-empty runs between whitespace.
pub open spec fn fields(s: Seq<char>) -> Seq<Seq<char>> {
    split_by(s, Delim::Whitespace).filter(nonempty_piece())
}

pub open spec fn nonempty_piece() -> spec_fn(Seq<char>) -> bool {
    |p: Seq<char>| p.len() > 0
}

pub open spec fn strip_cr(x: Seq<char>) -> Seq<char> {
    if x.len() > 0 && x.last() == '\r' {
        x.drop_last()
    } else {
        x
    }
}

/// `str::lines`: split at `\n`, drop a `\r` just before a `\n`, and yield no
/// final empty line after a trailing `\n`.
pub open spec fn lines(s: Seq<char>) -> Seq<Seq<char>> {
    let p = split_by(s, Delim::Char('\n'));
    let n: int = if p.last().len() == 0 { p.len() - 1 } else { p.len() as int };
    Seq::new(n as nat, |i: int| if i < p.len() - 1 { strip_cr(p[i]) } else { p[i] })
}

/// `pat` occurs in `s` starting at index `i`.
pub open spec fn occurs_at(s: Seq<char>, pat: Seq<char>, i: int) -> bool {
    0 <= i && i + pat.len() <= s.len() && s.subrange(i, i + pat.len()) == pat
}

/// `str::contains` with a string pattern.
pub open spec fn contains_seq(s: Seq<char>, pat: Seq<char>) -> bool {
    exists|i: int| occurs_at(s, pat, i)
}

/// Index of the leftmost occurrence of `pat` in `s`, or -1.
pub open spec fn first_occurrence(s: Seq<char>, pat: Seq<char>) -> int
    decreases s.len(),
{
    if s.len() < pat.len() {
        -1
    } else if s.take(pat.len() as int) == pat {
        0
    } else if s.len() == 0 {
        -1
    } else {
        let r = first_occurrence(s.drop_first(), pat);
        if r < 0 {
            -1
        } else {
            r + 1
        }
    }
}

/// The last piece that `str::split` with a non-empty string pattern yields:
/// the matches are found from the left and do not overlap.
pub open spec fn last_split_piece(s: Seq<char>, pat: Seq<char>) -> Seq<char>
    decreases s.len(),
{
    let i = first_occurrence(s, pat);
    if pat.len() > 0 && 0 <= i && i + pat.len() <= s.len() {
        last_split_piece(s.skip(i + pat.len()), pat)
    } else {
        s
    }
}

/// Number of bytes of the UTF-8 encoding of `c` (`char::len_utf8`).
pub open spec fn utf8_width(c: char) -> nat {
    if '\u{80}' > c {
        1
    } else if '\u{800}' > c {
        2
    } else if '\u{10000}' > c {
        3
    } else {
        4
    }
}

/// Number of bytes of the UTF-8 encoding of `s` (`str::len`).
pub open spec fn utf8_len(s: Seq<char>) -> nat
    decreases s.len(),
{
    if s.len() == 0 {
        0
    } else {
        utf8_len(s.drop_last()) + utf8_width(s.last())
    }
}

// ---------------------------------------------------------------------------
// Lemmas
// ---------------------------------------------------------------------------

pub proof fn lemma_strip_start_skip(t: Seq<char>, d: Delim, j: int)
    requires
        0 <= j <= t.len(),
        forall|k: int| 0 <= k < j ==> is_delim(d, #[trigger] t[k]),
        j == t.len() || !is_delim(d, t[j]),
    ensures
        strip_start(t, d) == t.skip(j),
    decreases j,
{
    if j == 0 {
        assert(t.skip(0) =~= t);
    } else {
        assert(is_delim(d, t[0]));
        let u = t.drop_first();
        assert forall|k: int| 0 <= k < j - 1 implies is_delim(d, #[trigger] u[k]) by {
            assert(u[k] == t[k + 1]);
        }
        if j - 1 < u.len() {
            assert(u[j - 1] == t[j]);
        }
        lemma_strip_start_skip(u, d, j - 1);
        assert(u.skip(j - 1) =~= t.skip(j));
    }
}

pub proof fn lemma_strip_end_take(t: Seq<char>, d: Delim, j: int)
    requires
        0 <= j <= t.len(),
        forall|k: int| j <= k < t.len() ==> is_delim(d, #[trigger] t[k]),
        j == 0 || !is_delim(d, t[j - 1]),
    ensures
        strip_end(t, d) == t.take(j),
    decreases t.len() - j,
{
    if j == t.len() {
        assert(t.take(j) =~= t);
        if t.len() > 0 {
            assert(t.last() == t[j - 1]);
        }
    } else {
        assert(is_delim(d, t[t.len() - 1]));
        let u = t.drop_last();
        assert forall|k: int| j <= k < u.len() implies is_delim(d, #[trigger] u[k]) by {
            assert(u[k] == t[k]);
        }
        if j > 0 {
            assert(u[j - 1] == t[j - 1]);
        }
        lemma_strip_end_take(u, d, j);
        assert(u.take(j) =~= t.take(j));
    }
}

pub proof fn lemma_last_delim(t: Seq<char>, d: Delim, m: int)
    requires
        -1 <= m < t.len(),
        m >= 0 ==> is_delim(d, t[m]),
        forall|k: int| m < k < t.len() ==> !is_delim(d, #[trigger] t[k]),
    ensures
        last_delim(t, d) == m,
    decreases t.len(),
{
    if t.len() == 0 {
    } else if m == t.len() - 1 {
    } else {
        assert(!is_delim(d, t[t.len() - 1]));
        let u = t.drop_last();
        assert forall|k: int| m < k < u.len() implies !is_delim(d, #[trigger] u[k]) by {
            assert(u[k] == t[k]);
        }
        if m >= 0 {
            assert(u[m] == t[m]);
        }
        lemma_last_delim(u, d, m);
    }
}

pub proof fn lemma_first_delim(t: Seq<char>, d: Delim, m: int)
    requires
        0 <= m <= t.len(),
        m < t.len() ==> is_delim(d, t[m]),
        forall|k: int| 0 <= k < m ==> !is_delim(d, #[trigger] t[k]),
    ensures
        first_delim(t, d) == (if m < t.len() { m } else { -1 }),
    decreases m,
{
    if t.len() == 0 {
    } else if m == 0 {
    } else {
        assert(!is_delim(d, t[0]));
        let u = t.drop_first();
        assert forall|k: int| 0 <= k < m - 1 implies !is_delim(d, #[trigger] u[k]) by {
            assert(u[k] == t[k + 1]);
        }
        if m - 1 < u.len() {
            assert(u[m - 1] == t[m]);
        }
        lemma_first_delim(u, d, m - 1);
    }
}

/// The pieces of `t` when its last separator stands just before index `j`
/// (or when it has none and `j` is 0).
pub proof fn lemma_split_by_tail(t: Seq<char>, d: Delim, j: int)
    requires
        0 <= j <= t.len(),
        j > 0 ==> is_delim(d, t[j - 1]),
        forall|k: int| j <= k < t.len() ==> !is_delim(d, #[trigger] t[k]),
    ensures
        split_by(t, d) == (if j == 0 { Seq::<Seq<char>>::empty() } else { split_by(
            t.take(j - 1),
            d,
        ) }).push(t.skip(j)),
{
    lemma_last_delim(t, d, j - 1);
    if j == 0 {
        assert(t.skip(0) =~= t);
        assert(seq![t] =~= Seq::<Seq<char>>::empty().push(t));
    }
}

pub proof fn lemma_split_by_nonempty(s: Seq<char>, d: Delim)
    ensures
        split_by(s, d).len() >= 1,
    decreases s.len(),
{
    let k = last_delim(s, d);
    if 0 <= k && k < s.len() {
        lemma_split_by_nonempty(s.take(k), d);
    }
}

pub proof fn lemma_first_occurrence(t: Seq<char>, pat: Seq<char>, a: int, m: int)
    requires
        pat.len() > 0,
        0 <= a <= t.len(),
        a <= m,
        forall|k: int| a <= k < m ==> !occurs_at(t, pat, k),
        m + pat.len() <= t.len() ==> occurs_at(t, pat, m),
        m + pat.len() > t.len() ==> m == t.len(),
    ensures
        first_occurrence(t.skip(a), pat) == (if m + pat.len() <= t.len() { m - a } else { -1 }),
    decreases t.len() - a,
{
    let u = t.skip(a);
    if u.len() < pat.len() {
        if m + pat.len() <= t.len() {
            assert(false);
        }
    } else if u.take(pat.len() as int) == pat {
        assert(occurs_at(t, pat, a)) by {
            assert(t.subrange(a, a + pat.len()) =~= u.take(pat.len() as int));
        }
        if a < m {
            assert(!occurs_at(t, pat, a));
        }
    } else {
        assert(u.len() > 0);
        if a == m && m + pat.len() <= t.len() {
            assert(t.subrange(a, a + pat.len()) =~= u.take(pat.len() as int));
        }
        assert(a < m || m + pat.len() > t.len());
        if a == m {
            assert(u.len() < pat.len());
        }
        assert(u.drop_first() =~= t.skip(a + 1));
        lemma_first_occurrence(t, pat, a + 1, m);
    }
}

pub proof fn lemma_utf8_len_take_step(s: Seq<char>, k: int)
    requires
        0 <= k < s.len(),
    ensures
        utf8_len(s.take(k + 1)) == utf8_len(s.take(k)) + utf8_width(s[k]),
{
    assert(s.take(k + 1).drop_last() =~= s.take(k));
}

pub proof fn lemma_utf8_len_monotone(s: Seq<char>, a: int, b: int)
    requires
        0 <= a <= b <= s.len(),
    ensures
        utf8_len(s.take(a)) + (b - a) <= utf8_len(s.take(b)),
    decreases b - a,
{
    if a < b {
        lemma_utf8_len_monotone(s, a, b - 1);
        lemma_utf8_len_take_step(s, b - 1);
    }
}

pub proof fn lemma_last_delim_props(s: Seq<char>, d: Delim)
    ensures
        -1 <= last_delim(s, d) < s.len(),
        last_delim(s, d) >= 0 ==> is_delim(d, s[last_delim(s, d)]),
        forall|k: int| last_delim(s, d) < k < s.len() ==> !is_delim(d, #[trigger] s[k]),
    decreases s.len(),
{
    if s.len() > 0 && !is_delim(d, s.last()) {
        let u = s.drop_last();
        lemma_last_delim_props(u, d);
        let r = last_delim(u, d);
        if r >= 0 {
            assert(s[r] == u[r]);
        }
        assert forall|k: int| r < k < s.len() implies !is_delim(d, #[trigger] s[k]) by {
            if k < u.len() {
                assert(s[k] == u[k]);
            }
        }
    }
}

/// Splitting text joined by a separator splits each side.
pub proof fn lemma_split_by_concat(a: Seq<char>, c: char, b: Seq<char>, d: Delim)
    requires
        is_delim(d, c),
    ensures
        split_by(a + seq![c] + b, d) == split_by(a, d) + split_by(b, d),
    decreases b.len(),
{
    let t = a + seq![c] + b;
    lemma_last_delim_props(b, d);
    let kb = last_delim(b, d);
    if kb >= 0 {
        let m = a.len() + 1 + kb;
        assert(t[m] == b[kb]);
        assert forall|k: int| m < k < t.len() implies !is_delim(d, #[trigger] t[k]) by {
            assert(t[k] == b[k - a.len() - 1]);
        }
        lemma_last_delim(t, d, m);
        assert(t.take(m) =~= a + seq![c] + b.take(kb));
        assert(t.skip(m + 1) =~= b.skip(kb + 1));
        lemma_split_by_concat(a, c, b.take(kb), d);
        lemma_last_delim(b, d, kb);
        assert(split_by(b, d) == split_by(b.take(kb), d).push(b.skip(kb + 1)));
        assert(split_by(t, d) =~= split_by(a, d) + split_by(b, d));
    } else {
        let m = a.len() as int;
        assert(t[m] == c);
        assert forall|k: int| m < k < t.len() implies !is_delim(d, #[trigger] t[k]) by {
            assert(t[k] == b[k - a.len() - 1]);
        }
        lemma_last_delim(t, d, m);
        assert(t.take(m) =~= a);
        assert(t.skip(m + 1) =~= b);
        assert(split_by(b, d) == seq![b]);
        assert(split_by(t, d) =~= split_by(a, d) + split_by(b, d));
    }
}

// ---------------------------------------------------------------------------
// Executable scanners
// ---------------------------------------------------------------------------

#[verifier::external_body]
pub(crate) fn push_char(s: &mut String, c: char)
    ensures
        final(s)@ == old(s)@.push(c),
{
    s.push(c);
}

/// The characters of `s`, in order.
pub fn chars_of(s: &str) -> (res: Vec<char>)
    ensures
        res@ == s@,
{
    let mut out: Vec<char> = Vec::new();
    for c in it: s.chars()
        invariant
            out@ == it.seq().take(it.index() as int),
    {
        out.push(c);
    }
    out
}

/// A `String` holding `s[lo..hi]`.
pub fn string_of(s: &Vec<char>, lo: usize, hi: usize) -> (res: String)
    requires
        lo <= hi <= s.len(),
    ensures
        res@ == s@.subrange(lo as int, hi as int),
{
    let mut out = String::new();
    let mut i = lo;
    while i < hi
        invariant
            lo <= i <= hi <= s.len(),
            out@ == s@.subrange(lo as int, i as int),
        decreases hi - i,
    {
        push_char(&mut out, s[i]);
        assert(s@.subrange(lo as int, i + 1) =~= s@.subrange(lo as int, i as int).push(s@[i as int]));
        i += 1;
    }
    out
}

/// `char::is_whitespace`.
pub fn is_space_char(c: char) -> (b: bool)
    ensures
        b == is_space(c),
{
    ('\u{9}' <= c && c <= '\u{d}') || c == ' ' || c == '\u{85}' || c == '\u{a0}' || c == '\u{1680}'
        || ('\u{2000}' <= c && c <= '\u{200a}') || c == '\u{2028}' || c == '\u{2029}' || c
        == '\u{202f}' || c == '\u{205f}' || c == '\u{3000}'
}

pub fn delim_matches(d: Delim, c: char) -> (b: bool)
    ensures
        b == is_delim(d, c),
{
    match d {
        Delim::Char(x) => c == x,
        Delim::Whitespace => is_space_char(c),
    }
}

/// Bounds of `trim_delim(s[lo..hi], d)` inside `s`.
pub fn trim_span(s: &Vec<char>, lo: usize, hi: usize, d: Delim) -> (res: (usize, usize))
    requires
        lo <= hi <= s.len(),
    ensures
        lo <= res.0 <= res.1 <= hi,
        s@.subrange(res.0 as int, res.1 as int) == trim_delim(s@.subrange(lo as int, hi as int), d),
{
    let ghost t = s@.subrange(lo as int, hi as int);
    let mut a = lo;
    while a < hi && delim_matches(d, s[a])
        invariant
            lo <= a <= hi <= s.len(),
            t == s@.subrange(lo as int, hi as int),
            forall|k: int| lo <= k < a ==> is_delim(d, #[trigger] s@[k]),
        decreases hi - a,
    {
        a += 1;
    }
    proof {
        assert forall|k: int| 0 <= k < a - lo implies is_delim(d, #[trigger] t[k]) by {
            assert(t[k] == s@[lo + k]);
        }
        if a < hi {
            assert(t[a - lo] == s@[a as int]);
        }
        lemma_strip_start_skip(t, d, a - lo);
        assert(t.skip(a - lo) =~= s@.subrange(a as int, hi as int));
    }
    let mut b = hi;
    while b > a && delim_matches(d, s[b - 1])
        invariant
            lo <= a <= b <= hi <= s.len(),
            forall|k: int| b <= k < hi ==> is_delim(d, #[trigger] s@[k]),
        decreases b - a,
    {
        b -= 1;
    }
    proof {
        let u = s@.subrange(a as int, hi as int);
        assert forall|k: int| b - a <= k < u.len() implies is_delim(d, #[trigger] u[k]) by {
            assert(u[k] == s@[a + k]);
        }
        if b > a {
            assert(u[b - a - 1] == s@[b - 1]);
        }
        lemma_strip_end_take(u, d, b - a);
        assert(u.take(b - a) =~= s@.subrange(a as int, b as int));
    }
    (a, b)
}

/// The pieces that `split_by(s[lo..hi], d)` yields, as bounds inside `s`.
pub fn split_spans(s: &Vec<char>, lo: usize, hi: usize, d: Delim) -> (res: Vec<(usize, usize)>)
    requires
        lo <= hi <= s.len(),
    ensures
        res.len() == split_by(s@.subrange(lo as int, hi as int), d).len(),
        forall|k: int|
            0 <= k < res.len() ==> lo <= (#[trigger] res[k]).0 <= res[k].1 <= hi
                && s@.subrange(res[k].0 as int, res[k].1 as int) == split_by(
                s@.subrange(lo as int, hi as int),
                d,
            )[k],
{
    let ghost t = s@.subrange(lo as int, hi as int);
    let mut spans: Vec<(usize, usize)> = Vec::new();
    let mut start = lo;
    let mut i = lo;
    while i < hi
        invariant
            lo <= start <= i <= hi <= s.len(),
            t == s@.subrange(lo as int, hi as int),
            start > lo ==> is_delim(d, s@[start - 1]),
            forall|k: int| start <= k < i ==> !is_delim(d, #[trigger] s@[k]),
            spans.len() == (if start == lo { 0 } else { split_by(t.take(start - 1 - lo), d).len() }),
            forall|k: int|
                0 <= k < spans.len() ==> lo <= (#[trigger] spans[k]).0 <= spans[k].1 <= hi
                    && s@.subrange(spans[k].0 as int, spans[k].1 as int) == split_by(
                    t.take(start - 1 - lo),
                    d,
                )[k],
        decreases hi - i,
    {
        if delim_matches(d, s[i]) {
            proof {
                let u = t.take(i - lo);
                assert forall|k: int| start - lo <= k < u.len() implies !is_delim(
                    d,
                    #[trigger] u[k],
                ) by {
                    assert(u[k] == s@[lo + k]);
                }
                if start > lo {
                    assert(u[start - lo - 1] == s@[start - 1]);
                    assert(u.take(start - 1 - lo) =~= t.take(start - 1 - lo));
                }
                lemma_split_by_tail(u, d, start - lo);
                assert(u.skip(start - lo) =~= s@.subrange(start as int, i as int));
            }
            spans.push((start, i));
            start = i + 1;
        }
        i += 1;
    }
    proof {
        assert forall|k: int| start - lo <= k < t.len() implies !is_delim(d, #[trigger] t[k]) by {
            assert(t[k] == s@[lo + k]);
        }
        if start > lo {
            assert(t[start - lo - 1] == s@[start - 1]);
        }
        lemma_split_by_tail(t, d, start - lo);
        assert(t.skip(start - lo) =~= s@.subrange(start as int, hi as int));
    }
    spans.push((start, hi));
    spans
}

/// Position of the first character of `s[lo..hi]` matching `d`.
pub fn find_delim(s: &Vec<char>, lo: usize, hi: usize, d: Delim) -> (res: Option<usize>)
    requires
        lo <= hi <= s.len(),
    ensures
        match res {
            Some(i) => lo <= i < hi && first_delim(s@.subrange(lo as int, hi as int), d) == i - lo,
            None => first_delim(s@.subrange(lo as int, hi as int), d) == -1,
        },
{
    let ghost t = s@.subrange(lo as int, hi as int);
    let mut i = lo;
    while i < hi
        invariant
            lo <= i <= hi <= s.len(),
            t == s@.subrange(lo as int, hi as int),
            forall|k: int| lo <= k < i ==> !is_delim(d, #[trigger] s@[k]),
        decreases hi - i,
    {
        if delim_matches(d, s[i]) {
            proof {
                assert forall|k: int| 0 <= k < i - lo implies !is_delim(d, #[trigger] t[k]) by {
                    assert(t[k] == s@[lo + k]);
                }
                assert(t[i - lo] == s@[i as int]);
                lemma_first_delim(t, d, i - lo);
            }
            return Some(i);
        }
        i += 1;
    }
    proof {
        assert forall|k: int| 0 <= k < t.len() implies !is_delim(d, #[trigger] t[k]) by {
            assert(t[k] == s@[lo + k]);
        }
        lemma_first_delim(t, d, t.len() as int);
    }
    None
}

/// Whether `pat` occurs in `s` at index `i`, not reaching past `hi`.
pub fn matches_at(s: &Vec<char>, hi: usize, i: usize, pat: &Vec<char>) -> (b: bool)
    requires
        i <= hi <= s.len(),
    ensures
        b == (i + pat.len() <= hi && s@.subrange(i as int, i + pat.len()) == pat@),
{
    if pat.len() > hi - i {
        return false;
    }
    let mut k: usize = 0;
    while k < pat.len()
        invariant
            i + pat.len() <= hi <= s.len(),
            k <= pat.len(),
            forall|j: int| 0 <= j < k ==> s@[i + j] == pat@[j],
        decreases pat.len() - k,
    {
        if s[i + k] != pat[k] {
            assert(s@.subrange(i as int, i + pat.len())[k as int] != pat@[k as int]);
            return false;
        }
        k += 1;
    }
    assert(s@.subrange(i as int, i + pat.len()) =~= pat@);
    true
}

/// `contains_seq(s[lo..hi], pat)`.
pub fn contains_in(s: &Vec<char>, lo: usize, hi: usize, pat: &Vec<char>) -> (b: bool)
    requires
        lo <= hi <= s.len(),
    ensures
        b == contains_seq(s@.subrange(lo as int, hi as int), pat@),
{
    let ghost t = s@.subrange(lo as int, hi as int);
    let mut i = lo;
    loop
        invariant
            lo <= i <= hi <= s.len(),
            t == s@.subrange(lo as int, hi as int),
            forall|k: int| 0 <= k < i - lo ==> !occurs_at(t, pat@, k),
        decreases hi - i,
    {
        let found = matches_at(s, hi, i, pat);
        if found {
            assert(t.subrange(i - lo, i - lo + pat.len()) =~= s@.subrange(i as int, i + pat.len()));
            assert(occurs_at(t, pat@, i - lo));
            return true;
        }
        assert(!occurs_at(t, pat@, i - lo)) by {
            if i + pat.len() <= hi {
                assert(t.subrange(i - lo, i - lo + pat.len()) =~= s@.subrange(
                    i as int,
                    i + pat.len(),
                ));
            }
        }
        if i == hi {
            assert forall|k: int| !occurs_at(t, pat@, k) by {
                if 0 <= k && k < i - lo {
                } else if k >= i - lo {
                    if k > i - lo {
                        assert(k + pat.len() > t.len());
                    }
                }
            }
            return false;
        }
        i += 1;
    }
}

/// Start of `last_split_piece(s[lo..hi], pat)` inside `s`; the piece runs to `hi`.
pub fn last_piece_start(s: &Vec<char>, lo: usize, hi: usize, pat: &Vec<char>) -> (res: usize)
    requires
        lo <= hi <= s.len(),
        pat.len() > 0,
    ensures
        lo <= res <= hi,
        s@.subrange(res as int, hi as int) == last_split_piece(
            s@.subrange(lo as int, hi as int),
            pat@,
        ),
{
    let ghost t = s@.subrange(lo as int, hi as int);
    let mut start = lo;
    let mut i = lo;
    assert(t.skip(0) =~= t);
    while i < hi
        invariant
            lo <= start <= i <= hi <= s.len(),
            pat.len() > 0,
            t == s@.subrange(lo as int, hi as int),
            last_split_piece(t, pat@) == last_split_piece(t.skip(start - lo), pat@),
            forall|k: int| start - lo <= k < i - lo ==> !occurs_at(t, pat@, k),
        decreases hi - i,
    {
        let found = matches_at(s, hi, i, pat);
        if found {
            proof {
                assert(t.subrange(i - lo, i - lo + pat.len()) =~= s@.subrange(
                    i as int,
                    i + pat.len(),
                ));
                lemma_first_occurrence(t, pat@, start - lo, i - lo);
                let u = t.skip(start - lo);
                assert(u.skip(i - start + pat.len()) =~= t.skip(i + pat.len() - lo));
            }
            start = i + pat.len();
            i = start;
        } else {
            assert(!occurs_at(t, pat@, i - lo)) by {
                if i + pat.len() <= hi {
                    assert(t.subrange(i - lo, i - lo + pat.len()) =~= s@.subrange(
                        i as int,
                        i + pat.len(),
                    ));
                }
            }
            i += 1;
        }
    }
    proof {
        lemma_first_occurrence(t, pat@, start - lo, t.len() as int);
        assert(t.skip(start - lo) =~= s@.subrange(start as int, hi as int));
    }
    start
}

/// `char::len_utf8`.
pub fn utf8_width_of(c: char) -> (w: usize)
    ensures
        w == utf8_width(c),
{
    if '\u{80}' > c {
        1
    } else if '\u{800}' > c {
        2
    } else if '\u{10000}' > c {
        3
    } else {
        4
    }
}

/// The lines of `s` (`lines(s)`), as bounds inside `s`.
pub fn line_spans(s: &Vec<char>) -> (res: Vec<(usize, usize)>)
    ensures
        res.len() == lines(s@).len(),
        forall|k: int|
            0 <= k < res.len() ==> (#[trigger] res[k]).0 <= res[k].1 <= s.len()
                && s@.subrange(res[k].0 as int, res[k].1 as int) == lines(s@)[k],
{
    let ghost p = split_by(s@, Delim::Char('\n'));
    assert(s@.subrange(0, s@.len() as int) =~= s@);
    let pieces = split_spans(s, 0, s.len(), Delim::Char('\n'));
    proof {
        lemma_split_by_nonempty(s@, Delim::Char('\n'));
    }
    let last = pieces[pieces.len() - 1];
    let n = if last.0 == last.1 {
        pieces.len() - 1
    } else {
        pieces.len()
    };
    let mut out: Vec<(usize, usize)> = Vec::new();
    let mut k: usize = 0;
    while k < n
        invariant
            n <= pieces.len(),
            pieces.len() == p.len(),
            n == lines(s@).len(),
            p == split_by(s@, Delim::Char('\n')),
            p.len() >= 1,
            forall|j: int|
                0 <= j < pieces.len() ==> (#[trigger] pieces[j]).0 <= pieces[j].1 <= s.len()
                    && s@.subrange(pieces[j].0 as int, pieces[j].1 as int) == p[j],
            k <= n,
            out.len() == k,
            forall|j: int|
                0 <= j < k ==> (#[trigger] out[j]).0 <= out[j].1 <= s.len()
                    && s@.subrange(out[j].0 as int, out[j].1 as int) == lines(s@)[j],
        decreases n - k,
    {
        let (a, b) = pieces[k];
        let ghost x = s@.subrange(a as int, b as int);
        assert(x == p[k as int]);
        if k + 1 < pieces.len() && a < b && s[b - 1] == '\r' {
            assert(x.last() == s@[b - 1]);
            assert(s@.subrange(a as int, b - 1) =~= x.drop_last());
            out.push((a, b - 1));
        } else {
            out.push((a, b));
        }
        k += 1;
    }
    out
}

/// The `n`th whitespace-separated field of `s[lo..hi]`, as bounds inside `s`.
pub fn nth_field(s: &Vec<char>, lo: usize, hi: usize, n: usize) -> (res: Option<(usize, usize)>)
    requires
        lo <= hi <= s.len(),
    ensures
        match res {
            Some((a, b)) => fields(s@.subrange(lo as int, hi as int)).len() > n && lo <= a <= b
                <= hi && s@.subrange(a as int, b as int) == fields(
                s@.subrange(lo as int, hi as int),
            )[n as int],
            None => fields(s@.subrange(lo as int, hi as int)).len() <= n,
        },
{
    let ghost p = split_by(s@.subrange(lo as int, hi as int), Delim::Whitespace);
    let ghost ne = nonempty_piece();
    let pieces = split_spans(s, lo, hi, Delim::Whitespace);
    let mut count: usize = 0;
    let mut k: usize = 0;
    assert(p.take(0) =~= Seq::<Seq<char>>::empty());
    assert(p.take(0).filter(ne) =~= Seq::<Seq<char>>::empty()) by {
        reveal(Seq::filter);
    }
    while k < pieces.len()
        invariant
            lo <= hi <= s.len(),
            p == split_by(s@.subrange(lo as int, hi as int), Delim::Whitespace),
            ne == nonempty_piece(),
            pieces.len() == p.len(),
            forall|j: int|
                0 <= j < pieces.len() ==> lo <= (#[trigger] pieces[j]).0 <= pieces[j].1 <= hi
                    && s@.subrange(pieces[j].0 as int, pieces[j].1 as int) == p[j],
            k <= pieces.len(),
            count <= n,
            p.take(k as int).filter(ne).len() == count,
        decreases pieces.len() - k,
    {
        let (a, b) = pieces[k];
        proof {
            assert(p.take(k + 1) =~= p.take(k as int).push(p[k as int]));
            p.take(k as int).lemma_filter_push(p[k as int], ne);
        }
        if a < b {
            if count == n {
                proof {
                    let q = p.take(k + 1);
                    assert(p =~= q + p.skip(k + 1));
                    Seq::filter_distributes_over_add(q, p.skip(k + 1), ne);
                    assert(q.filter(ne)[n as int] == p[k as int]);
                }
                return Some((a, b));
            }
            count += 1;
        }
        k += 1;
    }
    assert(p.take(k as int) =~= p);
    None
}

/// Whether `s[lo..hi]` and `t` hold the same characters.
pub fn range_eq(s: &Vec<char>, lo: usize, hi: usize, t: &Vec<char>) -> (b: bool)
    requires
        lo <= hi <= s.len(),
    ensures
        b == (s@.subrange(lo as int, hi as int) == t@),
{
    if hi - lo != t.len() {
        assert(s@.subrange(lo as int, hi as int).len() != t@.len());
        return false;
    }
    matches_at(s, hi, lo, t)
}

} // verus!
