//! Looking a key up in a dotenv file (`KEY=value` lines).
use vstd::prelude::*;

use crate::error::ClawyerError;
use crate::text::{
    is_delim, is_space, lemma_first_delim, lemma_strip_end_take, lemma_strip_start_skip, strip_end,
    strip_start, chars_of, find_delim, line_spans, lines, range_eq, split_once, string_of, trim, trim_delim,
    trim_span, Delim,
};

verus! {

/// The value that line `l` gives `key`, if it is an entry for `key`: blank
/// lines and `#` comments are none; otherwise the text before the first `=`,
/// trimmed, must be `key`, and the value is the text after it, trimmed, then
/// stripped of surrounding `"` and then of surrounding `'`.
pub open spec fn dotenv_entry(l: Seq<char>, key: Seq<char>) -> Option<Seq<char>> {
    let t = trim(l);
    if t.len() == 0 || t[0] == '#' {
        None
    } else {
        match split_once(t, '=') {
            Some((name, raw)) => if trim(name) == key {
                Some(trim_delim(trim_delim(trim(raw), Delim::Char('"')), Delim::Char('\'')))
            } else {
                None
            },
            None => None,
        }
    }
}

/// The value of the first line that is an entry for `key`.
pub open spec fn dotenv_lookup(ls: Seq<Seq<char>>, key: Seq<char>) -> Option<Seq<char>>
    decreases ls.len(),
{
    if ls.len() == 0 {
        None
    } else {
        match dotenv_lookup(ls.drop_last(), key) {
            Some(v) => Some(v),
            None => dotenv_entry(ls.last(), key),
        }
    }
}

proof fn lemma_lookup_found_prefix(ls: Seq<Seq<char>>, key: Seq<char>, m: int)
    requires
        0 <= m <= ls.len(),
        dotenv_lookup(ls.take(m), key) is Some,
    ensures
        dotenv_lookup(ls, key) == dotenv_lookup(ls.take(m), key),
    decreases ls.len() - m,
{
    if m == ls.len() {
        assert(ls.take(m) =~= ls);
    } else {
        assert(ls.take(m + 1).drop_last() =~= ls.take(m));
        lemma_lookup_found_prefix(ls, key, m + 1);
    }
}

/// `t` begins and ends with a character that is not `d` (or is empty).
pub open spec fn bare(t: Seq<char>, d: Delim) -> bool {
    t.len() > 0 ==> !is_delim(d, t[0]) && !is_delim(d, t.last())
}

proof fn lemma_trim_bare(t: Seq<char>, d: Delim)
    requires
        bare(t, d),
    ensures
        trim_delim(t, d) == t,
{
    if t.len() > 0 {
        lemma_strip_start_skip(t, d, 0);
        assert(t.skip(0) =~= t);
        assert(t[t.len() - 1] == t.last());
        lemma_strip_end_take(t, d, t.len() as int);
        assert(t.take(t.len() as int) =~= t);
    }
}

/// A plain entry `KEY=value` gives `KEY` its value: the key holds no `=`,
/// does not start with `#` and has no surrounding whitespace; the value has
/// no surrounding whitespace or quotes. A `#` line and a blank line give no
/// key anything.
pub proof fn lemma_dotenv_plain_entry(key: Seq<char>, value: Seq<char>, other: Seq<char>)
    requires
        key.len() > 0,
        key[0] != '#',
        !key.contains('='),
        bare(key, Delim::Whitespace),
        bare(value, Delim::Whitespace),
        bare(value, Delim::Char('"')),
        bare(value, Delim::Char('\'')),
    ensures
        dotenv_entry(key + seq!['='] + value, key) == Some(value),
        trim(other).len() == 0 ==> dotenv_entry(other, key) is None,
        trim(other).len() > 0 && trim(other)[0] == '#' ==> dotenv_entry(other, key) is None,
{
    let l = key + seq!['='] + value;
    assert(l[0] == key[0]);
    assert(l.last() == (if value.len() > 0 { value.last() } else { '=' }));
    lemma_trim_bare(l, Delim::Whitespace);
    assert forall|k: int| 0 <= k < key.len() implies !is_delim(Delim::Char('='), #[trigger] l[k]) by {
        assert(l[k] == key[k]);
        if key[k] == '=' {
            assert(key.contains('='));
        }
    }
    assert(l[key.len() as int] == '=');
    lemma_first_delim(l, Delim::Char('='), key.len() as int);
    assert(l.take(key.len() as int) =~= key);
    assert(l.skip(key.len() as int + 1) =~= value);
    lemma_trim_bare(key, Delim::Whitespace);
    lemma_trim_bare(value, Delim::Whitespace);
    lemma_trim_bare(value, Delim::Char('"'));
    lemma_trim_bare(value, Delim::Char('\''));
}

/// The value that the dotenv text `content` gives `key`: that of the first
/// line holding an entry for it.
pub fn read_optional_dotenv_value(content: &str, key: &str) -> (res: Option<String>)
    ensures
        match dotenv_lookup(lines(content@), key@) {
            Some(v) => res matches Some(r) && r@ == v,
            None => res is None,
        },
{
    let s = chars_of(content);
    let k = chars_of(key);
    let spans = line_spans(&s);
    let ghost ls = lines(s@);
    let mut i: usize = 0;
    assert(ls.take(0) =~= Seq::<Seq<char>>::empty());
    while i < spans.len()
        invariant
            s@ == content@,
            k@ == key@,
            ls == lines(s@),
            spans.len() == ls.len(),
            forall|j: int|
                0 <= j < spans.len() ==> (#[trigger] spans[j]).0 <= spans[j].1 <= s.len()
                    && s@.subrange(spans[j].0 as int, spans[j].1 as int) == ls[j],
            i <= spans.len(),
            dotenv_lookup(ls.take(i as int), k@) is None,
        decreases spans.len() - i,
    {
        let (lo, hi) = spans[i];
        let ghost l = ls[i as int];
        proof {
            assert(ls.take(i + 1).drop_last() =~= ls.take(i as int));
            assert(ls.take(i + 1).last() == l);
        }
        let (a, b) = trim_span(&s, lo, hi, Delim::Whitespace);
        let ghost t = s@.subrange(a as int, b as int);
        if a < b && s[a] != '#' {
            match find_delim(&s, a, b, Delim::Char('=')) {
                Some(e) => {
                    proof {
                        assert(t.take(e - a) =~= s@.subrange(a as int, e as int));
                        assert(t.skip(e - a + 1) =~= s@.subrange(e + 1, b as int));
                    }
                    let (na, nb) = trim_span(&s, a, e, Delim::Whitespace);
                    if range_eq(&s, na, nb, &k) {
                        let (va, vb) = trim_span(&s, e + 1, b, Delim::Whitespace);
                        let (qa, qb) = trim_span(&s, va, vb, Delim::Char('"'));
                        let (xa, xb) = trim_span(&s, qa, qb, Delim::Char('\''));
                        proof {
                            lemma_lookup_found_prefix(ls, k@, i + 1);
                            assert(ls =~= lines(content@));
                        }
                        return Some(string_of(&s, xa, xb));
                    }
                },
                None => {},
            }
        }
        i += 1;
    }
    assert(ls.take(i as int) =~= ls);
    None
}

/// The value that the dotenv file at `path` gives `key`, where `content` is
/// the file's text (`None` when there is no such file); a missing file or
/// entry is an error that names both.
pub fn read_dotenv_value(content: Option<&str>, path: &str, key: &str) -> (res: Result<
    String,
    ClawyerError,
>)
    ensures
        match content {
            Some(c) => match dotenv_lookup(lines(c@), key@) {
                Some(v) => res matches Ok(r) && r@ == v,
                None => res matches Err(ClawyerError::MissingDotenvKey { key: k, path: p }) && k@
                    == key@ && p@ == path@,
            },
            None => res matches Err(ClawyerError::MissingDotenvKey { key: k, path: p }) && k@
                == key@ && p@ == path@,
        },
{
    let found = match content {
        Some(c) => read_optional_dotenv_value(c, key),
        None => None,
    };
    match found {
        Some(v) => Ok(v),
        None => Err(ClawyerError::MissingDotenvKey { key: key.to_owned(), path: path.to_owned() }),
    }
}

} // verus!
