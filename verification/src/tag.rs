//! Stable release tags (`v2026.3.12`, `v2026.3.13-1`) and their order.
use vstd::prelude::*;

use std::cmp::Ordering;
use vstd::std_specs::cmp::PartialOrdSpec;

use crate::number::{is_digit, parse_u32, parse_u32_spec};
use crate::text::{
    chars_of, contains_in, contains_seq, find_delim, is_delim, occurs_at, split_by,
    split_once, split_spans, Delim, lemma_first_delim, lemma_last_delim, lemma_split_by_concat,
};

verus! {

/// A release tag of the form `v<year>.<major>.<minor>` or
/// `v<year>.<major>.<minor>-<legacy_patch>`, with the numbers it carries.
#[derive(Clone, Debug, PartialEq, Eq)]
pub struct StableTag {
    pub tag: String,
    pub year: u32,
    pub major: u32,
    pub minor: u32,
    pub legacy_patch: u32,
}

/// The numbers of a stable tag, in the order in which tags are compared.
pub type TagKey = (u32, u32, u32, u32);

impl StableTag {
    pub open spec fn key(&self) -> TagKey {
        (self.year, self.major, self.minor, self.legacy_patch)
    }
}

/// Lexicographic "strictly less" on tag keys.
pub open spec fn key_lt(a: TagKey, b: TagKey) -> bool {
    ||| a.0 < b.0
    ||| (a.0 == b.0 && a.1 < b.1)
    ||| (a.0 == b.0 && a.1 == b.1 && a.2 < b.2)
    ||| (a.0 == b.0 && a.1 == b.1 && a.2 == b.2 && a.3 < b.3)
}

pub open spec fn key_le(a: TagKey, b: TagKey) -> bool {
    key_lt(a, b) || a == b
}

/// The three-way comparison of two tag keys.
pub open spec fn key_order(a: TagKey, b: TagKey) -> Ordering {
    if key_lt(a, b) {
        Ordering::Less
    } else if a == b {
        Ordering::Equal
    } else {
        Ordering::Greater
    }
}

pub open spec fn beta_word() -> Seq<char> {
    seq!['b', 'e', 't', 'a']
}

/// `<year>.<major>.<minor>`: exactly three dot-separated numbers.
pub open spec fn version_numbers(v: Seq<char>) -> Option<(u32, u32, u32)> {
    let parts = split_by(v, Delim::Char('.'));
    if parts.len() == 3 {
        match (parse_u32_spec(parts[0]), parse_u32_spec(parts[1]), parse_u32_spec(parts[2])) {
            (Some(y), Some(ma), Some(mi)) => Some((y, ma, mi)),
            _ => None,
        }
    } else {
        None
    }
}

/// The key of a stable tag, or `None` where `t` is no stable tag: it must
/// start with `v`, must not contain `beta`, and after the `v` holds a version
/// of three numbers, optionally followed by `-` and a legacy patch number.
pub open spec fn stable_tag_key(t: Seq<char>) -> Option<TagKey> {
    if t.len() == 0 || t[0] != 'v' || contains_seq(t, beta_word()) {
        None
    } else {
        let core = t.drop_first();
        match split_once(core, '-') {
            Some((base, suffix)) => match (version_numbers(base), parse_u32_spec(suffix)) {
                (Some((y, ma, mi)), Some(p)) => Some((y, ma, mi, p)),
                _ => None,
            },
            None => match version_numbers(core) {
                Some((y, ma, mi)) => Some((y, ma, mi, 0u32)),
                None => None,
            },
        }
    }
}

/// `key_le(a, b)`.
pub fn tag_key_le(a: TagKey, b: TagKey) -> (r: bool)
    ensures
        r == key_le(a, b),
{
    a.0 < b.0 || (a.0 == b.0 && (a.1 < b.1 || (a.1 == b.1 && (a.2 < b.2 || (a.2 == b.2 && a.3
        <= b.3)))))
}

fn version_numbers_in(s: &Vec<char>, lo: usize, hi: usize) -> (res: Option<(u32, u32, u32)>)
    requires
        lo <= hi <= s.len(),
    ensures
        res == version_numbers(s@.subrange(lo as int, hi as int)),
{
    let parts = split_spans(s, lo, hi, Delim::Char('.'));
    if parts.len() != 3 {
        return None;
    }
    let y = parse_u32(s, parts[0].0, parts[0].1);
    let ma = parse_u32(s, parts[1].0, parts[1].1);
    let mi = parse_u32(s, parts[2].0, parts[2].1);
    match (y, ma, mi) {
        (Some(y), Some(ma), Some(mi)) => Some((y, ma, mi)),
        _ => None,
    }
}

/// `stable_tag_key(s[lo..hi])`.
pub fn stable_key_in(s: &Vec<char>, lo: usize, hi: usize) -> (res: Option<TagKey>)
    requires
        lo <= hi <= s.len(),
    ensures
        res == stable_tag_key(s@.subrange(lo as int, hi as int)),
{
    let ghost t = s@.subrange(lo as int, hi as int);
    let beta = vec!['b', 'e', 't', 'a'];
    assert(beta@ =~= beta_word());
    if lo == hi || s[lo] != 'v' || contains_in(s, lo, hi, &beta) {
        return None;
    }
    let ghost core = t.drop_first();
    assert(core =~= s@.subrange(lo + 1, hi as int));
    match find_delim(s, lo + 1, hi, Delim::Char('-')) {
        Some(i) => {
            assert(core.take(i - lo - 1) =~= s@.subrange(lo + 1, i as int));
            assert(core.skip(i - lo) =~= s@.subrange(i + 1, hi as int));
            let v = version_numbers_in(s, lo + 1, i);
            let p = parse_u32(s, i + 1, hi);
            match (v, p) {
                (Some((y, ma, mi)), Some(p)) => Some((y, ma, mi, p)),
                _ => None,
            }
        },
        None => {
            match version_numbers_in(s, lo + 1, hi) {
                Some((y, ma, mi)) => Some((y, ma, mi, 0u32)),
                None => None,
            }
        },
    }
}

/// Reads a stable release tag. `None` for anything else, such as a tag
/// that does not start with `v`, a beta tag, or a version with more or fewer
/// than three numbers.
pub fn parse_stable_tag(tag: &str) -> (res: Option<StableTag>)
    ensures
        match res {
            Some(st) => stable_tag_key(tag@) == Some(st.key()) && st.tag@ == tag@,
            None => stable_tag_key(tag@) is None,
        },
{
    let s = chars_of(tag);
    assert(s@.subrange(0, s@.len() as int) =~= s@);
    match stable_key_in(&s, 0, s.len()) {
        Some((year, major, minor, legacy_patch)) => Some(
            StableTag { tag: tag.to_owned(), year, major, minor, legacy_patch },
        ),
        None => None,
    }
}

impl StableTag {
    /// Orders tags by year, then major, then minor, then legacy patch; the
    /// tag text plays no part.
    pub fn cmp(&self, other: &Self) -> (o: Ordering)
        ensures
            o == key_order(self.key(), other.key()),
    {
        if self.year != other.year {
            if self.year < other.year {
                Ordering::Less
            } else {
                Ordering::Greater
            }
        } else if self.major != other.major {
            if self.major < other.major {
                Ordering::Less
            } else {
                Ordering::Greater
            }
        } else if self.minor != other.minor {
            if self.minor < other.minor {
                Ordering::Less
            } else {
                Ordering::Greater
            }
        } else if self.legacy_patch != other.legacy_patch {
            if self.legacy_patch < other.legacy_patch {
                Ordering::Less
            } else {
                Ordering::Greater
            }
        } else {
            Ordering::Equal
        }
    }
}

impl PartialOrd for StableTag {
    fn partial_cmp(&self, other: &Self) -> (o: Option<Ordering>) {
        Some(self.cmp(other))
    }
}

impl vstd::std_specs::cmp::PartialOrdSpecImpl for StableTag {
    open spec fn obeys_partial_cmp_spec() -> bool {
        true
    }

    open spec fn partial_cmp_spec(&self, other: &Self) -> Option<Ordering> {
        Some(key_order(self.key(), other.key()))
    }
}

/// Tags are ordered by their keys, and that order is total: every two keys
/// compare one way, equal keys compare equal, swapping the two reverses the
/// answer, and "less" is transitive.
pub proof fn lemma_key_order_total(a: TagKey, b: TagKey, c: TagKey)
    ensures
        key_order(a, a) == Ordering::Equal,
        (key_order(a, b) == Ordering::Equal) == (a == b),
        (key_order(a, b) == Ordering::Less) == (key_order(b, a) == Ordering::Greater),
        key_lt(a, b) || a == b || key_lt(b, a),
        key_lt(a, b) && key_lt(b, c) ==> key_lt(a, c),
        !(key_lt(a, b) && key_lt(b, a)),
{
}

/// Tags compare field by field, most significant first: the year decides
/// unless equal, then the major number, then the minor number, and the
/// legacy patch only between tags of one version. `key_le` is "not after".
pub proof fn lemma_key_order_lexicographic(a: TagKey, b: TagKey)
    ensures
        a.0 < b.0 ==> key_order(a, b) == Ordering::Less,
        a.0 == b.0 && a.1 < b.1 ==> key_order(a, b) == Ordering::Less,
        a.0 == b.0 && a.1 == b.1 && a.2 < b.2 ==> key_order(a, b) == Ordering::Less,
        a.0 == b.0 && a.1 == b.1 && a.2 == b.2 && a.3 < b.3 ==> key_order(a, b)
            == Ordering::Less,
        a == b ==> key_order(a, b) == Ordering::Equal,
        key_le(a, b) == (key_order(a, b) != Ordering::Greater),
        key_le(a, b) == !key_lt(b, a),
{
}

/// `StableTag::cmp` orders by year, then major, then minor, then legacy
/// patch: a later minor release is after any legacy patch of an earlier one.
pub proof fn lemma_minor_before_legacy_patch(a: StableTag, b: StableTag)
    requires
        a.year == b.year,
        a.major == b.major,
        a.minor < b.minor,
    ensures
        key_order(a.key(), b.key()) == Ordering::Less,
        key_order(b.key(), a.key()) == Ordering::Greater,
        a.partial_cmp_spec(&b) == Some(Ordering::Less),
{
}

/// `partial_cmp` on stable tags always answers, and answers by the keys.
pub proof fn lemma_partial_cmp_by_key(a: StableTag, b: StableTag)
    ensures
        a.partial_cmp_spec(&b) == Some(key_order(a.key(), b.key())),
        a.partial_cmp_spec(&b) is Some,
{
}

/// A tag that contains `beta` is never a stable tag.
pub proof fn lemma_beta_rejected(t: Seq<char>)
    requires
        contains_seq(t, beta_word()),
    ensures
        stable_tag_key(t) is None,
{
}

/// A number that `u32::from_str` accepts holds only digits and perhaps a
/// leading `+`: no `.`, `-` or `b`.
proof fn lemma_number_chars(n: Seq<char>)
    requires
        parse_u32_spec(n) is Some,
    ensures
        forall|i: int| 0 <= i < n.len() ==> #[trigger] n[i] != '.' && n[i] != '-' && n[i] != 'b',
{
    let digits = if n.len() > 0 && n[0] == '+' { n.drop_first() } else { n };
    assert forall|i: int| 0 <= i < n.len() implies #[trigger] n[i] != '.' && n[i] != '-' && n[i]
        != 'b' by {
        if n.len() > 0 && n[0] == '+' {
            if i > 0 {
                assert(n[i] == digits[i - 1]);
                assert(is_digit(digits[i - 1]));
            }
        } else {
            assert(is_digit(digits[i]));
        }
    }
}

proof fn lemma_split_single(x: Seq<char>)
    requires
        forall|i: int| 0 <= i < x.len() ==> #[trigger] x[i] != '.',
    ensures
        split_by(x, Delim::Char('.')) == seq![x],
{
    lemma_last_delim(x, Delim::Char('.'), -1);
}

/// `v<year>.<major>.<minor>`, each number as `u32::from_str` reads it, is a
/// stable tag with those numbers and legacy patch 0.
pub proof fn lemma_plain_tag_parses(a: Seq<char>, b: Seq<char>, c: Seq<char>)
    requires
        parse_u32_spec(a) is Some,
        parse_u32_spec(b) is Some,
        parse_u32_spec(c) is Some,
    ensures
        stable_tag_key(seq!['v'] + a + seq!['.'] + b + seq!['.'] + c) == Some(
            (
                parse_u32_spec(a).unwrap(),
                parse_u32_spec(b).unwrap(),
                parse_u32_spec(c).unwrap(),
                0u32,
            ),
        ),
{
    lemma_number_chars(a);
    lemma_number_chars(b);
    lemma_number_chars(c);
    let t = seq!['v'] + a + seq!['.'] + b + seq!['.'] + c;
    let bc = b + seq!['.'] + c;
    let core = t.drop_first();
    assert(core =~= a + seq!['.'] + bc);
    let la = a.len() as int;
    let lb = b.len() as int;
    assert forall|i: int| 0 <= i < t.len() implies #[trigger] t[i] != 'b' && t[i] != '-' by {
        if i == 0 {
        } else if i < 1 + la {
            assert(t[i] == a[i - 1]);
        } else if i == 1 + la {
        } else if i < 2 + la + lb {
            assert(t[i] == b[i - 2 - la]);
        } else if i == 2 + la + lb {
        } else {
            assert(t[i] == c[i - 3 - la - lb]);
        }
    }
    assert(!contains_seq(t, beta_word())) by {
        assert forall|i: int| !occurs_at(t, beta_word(), i) by {
            if occurs_at(t, beta_word(), i) {
                assert(t.subrange(i, i + 4)[0] == 'b');
                assert(t[i] == 'b');
            }
        }
    }
    assert forall|k: int| 0 <= k < core.len() implies !is_delim(Delim::Char('-'), #[trigger] core[k]) by {
        assert(core[k] == t[k + 1]);
    }
    lemma_first_delim(core, Delim::Char('-'), core.len() as int);
    lemma_split_by_concat(a, '.', bc, Delim::Char('.'));
    lemma_split_by_concat(b, '.', c, Delim::Char('.'));
    lemma_split_single(a);
    lemma_split_single(b);
    lemma_split_single(c);
    assert(split_by(core, Delim::Char('.')) =~= seq![a, b, c]);
}

/// Appending `-<n>` to a plain release tag gives the legacy patch release of
/// the same version, with patch number `n`; it orders after the plain release
/// whenever that number is not 0.
pub proof fn lemma_legacy_patch_after_plain(t: Seq<char>, n: Seq<char>)
    requires
        stable_tag_key(t) is Some,
        !t.contains('-'),
        parse_u32_spec(n) is Some,
    ensures
        ({
            let k = stable_tag_key(t).unwrap();
            let p = parse_u32_spec(n).unwrap();
            &&& stable_tag_key(t + seq!['-'] + n) == Some((k.0, k.1, k.2, p))
            &&& k.3 == 0
            &&& (p > 0 ==> key_lt(k, (k.0, k.1, k.2, p)))
        }),
{
    let u = t + seq!['-'] + n;
    let d = Delim::Char('-');
    let core = t.drop_first();
    let ucore = u.drop_first();
    assert(ucore =~= core + seq!['-'] + n);
    // no `-` in the plain tag, so it has no legacy patch
    assert forall|k: int| 0 <= k < core.len() implies !is_delim(d, #[trigger] core[k]) by {
        assert(core[k] == t[k + 1]);
        if core[k] == '-' {
            assert(t.contains('-'));
        }
    }
    lemma_first_delim(core, d, core.len() as int);
    assert(split_once(core, '-') is None);
    // in the longer tag the first `-` is the appended one
    assert forall|k: int| 0 <= k < core.len() implies !is_delim(d, #[trigger] ucore[k]) by {
        assert(ucore[k] == core[k]);
    }
    assert(ucore[core.len() as int] == '-');
    lemma_first_delim(ucore, d, core.len() as int);
    assert(ucore.take(core.len() as int) =~= core);
    assert(ucore.skip(core.len() as int + 1) =~= n);
    // the number holds digits and at most a leading `+`: no `b`
    let digits = if n.len() > 0 && n[0] == '+' { n.drop_first() } else { n };
    assert forall|j: int| 0 <= j < n.len() implies n[j] != 'b' by {
        if n.len() > 0 && n[0] == '+' {
            if j > 0 {
                assert(n[j] == digits[j - 1]);
                assert(is_digit(digits[j - 1]));
            }
        } else {
            assert(is_digit(digits[j]));
        }
    }
    assert(u[0] == 'v');
    assert(!contains_seq(u, beta_word())) by {
        assert(!contains_seq(t, beta_word()));
        assert forall|i: int| !occurs_at(u, beta_word(), i) by {
            if occurs_at(u, beta_word(), i) {
                let w = u.subrange(i, i + 4);
                assert(w[0] == 'b' && w[1] == 'e' && w[2] == 't' && w[3] == 'a');
                if i + 4 <= t.len() {
                    assert(t.subrange(i, i + 4) =~= w);
                    assert(occurs_at(t, beta_word(), i));
                } else if i >= t.len() + 1 {
                    assert(u[i] == n[i - t.len() - 1]);
                } else {
                    let j = t.len() - i;
                    assert(0 <= j < 4);
                    assert(w[j] == u[t.len() as int]);
                }
            }
        }
    }
}

} // verus!
