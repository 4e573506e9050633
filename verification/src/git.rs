//! Reading what git prints: the remote's release tags and the working tree's
//! changed paths.
use vstd::prelude::*;

use crate::error::ClawyerError;
use crate::tag::{
    key_le, key_lt, lemma_key_order_lexicographic, lemma_key_order_total, stable_key_in,
    stable_tag_key, tag_key_le, TagKey,
};
use crate::text::{
    is_space, lemma_first_occurrence, lemma_strip_end_take, lemma_strip_start_skip, occurs_at,
    chars_of, fields, last_piece_start, last_split_piece, line_spans, lines, matches_at,
    nth_field, string_of, trim, trim_span, utf8_len, utf8_width_of, Delim,
    lemma_utf8_len_monotone, lemma_utf8_len_take_step,
};

verus! {

pub open spec fn refs_tags_prefix() -> Seq<char> {
    seq!['r', 'e', 'f', 's', '/', 't', 'a', 'g', 's', '/']
}

/// The tag that a line of `git ls-remote --tags` names: its second
/// whitespace-separated field, which must start with `refs/tags/`.
pub open spec fn remote_tag_name(l: Seq<char>) -> Option<Seq<char>> {
    let f = fields(l);
    let pre = refs_tags_prefix();
    if f.len() >= 2 && f[1].len() >= pre.len() && f[1].take(pre.len() as int) == pre {
        Some(f[1].skip(pre.len() as int))
    } else {
        None
    }
}

/// The stable tags that the lines name, in order, each with its key.
pub open spec fn remote_stable_tags(ls: Seq<Seq<char>>) -> Seq<(Seq<char>, TagKey)>
    decreases ls.len(),
{
    if ls.len() == 0 {
        seq![]
    } else {
        let prev = remote_stable_tags(ls.drop_last());
        match remote_tag_name(ls.last()) {
            Some(name) => match stable_tag_key(name) {
                Some(k) => prev.push((name, k)),
                None => prev,
            },
            None => prev,
        }
    }
}

/// The greatest tag by key; among equal keys, the last one
/// (as `Iterator::max` picks it).
pub open spec fn latest_tag(c: Seq<(Seq<char>, TagKey)>) -> Option<(Seq<char>, TagKey)>
    decreases c.len(),
{
    if c.len() == 0 {
        None
    } else {
        match latest_tag(c.drop_last()) {
            None => Some(c.last()),
            Some(b) => if key_le(b.1, c.last().1) {
                Some(c.last())
            } else {
                Some(b)
            },
        }
    }
}

/// The tag at index `i` has a key no smaller than any other's, and every
/// later tag has a smaller key: it is the last of the greatest.
pub open spec fn greatest_at(c: Seq<(Seq<char>, TagKey)>, i: int) -> bool {
    &&& 0 <= i < c.len()
    &&& forall|j: int| 0 <= j < c.len() ==> key_le(#[trigger] c[j].1, c[i].1)
    &&& forall|j: int| 0 <= j < c.len() ==> !key_lt(c[i].1, #[trigger] c[j].1)
    &&& forall|j: int| i < j < c.len() ==> key_lt(#[trigger] c[j].1, c[i].1)
}

/// `latest_tag` picks the last of the tags with the greatest key.
pub proof fn lemma_latest_tag(c: Seq<(Seq<char>, TagKey)>)
    ensures
        latest_tag(c) is None <==> c.len() == 0,
        latest_tag(c) matches Some(b) ==> exists|i: int| #[trigger] greatest_at(c, i) && c[i] == b,
    decreases c.len(),
{
    if c.len() > 0 {
        let d = c.drop_last();
        lemma_latest_tag(d);
        let b = latest_tag(c).unwrap();
        let n = c.len() - 1;
        assert(c[n] == c.last());
        match latest_tag(d) {
            None => {
                assert(d.len() == 0);
                assert(greatest_at(c, n)) by {
                    lemma_key_order_lexicographic(c[n].1, c[n].1);
                }
            },
            Some(bd) => {
                let k = choose|k: int| #[trigger] greatest_at(d, k) && d[k] == bd;
                if key_le(bd.1, c.last().1) {
                    assert(greatest_at(c, n)) by {
                        assert forall|j: int| 0 <= j < c.len() implies key_le(
                            #[trigger] c[j].1,
                            c[n].1,
                        ) && !key_lt(c[n].1, c[j].1) by {
                            if j < n {
                                assert(c[j] == d[j]);
                                assert(key_le(d[j].1, d[k].1));
                                lemma_key_order_total(d[j].1, bd.1, c[n].1);
                            }
                            lemma_key_order_lexicographic(c[j].1, c[n].1);
                        }
                    }
                } else {
                    assert(greatest_at(c, k)) by {
                        lemma_key_order_lexicographic(bd.1, c[n].1);
                        lemma_key_order_total(bd.1, c[n].1, c[n].1);
                        assert forall|j: int| 0 <= j < c.len() implies key_le(
                            #[trigger] c[j].1,
                            c[k].1,
                        ) && !key_lt(c[k].1, c[j].1) by {
                            if j < n {
                                assert(c[j] == d[j]);
                            }
                            lemma_key_order_lexicographic(c[j].1, c[k].1);
                        }
                        assert forall|j: int| k < j < c.len() implies key_lt(
                            #[trigger] c[j].1,
                            c[k].1,
                        ) by {
                            if j < n {
                                assert(c[j] == d[j]);
                            }
                        }
                        assert(c[k] == d[k]);
                    }
                }
            },
        }
    }
}

/// Picks the latest stable release from the output of
/// `git ls-remote --tags --refs origin`: of the lines whose second field is
/// `refs/tags/<tag>` with `<tag>` a stable tag, the greatest by key, the
/// last one on ties.
pub fn resolve_latest_stable_tag(ls_remote_output: &str) -> (res: Result<String, ClawyerError>)
    ensures
        match latest_tag(remote_stable_tags(lines(ls_remote_output@))) {
            Some(best) => res matches Ok(t) && t@ == best.0,
            None => res == Err::<String, ClawyerError>(ClawyerError::NoStableTag),
        },
        res matches Ok(t) ==> exists|i: int|
            #[trigger] greatest_at(remote_stable_tags(lines(ls_remote_output@)), i)
                && remote_stable_tags(lines(ls_remote_output@))[i].0 == t@,
{
    let s = chars_of(ls_remote_output);
    let spans = line_spans(&s);
    let pre = vec!['r', 'e', 'f', 's', '/', 't', 'a', 'g', 's', '/'];
    assert(pre@ =~= refs_tags_prefix());
    let ghost ls = lines(s@);
    let mut best: Option<(usize, usize, TagKey)> = None;
    let mut k: usize = 0;
    while k < spans.len()
        invariant
            s@ == ls_remote_output@,
            ls == lines(s@),
            pre@ == refs_tags_prefix(),
            spans.len() == ls.len(),
            forall|j: int|
                0 <= j < spans.len() ==> (#[trigger] spans[j]).0 <= spans[j].1 <= s.len()
                    && s@.subrange(spans[j].0 as int, spans[j].1 as int) == ls[j],
            k <= spans.len(),
            match latest_tag(remote_stable_tags(ls.take(k as int))) {
                None => best is None,
                Some(b) => best matches Some((x, y, key)) && x <= y <= s.len() && s@.subrange(
                    x as int,
                    y as int,
                ) == b.0 && key == b.1,
            },
        decreases spans.len() - k,
    {
        let (lo, hi) = spans[k];
        let ghost l = ls[k as int];
        proof {
            assert(ls.take(k + 1).drop_last() =~= ls.take(k as int));
            assert(ls.take(k + 1).last() == l);
        }
        let ghost prev = remote_stable_tags(ls.take(k as int));
        let ghost cur = remote_stable_tags(ls.take(k + 1));
        match nth_field(&s, lo, hi, 1) {
            Some((a, b)) => {
                let ghost f = fields(l);
                if b - a >= pre.len() && matches_at(&s, b, a, &pre) {
                    proof {
                        assert(f[1].take(pre@.len() as int) =~= s@.subrange(
                            a as int,
                            a + pre@.len(),
                        ));
                        assert(f[1].skip(pre@.len() as int) =~= s@.subrange(
                            a + pre@.len(),
                            b as int,
                        ));
                        assert(remote_tag_name(l) == Some(s@.subrange(a + pre@.len(), b as int)));
                    }
                    match stable_key_in(&s, a + pre.len(), b) {
                        Some(key) => {
                            let ghost name = s@.subrange(a + pre@.len(), b as int);
                            assert(cur == prev.push((name, key)));
                            assert(prev.push((name, key)).drop_last() =~= prev);
                            let replace = match best {
                                None => true,
                                Some((_, _, bk)) => tag_key_le(bk, key),
                            };
                            if replace {
                                best = Some((a + pre.len(), b, key));
                            }
                        },
                        None => {
                            assert(cur == prev);
                        },
                    }
                } else {
                    proof {
                        if f[1].len() >= pre@.len() && f[1].take(pre@.len() as int) == pre@ {
                            assert(f[1].take(pre@.len() as int) =~= s@.subrange(
                                a as int,
                                a + pre@.len(),
                            ));
                        }
                        assert(remote_tag_name(l) is None);
                        assert(cur == prev);
                    }
                }
            },
            None => {
                assert(remote_tag_name(l) is None);
                assert(cur == prev);
            },
        }
        k += 1;
    }
    assert(ls.take(k as int) =~= ls);
    proof {
        let c = remote_stable_tags(ls);
        lemma_latest_tag(c);
    }
    match best {
        Some((x, y, _)) => Ok(string_of(&s, x, y)),
        None => Err(ClawyerError::NoStableTag),
    }
}

pub open spec fn rename_arrow() -> Seq<char> {
    seq![' ', '-', '>', ' ']
}

/// `l` splits, as bytes, after its third byte at character index `k`.
pub open spec fn splits_at_byte3(l: Seq<char>, k: int) -> bool {
    0 <= k <= l.len() && utf8_len(l.take(k)) == 3
}

/// A status line of four bytes or more, whose third byte ends a character.
pub open spec fn status_line_well_formed(l: Seq<char>) -> bool {
    utf8_len(l) >= 4 ==> exists|k: int| splits_at_byte3(l, k)
}

/// The path that a `git status --porcelain=v1` line names: the text after
/// its third byte, after its last ` -> ` if it is a rename, trimmed.
pub open spec fn status_line_path(l: Seq<char>) -> Seq<char> {
    let k = choose|k: int| splits_at_byte3(l, k);
    trim(last_split_piece(l.skip(k), rename_arrow()))
}

/// The paths that the lines name, skipping lines shorter than four bytes;
/// or the first line that names none.
pub open spec fn dirty_paths_of(ls: Seq<Seq<char>>) -> Result<Seq<Seq<char>>, Seq<char>>
    decreases ls.len(),
{
    if ls.len() == 0 {
        Ok(seq![])
    } else {
        match dirty_paths_of(ls.drop_last()) {
            Err(l) => Err(l),
            Ok(v) => {
                let l = ls.last();
                if utf8_len(l) < 4 {
                    Ok(v)
                } else if status_line_path(l).len() == 0 {
                    Err(l)
                } else {
                    Ok(v.push(status_line_path(l)))
                }
            },
        }
    }
}

/// An error on a prefix of the lines is the error on all of them.
proof fn lemma_dirty_paths_err_prefix(ls: Seq<Seq<char>>, m: int)
    requires
        0 <= m <= ls.len(),
        dirty_paths_of(ls.take(m)) is Err,
    ensures
        dirty_paths_of(ls) == dirty_paths_of(ls.take(m)),
    decreases ls.len() - m,
{
    if m == ls.len() {
        assert(ls.take(m) =~= ls);
    } else {
        assert(ls.take(m + 1).drop_last() =~= ls.take(m));
        lemma_dirty_paths_err_prefix(ls, m + 1);
    }
}

/// A status line of four bytes or more.
pub open spec fn long_status_line() -> spec_fn(Seq<char>) -> bool {
    |l: Seq<char>| utf8_len(l) >= 4
}

/// Reading one more status line: a line shorter than four bytes adds
/// nothing; any longer line adds its path at the end, whatever its status
/// letters say (modified, added, deleted, renamed, untracked); a longer line
/// that names no path is the error.
pub proof fn lemma_dirty_paths_step(ls: Seq<Seq<char>>, l: Seq<char>)
    requires
        dirty_paths_of(ls) is Ok,
    ensures
        utf8_len(l) < 4 ==> dirty_paths_of(ls.push(l)) == dirty_paths_of(ls),
        utf8_len(l) >= 4 && status_line_path(l).len() > 0 ==> dirty_paths_of(ls.push(l)) == Ok::<
            Seq<Seq<char>>,
            Seq<char>,
        >(dirty_paths_of(ls)->Ok_0.push(status_line_path(l))),
        utf8_len(l) >= 4 && status_line_path(l).len() == 0 ==> dirty_paths_of(ls.push(l)) == Err::<
            Seq<Seq<char>>,
            Seq<char>,
        >(l),
{
    assert(ls.push(l).drop_last() =~= ls);
}

/// Without an error there is exactly one path per line of four bytes or
/// more: no line is skipped for what it reports.
pub proof fn lemma_dirty_paths_count(ls: Seq<Seq<char>>)
    ensures
        dirty_paths_of(ls) matches Ok(p) ==> p.len() == ls.filter(long_status_line()).len(),
    decreases ls.len(),
{
    if ls.len() == 0 {
        assert(ls.filter(long_status_line()) =~= ls) by {
            reveal(Seq::filter);
        }
    } else {
        let d = ls.drop_last();
        lemma_dirty_paths_count(d);
        assert(ls =~= d.push(ls.last()));
        d.lemma_filter_push(ls.last(), long_status_line());
    }
}

/// In a line whose first three characters are ASCII, as the status letters
/// and the space of `git status --porcelain` are, the path is the text after
/// them (after its last ` -> `, trimmed); when that text has no ` -> ` and
/// no surrounding whitespace, it is the path as it stands.
pub proof fn lemma_status_path_ascii(l: Seq<char>)
    requires
        l.len() >= 3,
        '\u{80}' > l[0],
        '\u{80}' > l[1],
        '\u{80}' > l[2],
    ensures
        status_line_path(l) == trim(last_split_piece(l.skip(3), rename_arrow())),
        l.len() > 3 && !is_space(l[3]) && !is_space(l.last()) && (forall|k: int|
            !occurs_at(l.skip(3), rename_arrow(), k)) ==> status_line_path(l) == l.skip(3),
{
    assert(l.take(0) =~= Seq::<char>::empty());
    lemma_utf8_len_take_step(l, 0);
    lemma_utf8_len_take_step(l, 1);
    lemma_utf8_len_take_step(l, 2);
    assert(splits_at_byte3(l, 3));
    let w = choose|m: int| splits_at_byte3(l, m);
    assert(splits_at_byte3(l, w));
    if w > 3 {
        lemma_utf8_len_monotone(l, 3, w);
    }
    assert(w == 3);
    let u = l.skip(3);
    if l.len() > 3 && !is_space(l[3]) && !is_space(l.last()) && (forall|k: int|
        !occurs_at(u, rename_arrow(), k)) {
        lemma_first_occurrence(u, rename_arrow(), 0, u.len() as int);
        assert(u.skip(0) =~= u);
        assert(last_split_piece(u, rename_arrow()) == u);
        assert(u[0] == l[3]);
        assert(u[u.len() - 1] == l.last());
        lemma_strip_start_skip(u, Delim::Whitespace, 0);
        lemma_strip_end_take(u, Delim::Whitespace, u.len() as int);
        assert(u.take(u.len() as int) =~= u);
    }
}

/// Where the path of the status line `s[lo..hi]` starts, or `None` for a
/// line shorter than four bytes.
fn status_path_start(s: &Vec<char>, lo: usize, hi: usize) -> (res: Option<usize>)
    requires
        lo <= hi <= s.len(),
        status_line_well_formed(s@.subrange(lo as int, hi as int)),
    ensures
        match res {
            None => utf8_len(s@.subrange(lo as int, hi as int)) < 4,
            Some(p) => utf8_len(s@.subrange(lo as int, hi as int)) >= 4 && lo <= p <= hi && p - lo
                == choose|k: int| splits_at_byte3(s@.subrange(lo as int, hi as int), k),
        },
{
    let ghost l = s@.subrange(lo as int, hi as int);
    let mut acc: usize = 0;
    let mut k = lo;
    assert(l.take(0) =~= Seq::<char>::empty());
    while k < hi && acc < 4
        invariant
            lo <= k <= hi <= s.len(),
            l == s@.subrange(lo as int, hi as int),
            acc == utf8_len(l.take(k - lo)),
            acc < 8,
        decreases hi - k,
    {
        proof {
            lemma_utf8_len_take_step(l, k - lo);
        }
        acc = acc + utf8_width_of(s[k]);
        k += 1;
    }
    if acc < 4 {
        assert(l.take(k - lo) =~= l);
        return None;
    }
    proof {
        lemma_utf8_len_monotone(l, k - lo, l.len() as int);
        assert(l.take(l.len() as int) =~= l);
    }
    let mut acc2: usize = 0;
    let mut j = lo;
    while acc2 < 3
        invariant
            lo <= j <= hi <= s.len(),
            l == s@.subrange(lo as int, hi as int),
            utf8_len(l) >= 4,
            acc2 == utf8_len(l.take(j - lo)),
            acc2 < 7,
            forall|m: int| 0 <= m < j - lo ==> utf8_len(#[trigger] l.take(m)) < 3,
        decreases hi - j,
    {
        if j == hi {
            assert(l.take(j - lo) =~= l);
            assert(false);
        }
        proof {
            lemma_utf8_len_take_step(l, j - lo);
        }
        acc2 = acc2 + utf8_width_of(s[j]);
        j += 1;
    }
    proof {
        let w = choose|m: int| splits_at_byte3(l, m);
        assert(splits_at_byte3(l, w));
        if w < j - lo {
            assert(utf8_len(l.take(w)) < 3);
        } else if w > j - lo {
            lemma_utf8_len_monotone(l, j - lo, w);
        }
        assert(w == j - lo);
    }
    Some(j)
}

/// The lines that `collect_dirty_paths` reads can all be cut after their
/// third byte: every line up to and including the first one that names no
/// path (every line, when none fails).
pub open spec fn status_lines_readable(ls: Seq<Seq<char>>) -> bool
    decreases ls.len(),
{
    if ls.len() == 0 {
        true
    } else {
        status_lines_readable(ls.drop_last()) && (dirty_paths_of(ls.drop_last()) is Err
            || status_line_well_formed(ls.last()))
    }
}

proof fn lemma_readable_prefix(ls: Seq<Seq<char>>, m: int)
    requires
        0 <= m <= ls.len(),
        status_lines_readable(ls),
    ensures
        status_lines_readable(ls.take(m)),
    decreases ls.len() - m,
{
    if m == ls.len() {
        assert(ls.take(m) =~= ls);
    } else {
        lemma_readable_prefix(ls, m + 1);
        assert(ls.take(m + 1).drop_last() =~= ls.take(m));
    }
}

/// Lines after the first one that names no path are never read.
proof fn lemma_readable_after_err(ls: Seq<Seq<char>>, m: int)
    requires
        0 <= m <= ls.len(),
        status_lines_readable(ls.take(m)),
        dirty_paths_of(ls.take(m)) is Err,
    ensures
        status_lines_readable(ls),
    decreases ls.len() - m,
{
    if m == ls.len() {
        assert(ls.take(m) =~= ls);
    } else {
        assert(ls.take(m + 1).drop_last() =~= ls.take(m));
        lemma_readable_after_err(ls, m + 1);
    }
}

/// Whether the line `s[lo..hi]` is shorter than four bytes or splits after
/// its third byte.
fn line_well_formed(s: &Vec<char>, lo: usize, hi: usize) -> (b: bool)
    requires
        lo <= hi <= s.len(),
    ensures
        b == status_line_well_formed(s@.subrange(lo as int, hi as int)),
{
    let ghost l = s@.subrange(lo as int, hi as int);
    let mut acc: usize = 0;
    let mut j = lo;
    assert(l.take(0) =~= Seq::<char>::empty());
    while j < hi && acc < 3
        invariant
            lo <= j <= hi <= s.len(),
            l == s@.subrange(lo as int, hi as int),
            acc == utf8_len(l.take(j - lo)),
            acc < 7,
            forall|m: int| 0 <= m < j - lo ==> utf8_len(#[trigger] l.take(m)) < 3,
        decreases hi - j,
    {
        proof {
            lemma_utf8_len_take_step(l, j - lo);
        }
        acc = acc + utf8_width_of(s[j]);
        j += 1;
    }
    if acc == 3 {
        assert(splits_at_byte3(l, j - lo));
        return true;
    }
    // no prefix of exactly three bytes: the line must be shorter than four bytes
    let mut total = acc;
    let mut m = j;
    while m < hi && total < 4
        invariant
            lo <= j <= m <= hi <= s.len(),
            l == s@.subrange(lo as int, hi as int),
            total == utf8_len(l.take(m - lo)),
            total < 8,
        decreases hi - m,
    {
        proof {
            lemma_utf8_len_take_step(l, m - lo);
        }
        total = total + utf8_width_of(s[m]);
        m += 1;
    }
    proof {
        assert forall|w: int| !splits_at_byte3(l, w) by {
            if 0 <= w <= l.len() {
                if w < j - lo {
                } else if w >= j - lo {
                    if acc < 3 {
                        assert(j == hi);
                        assert(l.take(j - lo) =~= l);
                        assert(w == l.len());
                    } else {
                        lemma_utf8_len_monotone(l, j - lo, w);
                    }
                }
            }
        }
    }
    if total >= 4 {
        proof {
            lemma_utf8_len_monotone(l, m - lo, l.len() as int);
            assert(l.take(l.len() as int) =~= l);
        }
        return false;
    }
    assert(l.take(m - lo) =~= l);
    true
}

/// Bounds of the path that the status line `s[lo..hi]` names, or `None` for
/// a line shorter than four bytes.
fn line_path_span(s: &Vec<char>, lo: usize, hi: usize, arrow: &Vec<char>) -> (res: Option<
    (usize, usize),
>)
    requires
        lo <= hi <= s.len(),
        arrow@ == rename_arrow(),
        status_line_well_formed(s@.subrange(lo as int, hi as int)),
    ensures
        match res {
            None => utf8_len(s@.subrange(lo as int, hi as int)) < 4,
            Some((a, b)) => utf8_len(s@.subrange(lo as int, hi as int)) >= 4 && lo <= a <= b <= hi
                && s@.subrange(a as int, b as int) == status_line_path(
                s@.subrange(lo as int, hi as int),
            ),
        },
{
    let ghost l = s@.subrange(lo as int, hi as int);
    match status_path_start(s, lo, hi) {
        None => None,
        Some(p) => {
            let ps = last_piece_start(s, p, hi, arrow);
            let (a, b) = trim_span(s, ps, hi, Delim::Whitespace);
            proof {
                let w = choose|m: int| splits_at_byte3(l, m);
                assert(l.skip(w) =~= s@.subrange(p as int, hi as int));
            }
            Some((a, b))
        },
    }
}

/// Whether `collect_dirty_paths` can read `status_output`: every line up to
/// and including the first one that names no path can be cut after its
/// third byte.
pub fn status_output_well_formed(status_output: &str) -> (b: bool)
    ensures
        b == status_lines_readable(lines(status_output@)),
{
    let s = chars_of(status_output);
    let spans = line_spans(&s);
    let arrow = vec![' ', '-', '>', ' '];
    assert(arrow@ =~= rename_arrow());
    let ghost ls = lines(s@);
    let mut k: usize = 0;
    assert(ls.take(0) =~= Seq::<Seq<char>>::empty());
    while k < spans.len()
        invariant
            s@ == status_output@,
            ls == lines(s@),
            arrow@ == rename_arrow(),
            spans.len() == ls.len(),
            forall|j: int|
                0 <= j < spans.len() ==> (#[trigger] spans[j]).0 <= spans[j].1 <= s.len()
                    && s@.subrange(spans[j].0 as int, spans[j].1 as int) == ls[j],
            k <= spans.len(),
            status_lines_readable(ls.take(k as int)),
            dirty_paths_of(ls.take(k as int)) is Ok,
        decreases spans.len() - k,
    {
        let (lo, hi) = spans[k];
        let ghost l = ls[k as int];
        proof {
            assert(ls.take(k + 1).drop_last() =~= ls.take(k as int));
            assert(ls.take(k + 1).last() == l);
        }
        if !line_well_formed(&s, lo, hi) {
            proof {
                if status_lines_readable(ls) {
                    lemma_readable_prefix(ls, k + 1);
                }
            }
            return false;
        }
        match line_path_span(&s, lo, hi, &arrow) {
            None => {},
            Some((a, b)) => {
                if a == b {
                    proof {
                        lemma_readable_after_err(ls, k + 1);
                    }
                    return true;
                }
            },
        }
        k += 1;
    }
    assert(ls.take(k as int) =~= ls);
    true
}

/// The paths that `git status --porcelain=v1 --untracked-files=all` reports
/// as changed, in order: each line of four bytes or more names one (for a
/// rename, its new name); shorter lines are skipped. A line that names no
/// path is an error, and the lines after it are not read.
pub fn collect_dirty_paths(status_output: &str) -> (res: Result<Vec<String>, ClawyerError>)
    requires
        status_lines_readable(lines(status_output@)),
    ensures
        match dirty_paths_of(lines(status_output@)) {
            Ok(paths) => res matches Ok(v) && v.deep_view() == paths,
            Err(l) => res matches Err(ClawyerError::UnparsableStatusLine { line }) && line@ == l,
        },
{
    let s = chars_of(status_output);
    let spans = line_spans(&s);
    let arrow = vec![' ', '-', '>', ' '];
    assert(arrow@ =~= rename_arrow());
    let ghost ls = lines(s@);
    let mut out: Vec<String> = Vec::new();
    let mut k: usize = 0;
    assert(ls.take(0) =~= Seq::<Seq<char>>::empty());
    assert(out.deep_view() =~= Seq::<Seq<char>>::empty());
    while k < spans.len()
        invariant
            s@ == status_output@,
            ls == lines(s@),
            arrow@ == rename_arrow(),
            spans.len() == ls.len(),
            forall|j: int|
                0 <= j < spans.len() ==> (#[trigger] spans[j]).0 <= spans[j].1 <= s.len()
                    && s@.subrange(spans[j].0 as int, spans[j].1 as int) == ls[j],
            status_lines_readable(ls),
            k <= spans.len(),
            dirty_paths_of(ls.take(k as int)) == Ok::<Seq<Seq<char>>, Seq<char>>(out.deep_view()),
        decreases spans.len() - k,
    {
        let (lo, hi) = spans[k];
        let ghost l = ls[k as int];
        proof {
            assert(ls.take(k + 1).drop_last() =~= ls.take(k as int));
            assert(ls.take(k + 1).last() == l);
            lemma_readable_prefix(ls, k + 1);
        }
        match line_path_span(&s, lo, hi, &arrow) {
            None => {},
            Some((a, b)) => {
                if a == b {
                    let line = string_of(&s, lo, hi);
                    proof {
                        lemma_dirty_paths_err_prefix(ls, k + 1);
                    }
                    return Err(ClawyerError::UnparsableStatusLine { line });
                }
                let path = string_of(&s, a, b);
                let ghost before = out.deep_view();
                out.push(path);
                assert(out.deep_view() =~= before.push(status_line_path(l)));
            },
        }
        k += 1;
    }
    assert(ls.take(k as int) =~= ls);
    Ok(out)
}

} // verus!
