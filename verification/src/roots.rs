//! The local roots that an upgrade keeps: clawyer's own crate and the
//! custom skills that upstream does not ship.
use vstd::prelude::*;

use crate::commands::push_str;
use crate::text::{chars_of, range_eq};

verus! {

/// Lexicographic order on text, character by character; a proper prefix
/// comes first. For text of whole path components this is the order of
/// their UTF-8 bytes, which is how paths of one component each compare.
pub open spec fn text_lt(a: Seq<char>, b: Seq<char>) -> bool
    decreases a.len(),
{
    if a.len() == 0 {
        b.len() > 0
    } else if b.len() == 0 {
        false
    } else if a[0] != b[0] {
        a[0] < b[0]
    } else {
        text_lt(a.drop_first(), b.drop_first())
    }
}

/// `x` put into `sorted` before the first element that is not smaller,
/// unless it meets an equal element first.
pub open spec fn insert_unique(sorted: Seq<Seq<char>>, x: Seq<char>) -> Seq<Seq<char>>
    decreases sorted.len(),
{
    if sorted.len() == 0 {
        seq![x]
    } else if sorted[0] == x {
        sorted
    } else if text_lt(x, sorted[0]) {
        seq![x] + sorted
    } else {
        seq![sorted[0]] + insert_unique(sorted.drop_first(), x)
    }
}

/// `s` sorted with duplicates removed (`sort` then `dedup`).
pub open spec fn sort_unique(s: Seq<Seq<char>>) -> Seq<Seq<char>>
    decreases s.len(),
{
    if s.len() == 0 {
        seq![]
    } else {
        insert_unique(sort_unique(s.drop_last()), s.last())
    }
}

pub open spec fn strictly_sorted(s: Seq<Seq<char>>) -> bool {
    forall|i: int, j: int| 0 <= i < j < s.len() ==> text_lt(#[trigger] s[i], #[trigger] s[j])
}

/// A single path component, as a directory entry's name always is.
pub open spec fn plain_name(n: Seq<char>) -> bool {
    &&& n.len() > 0
    &&& !n.contains('/')
    &&& n != seq!['.']
    &&& n != seq!['.', '.']
}

pub open spec fn skill_root(n: Seq<char>) -> Seq<char> {
    "skills/"@ + n
}

pub open spec fn clawyer_crate_root() -> Seq<char> {
    "crates/clawyer"@
}

// ---------------------------------------------------------------------------
// The order and the sort
// ---------------------------------------------------------------------------

pub proof fn lemma_text_lt_irreflexive(a: Seq<char>)
    ensures
        !text_lt(a, a),
    decreases a.len(),
{
    if a.len() > 0 {
        lemma_text_lt_irreflexive(a.drop_first());
    }
}

pub proof fn lemma_text_lt_transitive(a: Seq<char>, b: Seq<char>, c: Seq<char>)
    requires
        text_lt(a, b),
        text_lt(b, c),
    ensures
        text_lt(a, c),
    decreases a.len(),
{
    if a.len() > 0 && b.len() > 0 && c.len() > 0 && a[0] == b[0] && b[0] == c[0] {
        lemma_text_lt_transitive(a.drop_first(), b.drop_first(), c.drop_first());
    }
}

pub proof fn lemma_text_lt_total(a: Seq<char>, b: Seq<char>)
    ensures
        a == b || text_lt(a, b) || text_lt(b, a),
    decreases a.len(),
{
    if a.len() > 0 && b.len() > 0 && a[0] == b[0] {
        lemma_text_lt_total(a.drop_first(), b.drop_first());
        if a.drop_first() == b.drop_first() {
            assert(a =~= seq![a[0]] + a.drop_first());
            assert(b =~= seq![b[0]] + b.drop_first());
        }
    } else if a.len() == 0 && b.len() == 0 {
        assert(a =~= b);
    }
}

pub proof fn lemma_text_lt_asymmetric(a: Seq<char>, b: Seq<char>)
    requires
        text_lt(a, b),
    ensures
        !text_lt(b, a),
{
    if text_lt(b, a) {
        lemma_text_lt_transitive(a, b, a);
        lemma_text_lt_irreflexive(a);
    }
}

proof fn lemma_insert_unique(sorted: Seq<Seq<char>>, x: Seq<char>)
    requires
        strictly_sorted(sorted),
    ensures
        strictly_sorted(insert_unique(sorted, x)),
        insert_unique(sorted, x).to_set() == sorted.to_set().insert(x),
    decreases sorted.len(),
{
    let r = insert_unique(sorted, x);
    if sorted.len() == 0 {
        assert(r.to_set() =~= sorted.to_set().insert(x)) by {
            assert(r =~= seq![x]);
            assert forall|y| r.to_set().contains(y) <==> sorted.to_set().insert(x).contains(y) by {
                if y == x {
                    assert(r[0] == x);
                }
            }
        }
    } else if sorted[0] == x {
        assert(r.to_set() =~= sorted.to_set().insert(x)) by {
            assert(sorted.contains(x));
        }
    } else if text_lt(x, sorted[0]) {
        assert forall|i: int, j: int| 0 <= i < j < r.len() implies text_lt(
            #[trigger] r[i],
            #[trigger] r[j],
        ) by {
            if i == 0 {
                if j > 1 {
                    lemma_text_lt_transitive(x, sorted[0], sorted[j - 1]);
                }
            } else {
                assert(r[i] == sorted[i - 1] && r[j] == sorted[j - 1]);
            }
        }
        assert(r.to_set() =~= sorted.to_set().insert(x)) by {
            assert forall|y| r.to_set().contains(y) <==> sorted.to_set().insert(x).contains(y) by {
                if r.contains(y) {
                    let i = choose|i: int| 0 <= i < r.len() && r[i] == y;
                    if i > 0 {
                        assert(sorted[i - 1] == y);
                    }
                }
                if sorted.contains(y) {
                    let i = choose|i: int| 0 <= i < sorted.len() && sorted[i] == y;
                    assert(r[i + 1] == y);
                }
                if y == x {
                    assert(r[0] == x);
                }
            }
        }
    } else {
        let tail = sorted.drop_first();
        assert(strictly_sorted(tail)) by {
            assert forall|i: int, j: int| 0 <= i < j < tail.len() implies text_lt(
                #[trigger] tail[i],
                #[trigger] tail[j],
            ) by {
                assert(tail[i] == sorted[i + 1] && tail[j] == sorted[j + 1]);
            }
        }
        lemma_insert_unique(tail, x);
        let t2 = insert_unique(tail, x);
        lemma_text_lt_total(x, sorted[0]);
        assert(text_lt(sorted[0], x));
        assert forall|i: int, j: int| 0 <= i < j < r.len() implies text_lt(
            #[trigger] r[i],
            #[trigger] r[j],
        ) by {
            if i == 0 {
                let y = t2[j - 1];
                assert(t2.to_set().contains(y));
                assert(tail.to_set().insert(x).contains(y));
                if y != x {
                    let k = choose|k: int| 0 <= k < tail.len() && tail[k] == y;
                    assert(sorted[k + 1] == y);
                }
            } else {
                assert(r[i] == t2[i - 1] && r[j] == t2[j - 1]);
            }
        }
        assert(r.to_set() =~= sorted.to_set().insert(x)) by {
            assert(sorted =~= seq![sorted[0]] + tail);
            assert forall|y| r.to_set().contains(y) <==> sorted.to_set().insert(x).contains(y) by {
                if r.contains(y) {
                    let i = choose|i: int| 0 <= i < r.len() && r[i] == y;
                    if i > 0 {
                        assert(t2[i - 1] == y);
                        assert(t2.to_set().contains(y));
                        if y != x {
                            let k = choose|k: int| 0 <= k < tail.len() && tail[k] == y;
                            assert(sorted[k + 1] == y);
                        }
                    }
                }
                if sorted.contains(y) {
                    let i = choose|i: int| 0 <= i < sorted.len() && sorted[i] == y;
                    if i > 0 {
                        assert(tail[i - 1] == y);
                        assert(tail.to_set().insert(x).contains(y));
                        assert(t2.contains(y));
                        let k = choose|k: int| 0 <= k < t2.len() && t2[k] == y;
                        assert(r[k + 1] == y);
                    } else {
                        assert(r[0] == y);
                    }
                }
                if y == x {
                    assert(tail.to_set().insert(x).contains(x));
                    assert(t2.contains(x));
                    let k = choose|k: int| 0 <= k < t2.len() && t2[k] == x;
                    assert(r[k + 1] == x);
                }
            }
        }
    }
}

/// What `sort` then `dedup` promise: the result is in strictly increasing
/// order and holds exactly the elements of the input.
pub proof fn lemma_sort_unique(s: Seq<Seq<char>>)
    ensures
        strictly_sorted(sort_unique(s)),
        sort_unique(s).to_set() == s.to_set(),
    decreases s.len(),
{
    if s.len() == 0 {
        assert(sort_unique(s).to_set() =~= s.to_set());
    } else {
        lemma_sort_unique(s.drop_last());
        lemma_insert_unique(sort_unique(s.drop_last()), s.last());
        assert(s =~= s.drop_last().push(s.last()));
        assert(s.to_set() =~= s.drop_last().to_set().insert(s.last())) by {
            assert forall|y| s.to_set().contains(y) <==> s.drop_last().to_set().insert(
                s.last(),
            ).contains(y) by {
                if s.contains(y) {
                    let i = choose|i: int| 0 <= i < s.len() && s[i] == y;
                    if i < s.len() - 1 {
                        assert(s.drop_last()[i] == y);
                    }
                }
                if s.drop_last().contains(y) {
                    let i = choose|i: int| 0 <= i < s.drop_last().len() && s.drop_last()[i] == y;
                    assert(s[i] == y);
                }
                if y == s.last() {
                    assert(s[s.len() - 1] == y);
                }
            }
        }
    }
}

// ---------------------------------------------------------------------------
// Executable
// ---------------------------------------------------------------------------

/// `text_lt(a, b)`.
pub fn text_less(a: &Vec<char>, b: &Vec<char>) -> (r: bool)
    ensures
        r == text_lt(a@, b@),
{
    let mut i: usize = 0;
    assert(a@.skip(0) =~= a@ && b@.skip(0) =~= b@);
    while i < a.len() && i < b.len() && a[i] == b[i]
        invariant
            i <= a.len(),
            i <= b.len(),
            text_lt(a@, b@) == text_lt(a@.skip(i as int), b@.skip(i as int)),
        decreases a.len() - i,
    {
        assert(a@.skip(i as int).drop_first() =~= a@.skip(i + 1));
        assert(b@.skip(i as int).drop_first() =~= b@.skip(i + 1));
        i += 1;
    }
    if i == a.len() {
        i < b.len()
    } else if i == b.len() {
        false
    } else {
        assert(a@.skip(i as int)[0] == a@[i as int]);
        assert(b@.skip(i as int)[0] == b@[i as int]);
        a[i] < b[i]
    }
}

proof fn lemma_chars_deep_view(v: Vec<char>)
    ensures
        v.deep_view() == v@,
{
    assert(v.deep_view() =~= v@);
}

proof fn lemma_insert_unique_skip(s: Seq<Seq<char>>, x: Seq<char>, pos: int)
    requires
        0 <= pos <= s.len(),
        forall|j: int| 0 <= j < pos ==> #[trigger] s[j] != x && !text_lt(x, s[j]),
    ensures
        insert_unique(s, x) == s.take(pos) + insert_unique(s.skip(pos), x),
    decreases pos,
{
    if pos == 0 {
        assert(s.skip(0) =~= s);
        assert(s.take(0) + insert_unique(s, x) =~= insert_unique(s, x));
    } else {
        let t = s.drop_first();
        assert forall|j: int| 0 <= j < pos - 1 implies #[trigger] t[j] != x && !text_lt(x, t[j]) by {
            assert(t[j] == s[j + 1]);
        }
        lemma_insert_unique_skip(t, x, pos - 1);
        assert(s[0] != x && !text_lt(x, s[0]));
        assert(t.skip(pos - 1) =~= s.skip(pos));
        assert(seq![s[0]] + t.take(pos - 1) =~= s.take(pos));
    }
}

/// The names sorted, without duplicates.
fn sorted_unique_names(names: &Vec<String>) -> (res: Vec<Vec<char>>)
    ensures
        res.deep_view() == sort_unique(names.deep_view()),
{
    let ghost ns = names.deep_view();
    let mut sorted: Vec<Vec<char>> = Vec::new();
    let mut k: usize = 0;
    assert(sorted.deep_view() =~= sort_unique(ns.take(0)));
    while k < names.len()
        invariant
            ns == names.deep_view(),
            k <= names.len(),
            sorted.deep_view() == sort_unique(ns.take(k as int)),
        decreases names.len() - k,
    {
        let x = chars_of(names[k].as_str());
        let ghost s = sorted.deep_view();
        proof {
            assert(ns.take(k + 1).drop_last() =~= ns.take(k as int));
            assert(ns.take(k + 1).last() == x@);
        }
        let mut pos: usize = 0;
        let mut stop = false;
        while pos < sorted.len() && !stop
            invariant
                s == sorted.deep_view(),
                pos <= sorted.len(),
                stop ==> pos < sorted.len() && (s[pos as int] == x@ || text_lt(x@, s[pos as int])),
                forall|j: int| 0 <= j < pos ==> #[trigger] s[j] != x@ && !text_lt(x@, s[j]),
            decreases sorted.len() - pos + (if stop { 0int } else { 1int }),
        {
            proof {
                lemma_chars_deep_view(sorted[pos as int]);
                assert(s[pos as int] == sorted@[pos as int].deep_view());
            }
            assert(sorted[pos as int]@.subrange(0, sorted[pos as int]@.len() as int) =~= sorted[
                pos as int
            ]@);
            if range_eq(&sorted[pos], 0, sorted[pos].len(), &x) || text_less(&x, &sorted[pos]) {
                stop = true;
            } else {
                pos += 1;
            }
        }
        proof {
            lemma_insert_unique_skip(s, x@, pos as int);
        }
        proof {
            if pos < sorted.len() {
                lemma_chars_deep_view(sorted[pos as int]);
                assert(s[pos as int] == sorted@[pos as int].deep_view());
                assert(sorted[pos as int]@.subrange(0, sorted[pos as int]@.len() as int) =~= sorted[
                    pos as int
                ]@);
            }
        }
        let found = pos < sorted.len() && range_eq(&sorted[pos], 0, sorted[pos].len(), &x);
        if !found {
            let ghost before = sorted.deep_view();
            let ghost xv = x@;
            proof {
                lemma_chars_deep_view(x);
            }
            sorted.insert(pos, x);
            proof {
                let rest = before.skip(pos as int);
                if pos < before.len() {
                    assert(rest[0] == before[pos as int]);
                    assert(insert_unique(rest, xv) == seq![xv] + rest);
                } else {
                    assert(rest =~= Seq::<Seq<char>>::empty());
                    assert(insert_unique(rest, xv) == seq![xv]);
                }
                assert(sorted.deep_view() =~= before.take(pos as int) + seq![xv] + rest);
                assert(sorted.deep_view() =~= before.take(pos as int) + insert_unique(rest, xv));
            }
        } else {
            proof {
                assert(s.skip(pos as int)[0] == s[pos as int]);
                assert(s.take(pos as int) + s.skip(pos as int) =~= s);
            }
        }
        k += 1;
    }
    assert(ns.take(k as int) =~= ns);
    sorted
}

/// The roots that an upgrade keeps: `crates/clawyer` when the checkout has
/// it, then `skills/<name>` for each custom skill, sorted and without
/// duplicates.
pub fn preserved_roots(has_clawyer_crate: bool, custom_skills: &Vec<String>) -> (res: Vec<String>)
    requires
        forall|i: int| 0 <= i < custom_skills.len() ==> plain_name(#[trigger] custom_skills@[i]@),
    ensures
        res.deep_view() == (if has_clawyer_crate {
            seq![clawyer_crate_root()]
        } else {
            Seq::<Seq<char>>::empty()
        }) + sort_unique(custom_skills.deep_view()).map_values(|n: Seq<char>| skill_root(n)),
{
    let sorted = sorted_unique_names(custom_skills);
    let ghost su = sort_unique(custom_skills.deep_view());
    let mut out: Vec<String> = Vec::new();
    if has_clawyer_crate {
        push_str(&mut out, "crates/clawyer");
    }
    let ghost head = out.deep_view();
    let mut i: usize = 0;
    while i < sorted.len()
        invariant
            su == sort_unique(custom_skills.deep_view()),
            sorted.deep_view() == su,
            i <= sorted.len(),
            out.deep_view() == head + su.take(i as int).map_values(|n: Seq<char>| skill_root(n)),
        decreases sorted.len() - i,
    {
        let mut root = "skills/".to_owned();
        let mut j: usize = 0;
        let ghost start = root@;
        while j < sorted[i].len()
            invariant
                i < sorted.len(),
                j <= sorted[i as int].len(),
                root@ == start + sorted[i as int]@.take(j as int),
            decreases sorted[i as int].len() - j,
        {
            crate::text::push_char(&mut root, sorted[i][j]);
            assert(sorted[i as int]@.take(j + 1) =~= sorted[i as int]@.take(j as int).push(
                sorted[i as int]@[j as int],
            ));
            j += 1;
        }
        assert(sorted[i as int]@.take(j as int) =~= sorted[i as int]@);
        let ghost before = out.deep_view();
        out.push(root);
        proof {
            assert(su[i as int] == sorted[i as int]@);
            assert(out.deep_view() =~= before.push(skill_root(su[i as int])));
            assert(su.take(i + 1).map_values(|n: Seq<char>| skill_root(n)) =~= su.take(
                i as int,
            ).map_values(|n: Seq<char>| skill_root(n)).push(skill_root(su[i as int])));
        }
        i += 1;
    }
    assert(su.take(i as int) =~= su);
    out
}

} // verus!
