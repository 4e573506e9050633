//! Paths as `std::path::Path` reads them on Unix: sequences of components.
use vstd::prelude::*;

use crate::roots::{lemma_text_lt_irreflexive, lemma_text_lt_transitive, text_less, text_lt};
use crate::text::{
    chars_of, split_by, split_spans, Delim, lemma_split_by_concat, lemma_split_by_nonempty,
};

verus! {

pub open spec fn dot() -> Seq<char> {
    seq!['.']
}

pub open spec fn root_dir() -> Seq<char> {
    seq!['/']
}

/// A piece between separators that is a component of its own: not empty
/// and not `.`.
pub open spec fn normal_piece() -> spec_fn(Seq<char>) -> bool {
    |x: Seq<char>| x.len() > 0 && x != dot()
}

/// The components of `p`, each by its text: a leading `/` is the root
/// component `/`; a leading `.` piece of a relative path is the component
/// `.`; after that, empty pieces and `.` pieces are dropped, so repeated and
/// trailing separators do not count.
pub open spec fn path_components(p: Seq<char>) -> Seq<Seq<char>> {
    let pieces = split_by(p, Delim::Char('/'));
    let rooted = p.len() > 0 && p[0] == '/';
    let cur = !rooted && pieces[0] == dot();
    let head = if rooted {
        seq![root_dir()]
    } else if cur {
        seq![dot()]
    } else {
        Seq::<Seq<char>>::empty()
    };
    let rest = if cur { pieces.drop_first() } else { pieces };
    head + rest.filter(normal_piece())
}

/// `Path::starts_with`: the components of `root` begin the components of
/// `path` (which holds in particular when the two paths are equal).
pub open spec fn path_within(path: Seq<char>, root: Seq<char>) -> bool {
    let a = path_components(root);
    let b = path_components(path);
    a.len() <= b.len() && b.take(a.len() as int) == a
}

/// Bounds of the components of `s` inside `s`.
pub fn component_spans(s: &Vec<char>) -> (res: Vec<(usize, usize)>)
    ensures
        res.len() == path_components(s@).len(),
        forall|k: int|
            0 <= k < res.len() ==> (#[trigger] res[k]).0 <= res[k].1 <= s.len()
                && s@.subrange(res[k].0 as int, res[k].1 as int) == path_components(s@)[k],
{
    let ghost pieces = split_by(s@, Delim::Char('/'));
    let ghost np = normal_piece();
    assert(s@.subrange(0, s@.len() as int) =~= s@);
    let spans = split_spans(s, 0, s.len(), Delim::Char('/'));
    proof {
        lemma_split_by_nonempty(s@, Delim::Char('/'));
    }
    let rooted = s.len() > 0 && s[0] == '/';
    let cur = !rooted && spans[0].1 > spans[0].0 && spans[0].1 - spans[0].0 == 1 && s[spans[0].0] == '.';
    proof {
        let p0 = s@.subrange(spans[0].0 as int, spans[0].1 as int);
        assert(p0 == pieces[0]);
        if !rooted && pieces[0] == dot() {
            assert(p0.len() == 1 && p0[0] == '.');
        }
        if cur {
            assert(p0 =~= dot());
        }
    }
    let ghost head = if rooted {
        seq![root_dir()]
    } else if cur {
        seq![dot()]
    } else {
        Seq::<Seq<char>>::empty()
    };
    let ghost rest = if cur { pieces.drop_first() } else { pieces };
    let mut out: Vec<(usize, usize)> = Vec::new();
    if rooted {
        out.push((0, 1));
        assert(s@.subrange(0, 1) =~= head[0]);
    } else if cur {
        out.push(spans[0]);
    }
    let first: usize = if cur { 1 } else { 0 };
    let mut k: usize = first;
    assert(rest.take(0).filter(np) =~= Seq::<Seq<char>>::empty()) by {
        reveal(Seq::filter);
    }
    while k < spans.len()
        invariant
            pieces == split_by(s@, Delim::Char('/')),
            np == normal_piece(),
            spans.len() == pieces.len(),
            pieces.len() >= 1,
            forall|j: int|
                0 <= j < spans.len() ==> (#[trigger] spans[j]).0 <= spans[j].1 <= s.len()
                    && s@.subrange(spans[j].0 as int, spans[j].1 as int) == pieces[j],
            first <= k <= spans.len(),
            first == (if cur { 1usize } else { 0usize }),
            rest == (if cur { pieces.drop_first() } else { pieces }),
            head.len() <= 1,
            (rooted || cur) ==> head.len() == 1,
            !(rooted || cur) ==> head.len() == 0,
            out.len() == head.len() + rest.take(k - first).filter(np).len(),
            forall|j: int|
                0 <= j < out.len() ==> (#[trigger] out[j]).0 <= out[j].1 <= s.len()
                    && s@.subrange(out[j].0 as int, out[j].1 as int) == (head + rest.take(
                    k - first,
                ).filter(np))[j],
        decreases spans.len() - k,
    {
        let (a, b) = spans[k];
        let ghost x = pieces[k as int];
        proof {
            assert(rest[k - first] == x);
            assert(rest.take(k - first + 1) =~= rest.take(k - first).push(x));
            rest.take(k - first).lemma_filter_push(x, np);
        }
        let is_dot = b > a && b - a == 1 && s[a] == '.';
        proof {
            let y = s@.subrange(a as int, b as int);
            if is_dot {
                assert(y =~= dot());
            }
            if y == dot() {
                assert(y.len() == 1 && y[0] == '.');
            }
        }
        if a < b && !is_dot {
            let ghost before = head + rest.take(k - first).filter(np);
            out.push((a, b));
            assert(head + rest.take(k - first + 1).filter(np) =~= before.push(x));
        } else {
            assert(head + rest.take(k - first + 1).filter(np) =~= head + rest.take(
                k - first,
            ).filter(np));
        }
        k += 1;
    }
    assert(rest.take(k - first) =~= rest);
    out
}

/// The components of `path` begin with the components of `root`.
pub fn path_starts_with(path: &Vec<char>, root: &Vec<char>) -> (b: bool)
    ensures
        b == path_within(path@, root@),
{
    let pc = component_spans(path);
    let rc = component_spans(root);
    let ghost a = path_components(root@);
    let ghost c = path_components(path@);
    if rc.len() > pc.len() {
        return false;
    }
    let mut i: usize = 0;
    while i < rc.len()
        invariant
            a == path_components(root@),
            c == path_components(path@),
            rc.len() <= pc.len(),
            rc.len() == a.len(),
            pc.len() == c.len(),
            forall|k: int|
                0 <= k < rc.len() ==> (#[trigger] rc[k]).0 <= rc[k].1 <= root.len()
                    && root@.subrange(rc[k].0 as int, rc[k].1 as int) == a[k],
            forall|k: int|
                0 <= k < pc.len() ==> (#[trigger] pc[k]).0 <= pc[k].1 <= path.len()
                    && path@.subrange(pc[k].0 as int, pc[k].1 as int) == c[k],
            i <= rc.len(),
            forall|k: int| 0 <= k < i ==> a[k] == c[k],
        decreases rc.len() - i,
    {
        let (ra, rb) = rc[i];
        let (pa, pb) = pc[i];
        if !same_text(path, pa, pb, root, ra, rb) {
            assert(c.take(a.len() as int)[i as int] == c[i as int]);
            return false;
        }
        i += 1;
    }
    assert(c.take(a.len() as int) =~= a);
    true
}

/// Whether `s[a..b]` and `t[c..d]` hold the same characters.
fn same_text(s: &Vec<char>, a: usize, b: usize, t: &Vec<char>, c: usize, d: usize) -> (r: bool)
    requires
        a <= b <= s.len(),
        c <= d <= t.len(),
    ensures
        r == (s@.subrange(a as int, b as int) == t@.subrange(c as int, d as int)),
{
    if b - a != d - c {
        assert(s@.subrange(a as int, b as int).len() != t@.subrange(c as int, d as int).len());
        return false;
    }
    let mut k: usize = 0;
    while k < b - a
        invariant
            a <= b <= s.len(),
            c <= d <= t.len(),
            b - a == d - c,
            k <= b - a,
            forall|j: int|
                0 <= j < k ==> #[trigger] s@.subrange(a as int, b as int)[j] == t@.subrange(
                    c as int,
                    d as int,
                )[j],
        decreases b - a - k,
    {
        if s[a + k] != t[c + k] {
            assert(s@.subrange(a as int, b as int)[k as int] != t@.subrange(c as int, d as int)[k as int]);
            return false;
        }
        k += 1;
    }
    assert(s@.subrange(a as int, b as int) =~= t@.subrange(c as int, d as int));
    true
}

/// `path` lies within one of the `roots`.
pub open spec fn preserved_by(path: Seq<char>, roots: Seq<Seq<char>>) -> bool {
    exists|i: int| 0 <= i < roots.len() && #[trigger] path_within(path, roots[i])
}

/// Whether `path` lies in one of the preserved roots: equals one of them or
/// lies below one, by whole components.
pub fn path_is_preserved(path: &str, preserve: &Vec<String>) -> (b: bool)
    ensures
        b == preserved_by(path@, preserve.deep_view()),
{
    let p = chars_of(path);
    let mut i: usize = 0;
    while i < preserve.len()
        invariant
            p@ == path@,
            i <= preserve.len(),
            forall|k: int| 0 <= k < i ==> !path_within(path@, #[trigger] preserve.deep_view()[k]),
        decreases preserve.len() - i,
    {
        let r = chars_of(preserve[i].as_str());
        if path_starts_with(&p, &r) {
            assert(path_within(path@, preserve.deep_view()[i as int]));
            return true;
        }
        i += 1;
    }
    false
}

/// Everything below a root lies within it, and so does the root itself:
/// `root/rel` starts, component by component, with `root`.
pub proof fn lemma_within_root(root: Seq<char>, rel: Seq<char>)
    ensures
        path_within(root, root),
        path_within(root + seq!['/'] + rel, root),
{
    let a = path_components(root);
    assert(a.take(a.len() as int) =~= a);
    if root.len() > 0 {
        let path = root + seq!['/'] + rel;
        let p = split_by(root, Delim::Char('/'));
        let q = split_by(rel, Delim::Char('/'));
        lemma_split_by_concat(root, '/', rel, Delim::Char('/'));
        lemma_split_by_nonempty(root, Delim::Char('/'));
        let pieces = split_by(path, Delim::Char('/'));
        assert(pieces == p + q);
        assert(path[0] == root[0]);
        assert(pieces[0] == p[0]);
        let rooted = root.len() > 0 && root[0] == '/';
        let cur = !rooted && p[0] == dot();
        let rest_root = if cur { p.drop_first() } else { p };
        let rest_path = if cur { pieces.drop_first() } else { pieces };
        assert(rest_path =~= rest_root + q);
        Seq::filter_distributes_over_add(rest_root, q, normal_piece());
        let head = if rooted {
            seq![root_dir()]
        } else if cur {
            seq![dot()]
        } else {
            Seq::<Seq<char>>::empty()
        };
        assert(path_components(path) =~= (head + rest_root.filter(normal_piece())) + q.filter(
            normal_piece(),
        ));
        assert(path_components(path).take(a.len() as int) =~= a);
    } else {
        assert(split_by(root, Delim::Char('/')) == seq![root]);
        let e = Seq::<Seq<char>>::empty();
        assert(seq![root] =~= e.push(root));
        e.lemma_filter_push(root, normal_piece());
        assert(e.filter(normal_piece()) =~= e) by {
            reveal(Seq::filter);
        }
        assert(root != dot());
        assert(a =~= e);
        assert(path_components(root + seq!['/'] + rel).take(0) =~= a);
    }
}

/// A preserved root keeps itself and everything below it.
pub proof fn lemma_preserved_subtree(roots: Seq<Seq<char>>, i: int, rel: Seq<char>)
    requires
        0 <= i < roots.len(),
    ensures
        preserved_by(roots[i], roots),
        preserved_by(roots[i] + seq!['/'] + rel, roots),
{
    lemma_within_root(roots[i], rel);
}

// ---------------------------------------------------------------------------
// The order of paths
// ---------------------------------------------------------------------------

pub open spec fn parent_dir() -> Seq<char> {
    seq!['.', '.']
}

/// Where a component stands in `std::path::Component`'s order: the root,
/// then `.`, then `..`, then names.
pub open spec fn component_rank(c: Seq<char>) -> int {
    if c == root_dir() {
        0
    } else if c == dot() {
        1
    } else if c == parent_dir() {
        2
    } else {
        3
    }
}

/// `std::path::Component`'s order: by kind, and names by their text.
pub open spec fn component_lt(a: Seq<char>, b: Seq<char>) -> bool {
    component_rank(a) < component_rank(b) || (component_rank(a) == 3 && component_rank(b) == 3
        && text_lt(a, b))
}

/// Lexicographic order on component sequences.
pub open spec fn components_lt(a: Seq<Seq<char>>, b: Seq<Seq<char>>) -> bool
    decreases a.len(),
{
    if a.len() == 0 {
        b.len() > 0
    } else if b.len() == 0 {
        false
    } else if a[0] != b[0] {
        component_lt(a[0], b[0])
    } else {
        components_lt(a.drop_first(), b.drop_first())
    }
}

/// `Path`'s order: component by component.
pub open spec fn path_lt(p: Seq<char>, q: Seq<char>) -> bool {
    components_lt(path_components(p), path_components(q))
}

/// `x` put into `sorted` before the first path greater than it, so after
/// any equal ones.
pub open spec fn insert_path(sorted: Seq<Seq<char>>, x: Seq<char>) -> Seq<Seq<char>>
    decreases sorted.len(),
{
    if sorted.len() == 0 {
        seq![x]
    } else if path_lt(x, sorted[0]) {
        seq![x] + sorted
    } else {
        seq![sorted[0]] + insert_path(sorted.drop_first(), x)
    }
}

/// `s` stably sorted by `Path`'s order (`<[PathBuf]>::sort`).
pub open spec fn sorted_paths(s: Seq<Seq<char>>) -> Seq<Seq<char>>
    decreases s.len(),
{
    if s.len() == 0 {
        seq![]
    } else {
        insert_path(sorted_paths(s.drop_last()), s.last())
    }
}

proof fn lemma_insert_path_multiset(t: Seq<Seq<char>>, x: Seq<char>)
    ensures
        insert_path(t, x).to_multiset() == t.to_multiset().insert(x),
    decreases t.len(),
{
    broadcast use vstd::seq_lib::to_multiset_insert;

    if t.len() == 0 {
        assert(seq![x] =~= t.insert(0, x));
    } else if path_lt(x, t[0]) {
        assert(seq![x] + t =~= t.insert(0, x));
    } else {
        let u = t.drop_first();
        lemma_insert_path_multiset(u, x);
        let w = insert_path(u, x);
        assert(seq![t[0]] + w =~= w.insert(0, t[0]));
        assert(t =~= u.insert(0, t[0]));
        assert(insert_path(t, x).to_multiset() =~= t.to_multiset().insert(x));
    }
}

proof fn lemma_sorted_paths_permutation(s: Seq<Seq<char>>)
    ensures
        sorted_paths(s).to_multiset() == s.to_multiset(),
    decreases s.len(),
{
    broadcast use vstd::seq_lib::to_multiset_build;

    if s.len() == 0 {
        assert(sorted_paths(s) =~= s);
    } else {
        lemma_sorted_paths_permutation(s.drop_last());
        lemma_insert_path_multiset(sorted_paths(s.drop_last()), s.last());
        assert(s =~= s.drop_last().push(s.last()));
    }
}

proof fn lemma_component_lt_order(a: Seq<char>, b: Seq<char>, c: Seq<char>)
    ensures
        !component_lt(a, a),
        component_lt(a, b) && component_lt(b, c) ==> component_lt(a, c),
{
    lemma_text_lt_irreflexive(a);
    if component_lt(a, b) && component_lt(b, c) && component_rank(a) == 3 && component_rank(
        c,
    ) == 3 {
        lemma_text_lt_transitive(a, b, c);
    }
}

proof fn lemma_components_lt_irreflexive(a: Seq<Seq<char>>)
    ensures
        !components_lt(a, a),
    decreases a.len(),
{
    if a.len() > 0 {
        lemma_components_lt_irreflexive(a.drop_first());
    }
}

proof fn lemma_components_lt_transitive(a: Seq<Seq<char>>, b: Seq<Seq<char>>, c: Seq<Seq<char>>)
    requires
        components_lt(a, b),
        components_lt(b, c),
    ensures
        components_lt(a, c),
    decreases a.len(),
{
    if a.len() > 0 && b.len() > 0 && c.len() > 0 {
        lemma_component_lt_order(a[0], b[0], c[0]);
        lemma_component_lt_order(c[0], b[0], c[0]);
        lemma_component_lt_order(a[0], c[0], a[0]);
        if a[0] == b[0] && b[0] == c[0] {
            lemma_components_lt_transitive(a.drop_first(), b.drop_first(), c.drop_first());
        } else if a[0] != b[0] && b[0] != c[0] && a[0] == c[0] {
            lemma_component_lt_order(a[0], b[0], a[0]);
        }
    }
}

/// `Path`'s order is a strict order: no path is before itself, and it is
/// transitive.
pub proof fn lemma_path_order(p: Seq<char>, q: Seq<char>, r: Seq<char>)
    ensures
        !path_lt(p, p),
        path_lt(p, q) && path_lt(q, r) ==> path_lt(p, r),
{
    lemma_components_lt_irreflexive(path_components(p));
    if path_lt(p, q) && path_lt(q, r) {
        lemma_components_lt_transitive(
            path_components(p),
            path_components(q),
            path_components(r),
        );
    }
}

/// No path comes after a later one.
pub open spec fn paths_in_order(s: Seq<Seq<char>>) -> bool {
    forall|i: int, j: int| 0 <= i < j < s.len() ==> !path_lt(#[trigger] s[j], #[trigger] s[i])
}

proof fn lemma_insert_path_sorted(t: Seq<Seq<char>>, x: Seq<char>)
    requires
        paths_in_order(t),
    ensures
        paths_in_order(insert_path(t, x)),
        insert_path(t, x).to_multiset() == t.to_multiset().insert(x),
    decreases t.len(),
{
    lemma_insert_path_multiset(t, x);
    let r = insert_path(t, x);
    if t.len() == 0 {
    } else if path_lt(x, t[0]) {
        assert forall|i: int, j: int| 0 <= i < j < r.len() implies !path_lt(
            #[trigger] r[j],
            #[trigger] r[i],
        ) by {
            if i == 0 {
                lemma_path_order(t[j - 1], x, t[0]);
                if j - 1 == 0 {
                    lemma_path_order(t[0], x, t[0]);
                    lemma_path_order(t[0], t[0], t[0]);
                }
            } else {
                assert(r[i] == t[i - 1] && r[j] == t[j - 1]);
            }
        }
    } else {
        let u = t.drop_first();
        assert(paths_in_order(u)) by {
            assert forall|i: int, j: int| 0 <= i < j < u.len() implies !path_lt(
                #[trigger] u[j],
                #[trigger] u[i],
            ) by {
                assert(u[i] == t[i + 1] && u[j] == t[j + 1]);
            }
        }
        lemma_insert_path_sorted(u, x);
        let w = insert_path(u, x);
        assert forall|i: int, j: int| 0 <= i < j < r.len() implies !path_lt(
            #[trigger] r[j],
            #[trigger] r[i],
        ) by {
            if i == 0 {
                let e = w[j - 1];
                assert(r[j] == e);
                assert(w.to_multiset().count(e) > 0) by {
                    w.to_multiset_ensures();
                    assert(w.contains(e));
                }
                assert(u.to_multiset().insert(x).count(e) > 0);
                if e != x {
                    u.to_multiset_ensures();
                    assert(u.contains(e));
                    let k = choose|k: int| 0 <= k < u.len() && u[k] == e;
                    assert(t[k + 1] == e);
                }
            } else {
                assert(r[i] == w[i - 1] && r[j] == w[j - 1]);
            }
        }
    }
}

/// Sorting paths puts them in `Path`'s order and keeps every path, as often
/// as it occurs.
pub proof fn lemma_sorted_paths(s: Seq<Seq<char>>)
    ensures
        paths_in_order(sorted_paths(s)),
        sorted_paths(s).to_multiset() == s.to_multiset(),
    decreases s.len(),
{
    lemma_sorted_paths_permutation(s);
    if s.len() > 0 {
        lemma_sorted_paths(s.drop_last());
        lemma_insert_path_sorted(sorted_paths(s.drop_last()), s.last());
    }
}

/// The components of `s`, each as its own text.
pub fn components_of(s: &Vec<char>) -> (res: Vec<Vec<char>>)
    ensures
        res.deep_view() == path_components(s@),
{
    let spans = component_spans(s);
    let ghost c = path_components(s@);
    let mut out: Vec<Vec<char>> = Vec::new();
    let mut k: usize = 0;
    while k < spans.len()
        invariant
            c == path_components(s@),
            spans.len() == c.len(),
            forall|j: int|
                0 <= j < spans.len() ==> (#[trigger] spans[j]).0 <= spans[j].1 <= s.len()
                    && s@.subrange(spans[j].0 as int, spans[j].1 as int) == c[j],
            k <= spans.len(),
            out.deep_view() == c.take(k as int),
        decreases spans.len() - k,
    {
        let (a, b) = spans[k];
        let mut piece: Vec<char> = Vec::new();
        let mut i = a;
        while i < b
            invariant
                a <= i <= b <= s.len(),
                piece@ == s@.subrange(a as int, i as int),
            decreases b - i,
        {
            piece.push(s[i]);
            assert(s@.subrange(a as int, i + 1) =~= s@.subrange(a as int, i as int).push(s@[i as int]));
            i += 1;
        }
        let ghost before = out.deep_view();
        proof {
            assert(piece.deep_view() =~= piece@);
        }
        out.push(piece);
        assert(out.deep_view() =~= before.push(c[k as int]));
        assert(c.take(k + 1) =~= c.take(k as int).push(c[k as int]));
        k += 1;
    }
    assert(c.take(k as int) =~= c);
    out
}

fn component_rank_of(c: &Vec<char>) -> (r: u8)
    ensures
        r == component_rank(c@),
{
    if c.len() == 1 && c[0] == '/' {
        assert(c@ =~= root_dir());
        0
    } else if c.len() == 1 && c[0] == '.' {
        assert(c@ =~= dot());
        assert(c@ != root_dir());
        1
    } else if c.len() == 2 && c[0] == '.' && c[1] == '.' {
        assert(c@ =~= parent_dir());
        2
    } else {
        assert(c@ != root_dir() && c@ != dot() && c@ != parent_dir()) by {
            if c@ == root_dir() {
                assert(c@[0] == '/');
            }
            if c@ == dot() {
                assert(c@[0] == '.');
            }
            if c@ == parent_dir() {
                assert(c@[0] == '.' && c@[1] == '.');
            }
        }
        3
    }
}

fn chars_equal(a: &Vec<char>, b: &Vec<char>) -> (r: bool)
    ensures
        r == (a@ == b@),
{
    assert(a@.subrange(0, a@.len() as int) =~= a@);
    crate::text::range_eq(a, 0, a.len(), b)
}

/// `path_lt(p, q)` for paths given by their components.
fn components_less(a: &Vec<Vec<char>>, b: &Vec<Vec<char>>) -> (r: bool)
    ensures
        r == components_lt(a.deep_view(), b.deep_view()),
{
    let ghost x = a.deep_view();
    let ghost y = b.deep_view();
    let mut i: usize = 0;
    assert(x.skip(0) =~= x && y.skip(0) =~= y);
    loop
        invariant
            x == a.deep_view(),
            y == b.deep_view(),
            i <= a.len(),
            i <= b.len(),
            components_lt(x, y) == components_lt(x.skip(i as int), y.skip(i as int)),
        decreases a.len() - i,
    {
        if i == a.len() {
            return i < b.len();
        }
        if i == b.len() {
            return false;
        }
        proof {
            assert(x.skip(i as int)[0] == x[i as int]);
            assert(y.skip(i as int)[0] == y[i as int]);
            assert(x[i as int] == a@[i as int]@) by {
                assert(a@[i as int].deep_view() =~= a@[i as int]@);
            }
            assert(y[i as int] == b@[i as int]@) by {
                assert(b@[i as int].deep_view() =~= b@[i as int]@);
            }
        }
        if !chars_equal(&a[i], &b[i]) {
            let ra = component_rank_of(&a[i]);
            let rb = component_rank_of(&b[i]);
            return ra < rb || (ra == 3 && rb == 3 && text_less(&a[i], &b[i]));
        }
        assert(x.skip(i as int).drop_first() =~= x.skip(i + 1));
        assert(y.skip(i as int).drop_first() =~= y.skip(i + 1));
        i += 1;
    }
}

proof fn lemma_insert_path_at(s: Seq<Seq<char>>, x: Seq<char>, pos: int)
    requires
        0 <= pos <= s.len(),
        forall|j: int| 0 <= j < pos ==> !path_lt(x, #[trigger] s[j]),
        pos < s.len() ==> path_lt(x, s[pos]),
    ensures
        insert_path(s, x) == s.take(pos) + seq![x] + s.skip(pos),
    decreases pos,
{
    if pos == 0 {
        if s.len() == 0 {
            assert(s.take(0) + seq![x] + s.skip(0) =~= seq![x]);
        } else {
            assert(s.take(0) + seq![x] + s.skip(0) =~= seq![x] + s);
        }
    } else {
        let t = s.drop_first();
        assert forall|j: int| 0 <= j < pos - 1 implies !path_lt(x, #[trigger] t[j]) by {
            assert(t[j] == s[j + 1]);
        }
        if pos < s.len() {
            assert(t[pos - 1] == s[pos]);
        }
        lemma_insert_path_at(t, x, pos - 1);
        assert(!path_lt(x, s[0]));
        assert(seq![s[0]] + (t.take(pos - 1) + seq![x] + t.skip(pos - 1)) =~= s.take(pos) + seq![x]
            + s.skip(pos));
    }
}

/// The paths sorted by `Path`'s order, equal ones kept in their order
/// (`<[PathBuf]>::sort`).
pub fn sort_paths(paths: &Vec<String>) -> (res: Vec<String>)
    ensures
        res.deep_view() == sorted_paths(paths.deep_view()),
{
    let ghost ps = paths.deep_view();
    let mut sorted: Vec<String> = Vec::new();
    let mut keys: Vec<Vec<Vec<char>>> = Vec::new();
    let mut k: usize = 0;
    assert(sorted.deep_view() =~= sorted_paths(ps.take(0)));
    while k < paths.len()
        invariant
            ps == paths.deep_view(),
            k <= paths.len(),
            sorted.deep_view() == sorted_paths(ps.take(k as int)),
            keys.len() == sorted.len(),
            forall|j: int|
                0 <= j < keys.len() ==> (#[trigger] keys@[j]).deep_view() == path_components(
                    sorted.deep_view()[j],
                ),
        decreases paths.len() - k,
    {
        let x = chars_of(paths[k].as_str());
        let xk = components_of(&x);
        let ghost s = sorted.deep_view();
        proof {
            assert(ps.take(k + 1).drop_last() =~= ps.take(k as int));
            assert(ps.take(k + 1).last() == x@);
        }
        let mut pos: usize = 0;
        let mut stop = false;
        while pos < sorted.len() && !stop
            invariant
                s == sorted.deep_view(),
                keys.len() == sorted.len(),
                forall|j: int|
                    0 <= j < keys.len() ==> (#[trigger] keys@[j]).deep_view() == path_components(
                        s[j],
                    ),
                xk.deep_view() == path_components(x@),
                pos <= sorted.len(),
                stop ==> pos < sorted.len() && path_lt(x@, s[pos as int]),
                forall|j: int| 0 <= j < pos ==> !path_lt(x@, #[trigger] s[j]),
            decreases sorted.len() - pos + (if stop { 0int } else { 1int }),
        {
            assert(keys@[pos as int].deep_view() == path_components(s[pos as int]));
            if components_less(&xk, &keys[pos]) {
                stop = true;
            } else {
                pos += 1;
            }
        }
        proof {
            lemma_insert_path_at(s, x@, pos as int);
        }
        let ghost xv = x@;
        let ghost before_keys = keys@;
        let ghost xkv = xk.deep_view();
        sorted.insert(pos, paths[k].clone());
        keys.insert(pos, xk);
        proof {
            assert(sorted.deep_view() =~= s.take(pos as int) + seq![xv] + s.skip(pos as int));
            assert forall|j: int| 0 <= j < keys.len() implies (#[trigger] keys@[j]).deep_view()
                == path_components(sorted.deep_view()[j]) by {
                if j < pos {
                    assert(keys@[j] == before_keys[j]);
                } else if j == pos {
                } else {
                    assert(keys@[j] == before_keys[j - 1]);
                    assert(sorted.deep_view()[j] == s[j - 1]);
                }
            }
        }
        k += 1;
    }
    assert(ps.take(k as int) =~= ps);
    sorted
}

} // verus!
