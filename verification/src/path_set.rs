//! An ordered set of paths.

use crate::path::{self, Component, Parts, PathView, TreePath};
use vstd::prelude::*;

verus! {

/// Whether the paths of `s` stand in strictly ascending order, so that none occurs twice.
pub open spec fn ascending(s: Seq<PathView>) -> bool {
    forall|i: int, j: int|
        0 <= i < j < s.len() ==> path::path_before(#[trigger] s[i], #[trigger] s[j])
}

/// How many paths at the front of `s` come before `path`.
pub open spec fn rank(s: Seq<PathView>, path: PathView) -> int
    decreases s.len(),
{
    if s.len() > 0 && path::path_before(s[0], path) {
        1 + rank(s.skip(1), path)
    } else {
        0
    }
}

/// `s` with `path` in its place, unless a path of the same components is there.
pub open spec fn with_path(s: Seq<PathView>, path: PathView) -> Seq<PathView> {
    let at = rank(s, path);
    if at < s.len() && path::same(s[at], path) {
        s
    } else {
        s.insert(at, path)
    }
}

/// `s` with each of `paths` in its place.
pub open spec fn with_paths(s: Seq<PathView>, paths: Seq<PathView>) -> Seq<PathView>
    decreases paths.len(),
{
    if paths.len() == 0 {
        s
    } else {
        with_path(with_paths(s, paths.drop_last()), paths.last())
    }
}

proof fn lemma_bytes_order(a: Seq<u8>, b: Seq<u8>, c: Seq<u8>)
    ensures
        !path::bytes_before(a, a),
        path::bytes_before(a, b) || path::bytes_before(b, a) || a == b,
        path::bytes_before(a, b) && path::bytes_before(b, c) ==> path::bytes_before(a, c),
    decreases a.len(),
{
    if a.len() == 0 {
        if b.len() == 0 {
            assert(a =~= b);
        }
    } else {
        lemma_bytes_order(a.skip(1), b.skip(1), c.skip(1));
        if b.len() > 0 && a[0] == b[0] && a.skip(1) == b.skip(1) {
            assert(a =~= seq![a[0]] + a.skip(1));
            assert(b =~= seq![b[0]] + b.skip(1));
        }
    }
}

proof fn lemma_component_order(
    a: Component<Seq<u8>>,
    b: Component<Seq<u8>>,
    c: Component<Seq<u8>>,
)
    ensures
        !path::component_before(a, a),
        path::component_before(a, b) || path::component_before(b, a) || a == b,
        path::component_before(a, b) && path::component_before(b, c) ==> path::component_before(
            a,
            c,
        ),
{
    if let (Component::Normal(x), Component::Normal(y)) = (a, b) {
        lemma_bytes_order(x, y, x);
        if let Component::Normal(z) = c {
            lemma_bytes_order(x, y, z);
        }
    }
    if let Component::Normal(x) = a {
        lemma_bytes_order(x, x, x);
    }
}

/// The order of components is a strict total order.
proof fn lemma_parts_order(a: Parts, b: Parts, c: Parts)
    ensures
        !path::parts_before(a, a),
        path::parts_before(a, b) || path::parts_before(b, a) || a == b,
        path::parts_before(a, b) && path::parts_before(b, c) ==> path::parts_before(a, c),
    decreases a.len(),
{
    if a.len() == 0 {
        if b.len() == 0 {
            assert(a =~= b);
        }
    } else {
        lemma_parts_order(a.skip(1), b.skip(1), c.skip(1));
        if b.len() > 0 {
            if a[0] == b[0] && a.skip(1) == b.skip(1) {
                assert(a =~= seq![a[0]] + a.skip(1));
                assert(b =~= seq![b[0]] + b.skip(1));
            }
            lemma_component_order(a[0], b[0], a[0]);
            if c.len() > 0 {
                lemma_component_order(a[0], b[0], c[0]);
                lemma_component_order(b[0], c[0], b[0]);
            }
        }
    }
}

/// The order of paths is a strict order, and total but for paths that are the same.
proof fn lemma_path_order(a: PathView, b: PathView, c: PathView)
    ensures
        !path::path_before(a, a),
        path::path_before(a, b) || path::path_before(b, a) || path::same(a, b),
        path::path_before(a, b) && path::path_before(b, c) ==> path::path_before(a, c),
{
    lemma_parts_order(path::parsed(a), path::parsed(b), path::parsed(c));
}

/// Paths are in one order: no path comes before itself, of two that are not the same one comes before
/// the other, and what comes before something comes before whatever that comes before.
pub proof fn law_paths_are_in_one_order(a: PathView, b: PathView, c: PathView)
    ensures
        !path::path_before(a, a),
        path::path_before(a, b) || path::path_before(b, a) || path::parsed(a) == path::parsed(b),
        !(path::path_before(a, b) && path::path_before(b, a)),
        path::path_before(a, b) && path::path_before(b, c) ==> path::path_before(a, c),
{
    lemma_path_order(a, b, c);
    lemma_path_order(a, b, a);
}

/// Among components that begin alike, the shorter come first; else those whose first other component
/// is the leading slash, then `.`, then `..`, then names, by the first byte in which these differ.
pub proof fn law_order_of_components(
    start: Parts,
    a: Component<Seq<u8>>,
    b: Component<Seq<u8>>,
    some: Parts,
    more: Parts,
    common: Seq<u8>,
    x: u8,
    y: u8,
    xs: Seq<u8>,
    ys: Seq<u8>,
)
    requires
        x < y,
    ensures
        path::parts_before(start, start.push(a) + some),
        a is RootDir && !(b is RootDir) || a is CurDir && (b is ParentDir || b is Normal)
            || a is ParentDir && b is Normal ==> path::parts_before(
            start.push(a) + some,
            start.push(b) + more,
        ),
        path::parts_before(
            start.push(Component::Normal(common.push(x) + xs)) + some,
            start.push(Component::Normal(common.push(y) + ys)) + more,
        ),
        path::parts_before(
            start.push(Component::Normal(common)) + some,
            start.push(Component::Normal(common.push(x) + xs)) + more,
        ),
    decreases start.len(),
{
    let (less, longer, other) = (
        Component::Normal(common),
        Component::Normal(common.push(x) + xs),
        Component::Normal(common.push(y) + ys),
    );
    lemma_bytes_differ(common, x, y, xs, ys);
    assert((common.push(x) + xs).len() > common.len());
    assert((common.push(x) + xs)[common.len() as int] == x);
    assert((common.push(y) + ys)[common.len() as int] == y);
    if start.len() == 0 {
        assert(start =~= Seq::empty());
        assert((start.push(a) + some)[0] == a);
        assert((start.push(b) + more)[0] == b);
        assert((start.push(less) + some)[0] == less);
        assert((start.push(longer) + some)[0] == longer);
        assert((start.push(longer) + more)[0] == longer);
        assert((start.push(other) + more)[0] == other);
    } else {
        let rest = start.skip(1);
        law_order_of_components(rest, a, b, some, more, common, x, y, xs, ys);
        assert((start.push(a) + some).skip(1) =~= rest.push(a) + some);
        assert((start.push(b) + more).skip(1) =~= rest.push(b) + more);
        assert((start.push(less) + some).skip(1) =~= rest.push(less) + some);
        assert((start.push(longer) + some).skip(1) =~= rest.push(longer) + some);
        assert((start.push(longer) + more).skip(1) =~= rest.push(longer) + more);
        assert((start.push(other) + more).skip(1) =~= rest.push(other) + more);
    }
}

/// Bytes are ordered by the first in which they differ, a prefix first.
proof fn lemma_bytes_differ(common: Seq<u8>, x: u8, y: u8, xs: Seq<u8>, ys: Seq<u8>)
    requires
        x < y,
    ensures
        path::bytes_before(common.push(x) + xs, common.push(y) + ys),
        path::bytes_before(common, common.push(x) + xs),
    decreases common.len(),
{
    let (a, b) = (common.push(x) + xs, common.push(y) + ys);
    if common.len() == 0 {
        assert(a[0] == x && b[0] == y);
    } else {
        let rest = common.skip(1);
        lemma_bytes_differ(rest, x, y, xs, ys);
        assert(a.skip(1) =~= rest.push(x) + xs);
        assert(b.skip(1) =~= rest.push(y) + ys);
        assert(a[0] == common[0] && b[0] == common[0]);
    }
}

/// A set of paths holds what it held and what was put in, in order, and nothing else. What is the same
/// as a path in it is not put in again.
pub proof fn law_set_holds_what_was_put_in(s: Seq<PathView>, path: PathView)
    requires
        ascending(s),
    ensures
        ({
            let t = with_path(s, path);
            &&& forall|p: PathView| #[trigger] has(t, p) <==> has(s, p) || path::same(path, p)
            &&& forall|i: int, j: int|
                0 <= i < j < t.len() ==> path::path_before(#[trigger] t[i], #[trigger] t[j])
            &&& t.len() == s.len() + (if has(s, path) {
                0int
            } else {
                1int
            })
            &&& has(s, path) ==> t == s
        }),
{
    let t = with_path(s, path);
    let at = rank(s, path);
    lemma_with_path(s, path);
    lemma_rank(s, path);
    assert forall|p: PathView| #[trigger] has(t, p) <==> has(s, p) || path::same(path, p) by {
        if has(t, p) {
            let i = choose|i: int| 0 <= i < t.len() && path::same(#[trigger] t[i], p);
            assert(t.contains(t[i]));
            if s.contains(t[i]) {
                let j = choose|j: int| 0 <= j < s.len() && s[j] == t[i];
                assert(path::same(s[j], p));
            }
        }
        if has(s, p) {
            let i = choose|i: int| 0 <= i < s.len() && path::same(#[trigger] s[i], p);
            assert(s.contains(s[i]));
            let j = choose|j: int| 0 <= j < t.len() && t[j] == s[i];
            assert(path::same(t[j], p));
        }
        if path::same(path, p) {
            let i = choose|i: int| 0 <= i < t.len() && path::same(#[trigger] t[i], path);
            assert(path::same(t[i], p));
        }
    }
    if has(s, path) {
        let k = choose|k: int| 0 <= k < s.len() && path::same(#[trigger] s[k], path);
        lemma_path_order(path, path, path);
        if k < at {
            assert(path::path_before(s[k], path));
        } else if k > at {
            assert(path::path_before(s[at], s[k]));
        }
        assert(path::same(s[at], path));
    } else if at < s.len() && path::same(s[at], path) {
        assert(has(s, path));
    }
}

proof fn lemma_rank(s: Seq<PathView>, path: PathView)
    ensures
        0 <= rank(s, path) <= s.len(),
        forall|i: int| 0 <= i < rank(s, path) ==> path::path_before(#[trigger] s[i], path),
        rank(s, path) < s.len() ==> !path::path_before(s[rank(s, path)], path),
    decreases s.len(),
{
    if s.len() > 0 && path::path_before(s[0], path) {
        lemma_rank(s.skip(1), path);
        assert forall|i: int| 0 <= i < rank(s, path) implies path::path_before(
            #[trigger] s[i],
            path,
        ) by {
            if i > 0 {
                assert(s[i] == s.skip(1)[i - 1]);
            }
        }
    }
}

/// Whether a path of the same components as `path` is in `s`.
pub open spec fn has(s: Seq<PathView>, path: PathView) -> bool {
    exists|i: int| 0 <= i < s.len() && path::same(#[trigger] s[i], path)
}

/// Putting a path in its place keeps what was there, adds that path and nothing else, and keeps
/// the order.
pub proof fn lemma_with_path(s: Seq<PathView>, path: PathView)
    ensures
        forall|p: PathView| #[trigger]
            with_path(s, path).contains(p) ==> s.contains(p) || p == path,
        forall|p: PathView| #[trigger] s.contains(p) ==> with_path(s, path).contains(p),
        has(with_path(s, path), path),
        ascending(s) ==> ascending(with_path(s, path)),
{
    let at = rank(s, path);
    lemma_rank(s, path);
    let t = with_path(s, path);
    if at < s.len() && path::same(s[at], path) {
        assert(path::same(t[at], path));
    } else {
        assert(t[at] == path);
        assert(path::same(t[at], path));
        assert forall|p: PathView| #[trigger] s.contains(p) implies t.contains(p) by {
            let i = choose|i: int| 0 <= i < s.len() && s[i] == p;
            assert(t[if i < at { i } else { i + 1 }] == p);
        }
        assert forall|p: PathView| #[trigger] t.contains(p) implies s.contains(p) || p == path by {
            let i = choose|i: int| 0 <= i < t.len() && t[i] == p;
            if i < at {
                assert(s[i] == p);
            } else if i > at {
                assert(s[i - 1] == p);
            }
        }
        if ascending(s) {
            assert forall|i: int, j: int| 0 <= i < j < t.len() implies path::path_before(
                #[trigger] t[i],
                #[trigger] t[j],
            ) by {
                if at < s.len() {
                    lemma_path_order(s[at], path, path);
                }
                if i == at {
                    assert(t[j] == s[j - 1]);
                    lemma_path_order(path, s[at], s[j - 1]);
                } else if i < at {
                    assert(t[i] == s[i]);
                } else {
                    assert(t[i] == s[i - 1]);
                    assert(t[j] == s[j - 1]);
                }
            }
        }
    }
}

/// Putting paths in their places keeps what was there, adds those paths and nothing else, and
/// keeps the order.
pub proof fn lemma_with_paths(s: Seq<PathView>, paths: Seq<PathView>)
    ensures
        forall|p: PathView| #[trigger]
            with_paths(s, paths).contains(p) ==> s.contains(p) || paths.contains(p),
        forall|p: PathView| #[trigger] s.contains(p) ==> with_paths(s, paths).contains(p),
        forall|i: int| 0 <= i < paths.len() ==> has(with_paths(s, paths), #[trigger] paths[i]),
        ascending(s) ==> ascending(with_paths(s, paths)),
    decreases paths.len(),
{
    if paths.len() > 0 {
        let before = paths.drop_last();
        let some = with_paths(s, before);
        let all = with_paths(s, paths);
        lemma_with_paths(s, before);
        lemma_with_path(some, paths.last());
        assert forall|p: PathView| #[trigger] all.contains(p) implies s.contains(p)
            || paths.contains(p) by {
            if some.contains(p) {
                if before.contains(p) {
                    let i = choose|i: int| 0 <= i < before.len() && before[i] == p;
                    assert(paths[i] == p);
                }
            } else {
                assert(paths[paths.len() - 1] == p);
            }
        }
        assert forall|p: PathView| #[trigger] s.contains(p) implies all.contains(p) by {
            assert(some.contains(p));
        }
        assert forall|i: int| 0 <= i < paths.len() implies has(all, #[trigger] paths[i]) by {
            if i < paths.len() - 1 {
                assert(paths[i] == before[i]);
                let j = choose|j: int| 0 <= j < some.len() && path::same(
                    #[trigger] some[j],
                    paths[i],
                );
                assert(some.contains(some[j]));
                let k = choose|k: int| 0 <= k < all.len() && all[k] == some[j];
                assert(path::same(all[k], paths[i]));
            }
        }
    }
}

/// A set of paths that lists its members in ascending order.
#[derive(Debug, Clone, PartialEq, Eq)]
pub struct PathSet {
    paths: Vec<TreePath>,
}

impl View for PathSet {
    type V = Seq<PathView>;

    closed spec fn view(&self) -> Seq<PathView> {
        path::views(self.paths@)
    }
}

impl PathSet {
    /// Whether the members are listed in ascending order, each once.
    pub open spec fn well_formed(&self) -> bool {
        ascending(self@)
    }

    /// The empty set.
    pub fn new() -> (set: PathSet)
        ensures
            set.well_formed(),
            set@ == Seq::<PathView>::empty(),
    {
        let set = PathSet { paths: Vec::new() };
        assert(set@ =~= Seq::<PathView>::empty());
        set
    }

    /// Adds `path`, in its place, if none of the same components is a member yet.
    pub fn insert(&mut self, path: TreePath)
        ensures
            final(self)@ == with_path(old(self)@, path@),
            old(self).well_formed() ==> final(self).well_formed(),
    {
        let ghost before = self@;
        let mut at: usize = 0;
        assert(before.skip(0) =~= before);
        proof {
            lemma_rank(before, path@);
            lemma_with_path(before, path@);
        }
        while at < self.paths.len() && self.paths[at].is_before(&path)
            invariant
                at <= self.paths.len(),
                self@ == before,
                rank(before, path@) == at + rank(before.skip(at as int), path@),
            decreases self.paths.len() - at,
        {
            assert(before.skip(at as int)[0] == self.paths@[at as int]@);
            assert(before.skip(at as int).skip(1) =~= before.skip(at as int + 1));
            at += 1;
        }
        if at < self.paths.len() {
            assert(before.skip(at as int)[0] == self.paths@[at as int]@);
        }
        assert(rank(before, path@) == at);
        if at < self.paths.len() && self.paths[at].same(&path) {
            return;
        }
        self.paths.insert(at, path);
        assert(self@ =~= before.insert(at as int, path@));
    }

    /// Adds each of `paths`.
    pub fn insert_all(&mut self, paths: Vec<TreePath>)
        ensures
            final(self)@ == with_paths(old(self)@, path::views(paths@)),
            old(self).well_formed() ==> final(self).well_formed(),
    {
        let ghost before = self@;
        let ghost all = path::views(paths@);
        let mut i: usize = 0;
        assert(all.take(0) =~= Seq::empty());
        while i < paths.len()
            invariant
                i <= paths.len(),
                all == path::views(paths@),
                self@ == with_paths(before, all.take(i as int)),
                ascending(before) ==> self.well_formed(),
            decreases paths.len() - i,
        {
            assert(all.take(i as int + 1).drop_last() =~= all.take(i as int));
            self.insert(paths[i].copy());
            i += 1;
        }
        assert(all.take(i as int) =~= all);
    }

    /// The members, in order.
    pub fn paths(&self) -> (paths: &Vec<TreePath>)
        ensures
            path::views(paths@) == self@,
    {
        &self.paths
    }
}

} // verus!
