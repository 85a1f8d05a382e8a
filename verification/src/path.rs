//! Paths as texts, the components they have, and what they say without touching a disk.

use vstd::prelude::*;

verus! {

/// One component of a path. `B` is how a name is held: bytes in a [`TreePath`], a sequence of
/// bytes in its view.
#[derive(Debug, Clone, PartialEq, Eq, PartialOrd, Ord)]
pub enum Component<B = Vec<u8>> {
    /// The leading `/` of an absolute path.
    RootDir,
    /// A leading `.`.
    CurDir,
    /// A `..`.
    ParentDir,
    /// A name.
    Normal(B),
}

impl View for Component<Vec<u8>> {
    type V = Component<Seq<u8>>;

    open spec fn view(&self) -> Component<Seq<u8>> {
        match self {
            Component::RootDir => Component::RootDir,
            Component::CurDir => Component::CurDir,
            Component::ParentDir => Component::ParentDir,
            Component::Normal(name) => Component::Normal(name@),
        }
    }
}

/// A path as a mathematical value: its text.
pub type PathView = Seq<u8>;

/// The components of a path.
pub type Parts = Seq<Component<Seq<u8>>>;

/// The views of a sequence of values, in order.
pub open spec fn views<T: View>(s: Seq<T>) -> Seq<T::V> {
    Seq::new(s.len(), |i: int| s[i]@)
}

/// A path: a text, and the components a POSIX path of that text has. Paths of different texts and the
/// same components are the same path.
#[derive(Debug, Eq)]
pub struct TreePath {
    text: Vec<u8>,
    components: Vec<Component>,
    /// How much of the text spells all components but the last.
    stem: usize,
}

impl View for TreePath {
    type V = PathView;

    closed spec fn view(&self) -> PathView {
        self.text@
    }
}

/// The pieces of `text` between its slashes, in order. There is always at least one.
pub open spec fn pieces(text: Seq<u8>) -> Seq<Seq<u8>>
    decreases text.len(),
{
    if text.len() == 0 {
        seq![Seq::empty()]
    } else {
        let before = pieces(text.drop_last());
        if text.last() == 0x2f {
            before.push(Seq::empty())
        } else {
            before.drop_last().push(before.last().push(text.last()))
        }
    }
}

/// What the pieces of a path stand for: nothing for an empty one, a parent step for `..`, and a
/// name for any other, except that `.` stands for something only in front of all others.
pub open spec fn named(pieces: Seq<Seq<u8>>) -> Parts
    decreases pieces.len(),
{
    if pieces.len() == 0 {
        Seq::empty()
    } else {
        let before = named(pieces.drop_last());
        let piece = pieces.last();
        if piece.len() == 0 {
            before
        } else if piece == seq![0x2eu8] {
            if pieces.len() == 1 {
                before.push(Component::CurDir)
            } else {
                before
            }
        } else if piece == seq![0x2eu8, 0x2eu8] {
            before.push(Component::ParentDir)
        } else {
            before.push(Component::Normal(piece))
        }
    }
}

/// The components of the path that `text` spells.
#[verifier::opaque]
pub open spec fn parsed(text: PathView) -> Parts {
    if text.len() > 0 && text[0] == 0x2f {
        seq![Component::RootDir] + named(pieces(text))
    } else {
        named(pieces(text))
    }
}

/// Whether two paths have the same components.
pub open spec fn same(a: PathView, b: PathView) -> bool {
    parsed(a) == parsed(b)
}

/// `rel` read from `base`: an absolute `rel` stands on its own, and a slash goes between the two
/// unless one is there.
pub open spec fn joined(base: PathView, rel: PathView) -> PathView {
    if rel.len() > 0 && rel[0] == 0x2f {
        rel
    } else if base.len() == 0 || base.last() == 0x2f {
        base + rel
    } else {
        base.push(0x2f) + rel
    }
}

/// The components of `rel` behind those of `base`: an absolute `rel` stands on its own, and a leading
/// `.` says nothing.
pub open spec fn joined_parts(base: Parts, rel: Parts) -> Parts {
    if rel.len() > 0 && rel[0] is RootDir {
        rel
    } else if rel.len() > 0 && rel[0] is CurDir && base.len() > 0 {
        base + rel.skip(1)
    } else {
        base + rel
    }
}

/// What is left of `text` when it is cut back until it spells `parts` and no more: no slash, and no
/// `.` that says nothing, is at its end.
pub open spec fn stem_of(text: PathView, parts: Parts) -> PathView
    decreases text.len(),
{
    if text.len() == 0 || (parsed(text) == parts && parsed(text.drop_last()) != parts) {
        text
    } else {
        stem_of(text.drop_last(), parts)
    }
}

/// The directory that holds the entry `path` names, if the path says which: not for a bare name,
/// nor for `/`.
pub open spec fn parent_of(path: PathView) -> Option<PathView> {
    let parts = parsed(path);
    if parts.len() >= 2 {
        Some(stem_of(path, parts.drop_last()))
    } else {
        None
    }
}

/// Whether one name comes before another: by the first byte in which they differ, a prefix first.
pub open spec fn bytes_before(a: Seq<u8>, b: Seq<u8>) -> bool
    decreases a.len(),
{
    if b.len() == 0 {
        false
    } else if a.len() == 0 {
        true
    } else if a[0] != b[0] {
        a[0] < b[0]
    } else {
        bytes_before(a.skip(1), b.skip(1))
    }
}

/// The place of a component among the kinds of component.
pub open spec fn kind_rank(c: Component<Seq<u8>>) -> int {
    match c {
        Component::RootDir => 0,
        Component::CurDir => 1,
        Component::ParentDir => 2,
        Component::Normal(_) => 3,
    }
}

/// Whether one component comes before another: by kind, and names among themselves by their bytes.
pub open spec fn component_before(a: Component<Seq<u8>>, b: Component<Seq<u8>>) -> bool {
    match (a, b) {
        (Component::Normal(x), Component::Normal(y)) => bytes_before(x, y),
        _ => kind_rank(a) < kind_rank(b),
    }
}

/// Whether one list of components comes before another: by the first component in which they differ,
/// a prefix first.
pub open spec fn parts_before(a: Parts, b: Parts) -> bool
    decreases a.len(),
{
    if b.len() == 0 {
        false
    } else if a.len() == 0 {
        true
    } else if a[0] != b[0] {
        component_before(a[0], b[0])
    } else {
        parts_before(a.skip(1), b.skip(1))
    }
}

/// Whether one path comes before another: by their components.
pub open spec fn path_before(a: PathView, b: PathView) -> bool {
    parts_before(parsed(a), parsed(b))
}

/// How far below its starting point `parts` ends: names descend, `..` climbs.
pub open spec fn depth(parts: Parts) -> int
    decreases parts.len(),
{
    if parts.len() == 0 {
        0
    } else {
        depth(parts.drop_last()) + match parts.last() {
            Component::Normal(_) => 1int,
            Component::ParentDir => -1int,
            _ => 0int,
        }
    }
}

/// Whether what has these components, read from some root, never leaves it: it is not absolute, and
/// no prefix of it climbs above the root.
pub open spec fn descends(parts: Parts) -> bool {
    &&& forall|i: int| 0 <= i < parts.len() ==> !(#[trigger] parts[i] is RootDir)
    &&& forall|n: int| 0 <= n <= parts.len() ==> depth(#[trigger] parts.take(n)) >= 0
}

/// Whether `path`, read from some root, never leaves it.
pub open spec fn stays_inside(path: PathView) -> bool {
    descends(parsed(path))
}

/// There is always a piece.
proof fn lemma_pieces(text: Seq<u8>)
    ensures
        pieces(text).len() > 0,
    decreases text.len(),
{
    if text.len() > 0 {
        lemma_pieces(text.drop_last());
    }
}

/// What stands behind a slash adds its pieces to those before.
proof fn lemma_pieces_behind_slash(before: Seq<u8>, text: Seq<u8>)
    ensures
        pieces(before.push(0x2f) + text) == pieces(before) + pieces(text),
    decreases text.len(),
{
    let all = before.push(0x2f) + text;
    lemma_pieces(text);
    if text.len() == 0 {
        assert(all =~= before.push(0x2f));
        assert(all.drop_last() =~= before);
        assert(pieces(all) =~= pieces(before) + pieces(text));
    } else {
        let less = text.drop_last();
        lemma_pieces(less);
        lemma_pieces_behind_slash(before, less);
        assert(all.drop_last() =~= before.push(0x2f) + less);
        assert(all.last() == text.last());
        assert(pieces(all) =~= pieces(before) + pieces(text));
    }
}

/// What pieces stand for comes first in what they stand for with others behind them.
proof fn lemma_named_behind(before: Seq<Seq<u8>>, more: Seq<Seq<u8>>)
    requires
        before.len() > 0,
    ensures
        named(before + more) == named(before) + (if more.len() > 0 && more[0] == seq![0x2eu8] {
            named(more).skip(1)
        } else {
            named(more)
        }),
        more.len() > 0 && more[0] == seq![0x2eu8] <==> named(more).len() > 0
            && named(more)[0] is CurDir,
    decreases more.len(),
{
    let all = before + more;
    assert(seq![0x2eu8].len() == 1);
    if more.len() == 0 {
        assert(all =~= before);
        assert(named(before) + named(more) =~= named(before));
    } else {
        let less = more.drop_last();
        lemma_named_behind(before, less);
        assert(all.drop_last() =~= before + less);
        assert(all.last() == more.last());
        if more.len() == 1 {
            assert(less =~= Seq::empty());
            assert(more.last() == more[0]);
            if more[0] == seq![0x2eu8] {
                assert(named(more) =~= seq![Component::CurDir]);
                assert(named(more).skip(1) =~= Seq::empty());
            }
        } else {
            assert(less[0] == more[0]);
        }
        let rest = if more[0] == seq![0x2eu8] {
            named(more).skip(1)
        } else {
            named(more)
        };
        assert(named(all) =~= named(before) + rest);
    }
}

/// A text that is not empty spells something.
proof fn lemma_spells(text: PathView)
    ensures
        text.len() == 0 <==> parsed(text).len() == 0,
        text.len() > 0 && text[0] == 0x2f <==> parsed(text).len() > 0 && parsed(text)[0] is RootDir,
    decreases text.len(),
{
    reveal(parsed);
    lemma_no_root(pieces(text));
    lemma_pieces(text);
    if text.len() == 0 {
        assert(pieces(text).drop_last() =~= Seq::empty());
        assert(named(Seq::empty()) =~= Seq::empty());
        assert(named(pieces(text)) =~= Seq::empty());
    } else {
        let before = text.drop_last();
        if before.len() > 0 {
            assert(before[0] == text[0]);
            lemma_spells(before);
            lemma_parsed_grows(before, text.last());
            assert(before.push(text.last()) =~= text);
        } else if text[0] != 0x2f {
            let piece = seq![text[0]];
            assert(pieces(before) == seq![Seq::<u8>::empty()]);
            assert(pieces(text) =~= seq![piece]);
            assert(seq![piece].drop_last() =~= Seq::empty());
            assert(named(Seq::empty()) =~= Seq::empty());
            assert(named(pieces(text)).len() == 1);
        }
    }
}

/// No piece stands for the leading slash.
proof fn lemma_no_root(all: Seq<Seq<u8>>)
    ensures
        forall|i: int| 0 <= i < named(all).len() ==> !(#[trigger] named(all)[i] is RootDir),
    decreases all.len(),
{
    if all.len() > 0 {
        let before = named(all.drop_last());
        lemma_no_root(all.drop_last());
        assert forall|i: int| 0 <= i < named(all).len() implies !(
        #[trigger] named(all)[i] is RootDir) by {
            if i < before.len() {
                assert(named(all)[i] == before[i]);
            }
        }
    }
}

/// The components of a path that is read from another are those of the two, one behind the other.
pub proof fn law_components_are_joined(base: PathView, rel: PathView)
    ensures
        parsed(joined(base, rel)) == joined_parts(parsed(base), parsed(rel)),
{
    let all = joined(base, rel);
    lemma_spells(base);
    lemma_spells(rel);
    if rel.len() > 0 && rel[0] == 0x2f {
    } else if base.len() == 0 {
        assert(all =~= rel);
        assert(parsed(base) + parsed(rel) =~= parsed(rel));
    } else {
        reveal(parsed);
        let before = if base.last() == 0x2f {
            base.drop_last()
        } else {
            base
        };
        lemma_pieces(before);
        assert(all =~= before.push(0x2f) + rel);
        lemma_pieces_behind_slash(before, rel);
        lemma_named_behind(pieces(before), pieces(rel));
        lemma_pieces(rel);
        if base.last() == 0x2f {
            assert(base =~= before.push(0x2f));
            assert(pieces(base).drop_last() =~= pieces(before));
            assert(named(pieces(base)) == named(pieces(before)));
        }
        assert(all[0] == base[0]);
        assert(parsed(all) =~= joined_parts(parsed(base), parsed(rel)));
    }
}

/// One more byte takes no component away.
proof fn lemma_parsed_grows(text: PathView, byte: u8)
    ensures
        parsed(text.push(byte)).len() >= parsed(text).len(),
{
    reveal(parsed);
    let all = text.push(byte);
    lemma_pieces(text);
    assert(all.drop_last() =~= text);
    if text.len() > 0 {
        assert(all[0] == text[0]);
    }
    let before = pieces(text);
    if byte == 0x2f {
        assert(pieces(all).drop_last() =~= before);
    } else {
        assert(pieces(all).drop_last() =~= before.drop_last());
        assert(pieces(all).last() =~= before.last().push(byte));
        assert(seq![0x2eu8].len() == 1);
        if before.last().len() > 0 {
            assert(pieces(all).last().len() > 1);
        }
    }
}

/// What stands behind a slash takes no component away.
proof fn lemma_parsed_behind_slash(before: PathView, text: PathView)
    requires
        before.len() > 0,
    ensures
        parsed(before).is_prefix_of(parsed(before.push(0x2f) + text)),
{
    reveal(parsed);
    let all = before.push(0x2f) + text;
    lemma_pieces(before);
    lemma_pieces_behind_slash(before, text);
    lemma_named_behind(pieces(before), pieces(text));
    assert(all[0] == before[0]);
    let (less, more) = (parsed(before), parsed(all));
    assert(less =~= more.subrange(0, less.len() as int));
}

/// A byte that goes on with a component makes it another.
proof fn lemma_last_byte(text: PathView, byte: u8)
    requires
        byte != 0x2f,
        named(pieces(text.push(byte))) != named(pieces(text.push(byte)).drop_last()),
    ensures
        parsed(text.push(byte)) != parsed(text),
{
    reveal(parsed);
    let all = text.push(byte);
    lemma_pieces(text);
    assert(all.drop_last() =~= text);
    if text.len() > 0 {
        assert(all[0] == text[0]);
    }
    let before = pieces(text);
    let first = before.drop_last();
    assert(pieces(all).drop_last() =~= first);
    let (less, more) = (before.last(), pieces(all).last());
    assert(more =~= less.push(byte));
    assert(more.len() == less.len() + 1);
    assert(seq![0x2eu8].len() == 1 && seq![0x2eu8, 0x2eu8].len() == 2);
    assert(before =~= first.push(less));
    let n = named(first).len() as int;
    assert(named(pieces(all)).len() == n + 1);
    if named(before).len() == n {
        assert(parsed(all).len() != parsed(text).len());
    } else {
        assert(named(before).len() == n + 1);
        assert(named(pieces(all))[n] != named(before)[n]);
        if text.len() > 0 && text[0] == 0x2f {
            assert(parsed(all)[n + 1] == named(pieces(all))[n]);
            assert(parsed(text)[n + 1] == named(before)[n]);
        } else {
            assert(parsed(all)[n] == named(pieces(all))[n]);
            assert(parsed(text)[n] == named(before)[n]);
        }
    }
}

/// Whether the first `m` bytes of `text` spell `parts` and no more, and what follows adds to that.
spec fn marks(text: PathView, m: int, parts: Parts) -> bool {
    &&& 0 < m <= text.len()
    &&& parsed(text.take(m)) == parts
    &&& parsed(text.take(m - 1)) != parts
    &&& m == text.len() || text[m] == 0x2f || text.take(m) == seq![0x2fu8]
}

/// A text is cut back to where its first components end.
proof fn lemma_stem(text: PathView, m: int, parts: Parts, n: int)
    requires
        marks(text, m, parts),
        m <= n <= text.len(),
    ensures
        stem_of(text.take(n), parts) == text.take(m),
        parts.is_prefix_of(parsed(text.take(n))),
    decreases n,
{
    let here = text.take(n);
    assert(here.drop_last() =~= text.take(n - 1));
    if n == m {
        assert(parts =~= parts.subrange(0, parts.len() as int));
    } else {
        lemma_stem(text, m, parts, n - 1);
        lemma_parsed_grows(text.take(n - 1), text[n - 1]);
        assert(text.take(n - 1).push(text[n - 1]) =~= here);
        if text[m] == 0x2f {
            let rest = text.subrange(m + 1, n);
            assert(here =~= text.take(m).push(0x2f) + rest);
            lemma_parsed_behind_slash(text.take(m), rest);
        } else {
            reveal(parsed);
            lemma_root();
            assert(here[0] == text.take(m)[0]);
            assert(parts =~= parsed(here).subrange(0, 1));
        }
        if parsed(here) == parts {
            assert(parsed(text.take(n - 1)) =~= parts);
        }
    }
}

/// A lone slash is the leading one.
proof fn lemma_root()
    ensures
        parsed(seq![0x2fu8]) == seq![Component::<Seq<u8>>::RootDir],
        parsed(Seq::empty()) == Seq::<Component<Seq<u8>>>::empty(),
{
    reveal(parsed);
    reveal_with_fuel(pieces, 3);
    reveal_with_fuel(named, 3);
    assert(seq![0x2fu8].drop_last() =~= Seq::empty());
    let all = pieces(seq![0x2fu8]);
    assert(all =~= seq![Seq::<u8>::empty(), Seq::<u8>::empty()]);
    assert(all.drop_last() =~= seq![Seq::<u8>::empty()]);
    assert(all.drop_last().drop_last() =~= Seq::empty());
    assert(named(all) =~= Seq::empty());
    assert(parsed(seq![0x2fu8]) =~= seq![Component::<Seq<u8>>::RootDir]);
    assert(named(seq![Seq::<u8>::empty()]) =~= Seq::empty());
}

/// Whether `name` can be the name of something: it is not empty, has no slash in it, and is neither
/// `.` nor `..`.
pub open spec fn is_name(name: Seq<u8>) -> bool {
    &&& name.len() > 0
    &&& !name.contains(0x2f)
    &&& name != seq![0x2eu8]
    &&& name != seq![0x2eu8, 0x2eu8]
}

/// A text without slashes is one piece.
proof fn lemma_one_piece(text: Seq<u8>)
    requires
        !text.contains(0x2f),
    ensures
        pieces(text) == seq![text],
    decreases text.len(),
{
    if text.len() == 0 {
        assert(text =~= Seq::empty());
        assert(pieces(text) =~= seq![text]);
    } else {
        let less = text.drop_last();
        assert(!less.contains(0x2f)) by {
            assert forall|k: int| 0 <= k < less.len() implies less[k] != 0x2f by {
                assert(text[k] == less[k]);
                assert(text.contains(text[k]));
            }
        }
        lemma_one_piece(less);
        assert(text.contains(text[text.len() - 1]));
        assert(less.push(text.last()) =~= text);
        assert(pieces(text) =~= seq![text]);
    }
}

/// What one piece stands for when it comes first.
proof fn lemma_named_one(piece: Seq<u8>)
    ensures
        named(seq![piece]) == (if piece.len() == 0 {
            Seq::<Component<Seq<u8>>>::empty()
        } else if piece == seq![0x2eu8] {
            seq![Component::CurDir]
        } else if piece == seq![0x2eu8, 0x2eu8] {
            seq![Component::ParentDir]
        } else {
            seq![Component::Normal(piece)]
        }),
{
    let one = seq![piece];
    assert(one.drop_last() =~= Seq::empty());
    assert(named(Seq::empty()) =~= Seq::empty());
    assert(one.last() == piece);
    if piece.len() > 0 {
        if piece == seq![0x2eu8] {
            assert(named(one) =~= seq![Component::CurDir]);
        } else if piece == seq![0x2eu8, 0x2eu8] {
            assert(named(one) =~= seq![Component::ParentDir]);
        } else {
            assert(named(one) =~= seq![Component::Normal(piece)]);
        }
    }
}

/// A name is a path of one component, and so are a lone slash, a lone `.` and a lone `..`. An empty
/// text has none.
pub proof fn law_one_component(name: Seq<u8>)
    requires
        is_name(name),
    ensures
        parsed(name) == seq![Component::Normal(name)],
        parsed(seq![0x2fu8]) == seq![Component::<Seq<u8>>::RootDir],
        parsed(seq![0x2eu8]) == seq![Component::<Seq<u8>>::CurDir],
        parsed(seq![0x2eu8, 0x2eu8]) == seq![Component::<Seq<u8>>::ParentDir],
        parsed(Seq::empty()) == Seq::<Component<Seq<u8>>>::empty(),
{
    reveal(parsed);
    lemma_root();
    assert(name.contains(name[0]));
    lemma_one_piece(name);
    lemma_named_one(name);
    let (dot, dots) = (seq![0x2eu8], seq![0x2eu8, 0x2eu8]);
    assert(dot.len() == 1 && dots.len() == 2 && dot[0] == 0x2e && dots[0] == 0x2e && dots[1]
        == 0x2e);
    assert(!dot.contains(0x2f));
    assert(!dots.contains(0x2f));
    lemma_one_piece(dot);
    lemma_one_piece(dots);
    lemma_named_one(dot);
    lemma_named_one(dots);
}

/// A slash parts components: behind one a name is a component more, and so is a `..`. Nothing, or a
/// `.`, is none, so that repeated and trailing slashes say nothing, and neither does a `.` that is
/// not in front.
pub proof fn law_slash_parts_components(path: PathView, name: Seq<u8>)
    requires
        path.len() > 0,
        is_name(name),
    ensures
        parsed(path.push(0x2f)) == parsed(path),
        parsed(path.push(0x2f) + seq![0x2eu8]) == parsed(path),
        parsed(path.push(0x2f) + seq![0x2eu8, 0x2eu8]) == parsed(path).push(Component::ParentDir),
        parsed(path.push(0x2f) + name) == parsed(path).push(Component::Normal(name)),
        parsed(seq![0x2fu8] + name) == seq![Component::RootDir, Component::Normal(name)],
{
    let (dot, dots) = (seq![0x2eu8], seq![0x2eu8, 0x2eu8]);
    assert(dot.len() == 1 && dots.len() == 2 && dot[0] == 0x2e && dots[0] == 0x2e && dots[1]
        == 0x2e);
    assert(!dot.contains(0x2f));
    assert(!dots.contains(0x2f));
    let none = Seq::<u8>::empty();
    lemma_behind(path, none);
    lemma_behind(path, dot);
    lemma_behind(path, dots);
    lemma_behind(path, name);
    assert(path.push(0x2f) + none =~= path.push(0x2f));
    assert(seq![Component::<Seq<u8>>::CurDir].skip(1) =~= Seq::empty());
    assert(parsed(path) + Seq::empty() =~= parsed(path));
    assert(parsed(path) + seq![Component::ParentDir] =~= parsed(path).push(Component::ParentDir));
    assert(parsed(path) + seq![Component::Normal(name)] =~= parsed(path).push(
        Component::Normal(name),
    ));
    reveal(parsed);
    let slash = seq![0x2fu8];
    assert(Seq::<u8>::empty().push(0x2f) =~= slash);
    lemma_pieces_behind_slash(none, name);
    lemma_one_piece(name);
    lemma_one_piece(none);
    lemma_named_one(none);
    lemma_named_one(name);
    lemma_named_behind(pieces(none), pieces(name));
    assert((slash + name)[0] == 0x2f);
    assert(parsed(slash + name) =~= seq![Component::RootDir, Component::Normal(name)]);
}

/// What one piece behind a slash adds.
proof fn lemma_behind(path: PathView, piece: Seq<u8>)
    requires
        path.len() > 0,
        !piece.contains(0x2f),
    ensures
        parsed(path.push(0x2f) + piece) == parsed(path) + (if piece == seq![0x2eu8] {
            named(seq![piece]).skip(1)
        } else {
            named(seq![piece])
        }),
        named(seq![piece]) == (if piece.len() == 0 {
            Seq::<Component<Seq<u8>>>::empty()
        } else if piece == seq![0x2eu8] {
            seq![Component::CurDir]
        } else if piece == seq![0x2eu8, 0x2eu8] {
            seq![Component::ParentDir]
        } else {
            seq![Component::Normal(piece)]
        }),
{
    reveal(parsed);
    lemma_pieces(path);
    lemma_one_piece(piece);
    lemma_named_one(piece);
    lemma_pieces_behind_slash(path, piece);
    lemma_named_behind(pieces(path), pieces(piece));
    let all = path.push(0x2f) + piece;
    assert(all[0] == path[0]);
    let more = if piece == seq![0x2eu8] {
        named(seq![piece]).skip(1)
    } else {
        named(seq![piece])
    };
    assert(parsed(all) =~= parsed(path) + more);
}

/// Paths are the same exactly if their components are, so that repeated and trailing slashes make no
/// difference; what is the same is at or below the same.
pub proof fn law_same_by_components(a: PathView, b: PathView, c: PathView)
    ensures
        same(a, b) <==> parsed(a) == parsed(b),
        a.len() > 0 ==> same(a, a.push(0x2f)),
        same(a, b) ==> lies_below(a, b) && lies_below(b, a),
        same(a, b) ==> (lies_below(a, c) <==> lies_below(b, c)),
        lies_below(a, b) && lies_below(b, c) ==> lies_below(a, c),
{
    if a.len() > 0 {
        let name = seq![0x61u8];
        assert(name.len() == 1 && name[0] == 0x61);
        assert(!name.contains(0x2f));
        assert(seq![0x2eu8][0] == 0x2e);
        assert(seq![0x2eu8, 0x2eu8].len() == 2);
        law_slash_parts_components(a, name);
    }
    let (x, y, z) = (resolved(a), resolved(b), resolved(c));
    assert(x.subrange(0, x.len() as int) =~= x);
    if lies_below(a, b) && lies_below(b, c) {
        assert(y.subrange(0, z.len() as int) =~= x.subrange(0, z.len() as int));
    }
}

/// A relative path that is joined to another comes behind all of it, and an absolute one stands on
/// its own. Nothing but a slash goes between.
pub proof fn law_joined_texts(base: PathView, rel: PathView)
    ensures
        rel.len() > 0 && rel[0] == 0x2f ==> joined(base, rel) == rel,
        !(rel.len() > 0 && rel[0] == 0x2f) ==> {
            let all = joined(base, rel);
            &&& base.is_prefix_of(all)
            &&& all.skip(all.len() - rel.len()) == rel
            &&& base.len() + rel.len() <= all.len() <= base.len() + rel.len() + 1
            &&& base.len() > 0 && rel.len() > 0 ==> all[all.len() - rel.len() - 1] == 0x2f
            &&& base.len() == 0 || base.last() == 0x2f ==> all == base + rel
        },
{
    if !(rel.len() > 0 && rel[0] == 0x2f) {
        let all = joined(base, rel);
        assert(all.subrange(0, base.len() as int) =~= base);
        assert(all.skip(all.len() - rel.len()) =~= rel);
    }
}

/// The components of what a text is cut back to.
proof fn lemma_cut_back(text: PathView)
    ensures
        parsed(stem_of(text, parsed(text))) == parsed(text),
    decreases text.len(),
{
    if text.len() > 0 && parsed(text.drop_last()) == parsed(text) {
        lemma_cut_back(text.drop_last());
    }
}

/// One more byte adds a component behind the others, or is one of the last component.
proof fn lemma_one_more_byte(text: PathView, byte: u8)
    ensures
        ({
            let (less, more) = (parsed(text), parsed(text.push(byte)));
            ||| more == less
            ||| more.len() > 0 && more.drop_last() == less
            ||| more.len() > 0 && less.len() > 0 && more.drop_last() == less.drop_last()
        }),
{
    reveal(parsed);
    let all = text.push(byte);
    lemma_pieces(text);
    assert(all.drop_last() =~= text);
    if text.len() > 0 {
        assert(all[0] == text[0]);
    }
    let before = pieces(text);
    let (less, more) = (parsed(text), parsed(all));
    if byte == 0x2f {
        assert(pieces(all).drop_last() =~= before);
        assert(named(pieces(all)) == named(before));
        if text.len() == 0 {
            lemma_root();
            assert(all =~= seq![0x2fu8]);
            assert(text =~= Seq::empty());
            assert(more.drop_last() =~= less);
        }
    } else {
        let first = before.drop_last();
        assert(pieces(all).drop_last() =~= first);
        assert(before =~= first.push(before.last()));
        let n = named(first);
        assert(named(before) == n || named(before).drop_last() =~= n);
        assert(named(pieces(all)) == n || named(pieces(all)).drop_last() =~= n);
        assert(before.last().len() > 0 && before.last() != seq![0x2eu8] ==> named(before) != n);
        let root = if text.len() > 0 && text[0] == 0x2f {
            seq![Component::RootDir]
        } else {
            Seq::<Component<Seq<u8>>>::empty()
        };
        assert(less =~= root + named(before));
        assert(more =~= root + named(pieces(all)));
        assert(pieces(all).last() =~= before.last().push(byte));
        assert(seq![0x2eu8].len() == 1);
        if named(pieces(all)) == n {
            assert(named(before) =~= n) by {
                assert(pieces(all).last() == seq![0x2eu8]);
                assert(before.last().len() == 0);
            }
        } else {
            assert(more.drop_last() =~= root + n);
            if named(before) != n {
                assert(less.drop_last() =~= root + n);
            } else {
                assert(less =~= root + n);
            }
        }
    }
}

/// The components of a text that was cut back to all but its last.
proof fn lemma_stem_parts(text: PathView)
    requires
        parsed(text).len() > 0,
    ensures
        parsed(stem_of(text, parsed(text).drop_last())) == parsed(text).drop_last(),
    decreases text.len(),
{
    lemma_spells(text);
    let less = text.drop_last();
    let want = parsed(text).drop_last();
    assert(want.len() < parsed(text).len());
    assert(less.push(text.last()) =~= text);
    lemma_one_more_byte(less, text.last());
    if parsed(less) == parsed(text) {
        lemma_stem_parts(less);
    } else if parsed(less) == want {
        lemma_cut_back(less);
    } else {
        lemma_stem_parts(less);
    }
}

/// What a text is cut back to is the beginning of it.
proof fn lemma_stem_prefix(text: PathView, parts: Parts)
    ensures
        stem_of(text, parts).is_prefix_of(text),
    decreases text.len(),
{
    if text.len() > 0 {
        lemma_stem_prefix(text.drop_last(), parts);
        let stem = stem_of(text, parts);
        if stem.len() == text.len() {
            assert(text.subrange(0, text.len() as int) =~= text);
        } else {
            assert(text.drop_last().subrange(0, stem.len() as int) =~= text.subrange(
                0,
                stem.len() as int,
            ));
        }
    } else {
        assert(text.subrange(0, 0) =~= text);
    }
}

/// The directory that holds an entry has all components of the entry's path but the last, and is
/// spelled as that path begins. There is one exactly if the path has two components or more.
pub proof fn law_parent_holds_the_entry(path: PathView)
    ensures
        parent_of(path) is Some <==> parsed(path).len() >= 2,
        parent_of(path) matches Some(dir) ==> parsed(dir) == parsed(path).drop_last()
            && dir.is_prefix_of(path),
{
    if parsed(path).len() >= 2 {
        lemma_stem_parts(path);
        lemma_stem_prefix(path, parsed(path).drop_last());
    }
}

/// Where components lead if no link is in the way: `.` goes nowhere, and `..` takes back the name
/// before it.
pub open spec fn followed_out(parts: Parts) -> Parts
    decreases parts.len(),
{
    if parts.len() == 0 {
        parts
    } else {
        let before = followed_out(parts.drop_last());
        match parts.last() {
            Component::RootDir => seq![Component::RootDir],
            Component::CurDir => before,
            Component::ParentDir => if before.len() == 0 || before.last() is ParentDir {
                before.push(Component::ParentDir)
            } else if before.last() is Normal {
                before.drop_last()
            } else {
                before
            },
            Component::Normal(name) => before.push(Component::Normal(name)),
        }
    }
}

/// Where `path` ends if no link is in the way.
pub open spec fn resolved(path: PathView) -> Parts {
    followed_out(parsed(path))
}

/// Whether `path` is at or below `top`, as their names say.
pub open spec fn lies_below(path: PathView, top: PathView) -> bool {
    resolved(top).is_prefix_of(resolved(path))
}

/// What `path` adds to where `root` ends, as long as it stays inside: names, as many as it is deep.
proof fn lemma_resolved_below(root: Parts, path: Parts)
    requires
        descends(path),
    ensures
        ({
            let top = followed_out(root);
            let end = followed_out(root + path);
            &&& end.len() == top.len() + depth(path)
            &&& end.take(top.len() as int) == top
            &&& forall|i: int| top.len() <= i < end.len() ==> (#[trigger] end[i]) is Normal
        }),
    decreases path.len(),
{
    let top = followed_out(root);
    let end = followed_out(root + path);
    if path.len() == 0 {
        assert(root + path =~= root);
        assert(end.take(top.len() as int) =~= top);
    } else {
        let before = path.drop_last();
        let reached = followed_out(root + before);
        assert(descends(before)) by {
            assert forall|n: int| 0 <= n <= before.len() implies depth(
                #[trigger] before.take(n),
            ) >= 0 by {
                assert(before.take(n) =~= path.take(n));
            }
            assert forall|i: int| 0 <= i < before.len() implies !(
            #[trigger] before[i] is RootDir) by {
                assert(before[i] == path[i]);
            }
        }
        lemma_resolved_below(root, before);
        assert((root + path).drop_last() =~= root + before);
        assert((root + path).last() == path.last());
        assert(path.take(path.len() as int) =~= path);
        assert(depth(path) >= 0);
        assert(!(path[path.len() - 1] is RootDir));
        assert(end.take(top.len() as int) =~= reached.take(top.len() as int));
    }
}

/// Names lead where they say, a `.` leads nowhere, and a `..` takes back the name before it. Above
/// the beginning of an absolute path there is nothing.
pub proof fn law_steps_lead_where_they_say(parts: Parts, name: Seq<u8>)
    ensures
        followed_out(parts.push(Component::Normal(name))) == followed_out(parts).push(
            Component::Normal(name),
        ),
        followed_out(parts.push(Component::CurDir)) == followed_out(parts),
        followed_out(parts.push(Component::Normal(name)).push(Component::ParentDir))
            == followed_out(parts),
        followed_out(seq![Component::RootDir, Component::ParentDir]) == seq![
            Component::<Seq<u8>>::RootDir,
        ],
        followed_out(Seq::empty()) == Seq::<Component<Seq<u8>>>::empty(),
        followed_out(seq![Component::ParentDir]) == seq![Component::<Seq<u8>>::ParentDir],
{
    let down = parts.push(Component::Normal(name));
    let up = down.push(Component::ParentDir);
    assert(down.drop_last() =~= parts);
    assert(up.drop_last() =~= down);
    assert(parts.push(Component::CurDir).drop_last() =~= parts);
    assert(followed_out(down).drop_last() =~= followed_out(parts));
    assert(followed_out(down).last() == Component::Normal(name));
    let root = seq![Component::<Seq<u8>>::RootDir];
    let above = seq![Component::<Seq<u8>>::RootDir, Component::ParentDir];
    assert(above.drop_last() =~= root);
    assert(above.last() is ParentDir);
    assert(root.last() is RootDir);
    assert(followed_out(root) =~= root);
    let one = seq![Component::<Seq<u8>>::ParentDir];
    assert(one.drop_last() =~= Seq::empty());
    assert(one.last() is ParentDir);
    assert(followed_out(one.drop_last()) =~= Seq::empty());
    assert(followed_out(one) =~= one);
}

/// A path that is let through ends inside the root, as far as names say where it ends.
pub proof fn law_guarded_path_ends_inside(root: PathView, path: PathView)
    requires
        stays_inside(path),
    ensures
        resolved(root).is_prefix_of(resolved(joined(root, path))),
{
    law_components_are_joined(root, path);
    let (root, path) = (parsed(root), parsed(path));
    let top = followed_out(root);
    assert(path.take(path.len() as int) =~= path);
    lemma_resolved_below(root, path);
    if path.len() > 0 && path[0] is CurDir && root.len() > 0 {
        let rest = path.skip(1);
        assert(root + rest =~= joined_parts(root, path));
        lemma_leading_dot(root, path);
        assert(followed_out(root + rest).take(top.len() as int) =~= top);
    } else {
        if path.len() > 0 {
            assert(!(path[0] is RootDir));
        }
        assert(followed_out(root + path).take(top.len() as int) =~= top);
    }
}

/// Whether these components lead above where they are read from.
pub open spec fn leaves(parts: Parts) -> bool {
    followed_out(parts).len() > 0 && followed_out(parts)[0] is ParentDir
}

/// A path is let through exactly if it is not absolute, and at no point on its way leads above where
/// it is read from.
pub proof fn law_guard_stops_what_leaves(path: PathView)
    ensures
        stays_inside(path) <==> !(path.len() > 0 && path[0] == 0x2f) && forall|n: int|
            0 <= n <= parsed(path).len() ==> !leaves(#[trigger] parsed(path).take(n)),
{
    let parts = parsed(path);
    let none = Seq::<Component<Seq<u8>>>::empty();
    lemma_spells(path);
    lemma_root_in_front(path);
    if stays_inside(path) {
        assert forall|n: int| 0 <= n <= parts.len() implies !leaves(#[trigger] parts.take(n)) by {
            lemma_descends_prefix(parts, n);
            lemma_resolved_below(none, parts.take(n));
            assert(none + parts.take(n) =~= parts.take(n));
        }
        if path.len() > 0 && path[0] == 0x2f {
            assert(!(parts[0] is RootDir));
        }
    } else if !(path.len() > 0 && path[0] == 0x2f) {
        let n = choose|n: int| 0 <= n <= parts.len() && depth(#[trigger] parts.take(n)) < 0;
        lemma_climbs_out(parts, n);
    }
}

/// Only the first component can be the leading slash, and only of an absolute path.
proof fn lemma_root_in_front(path: PathView)
    ensures
        !(path.len() > 0 && path[0] == 0x2f) ==> forall|i: int|
            0 <= i < parsed(path).len() ==> !(#[trigger] parsed(path)[i] is RootDir),
{
    reveal(parsed);
    lemma_no_root(pieces(path));
}

/// What never leaves has no beginning that does.
proof fn lemma_descends_prefix(parts: Parts, n: int)
    requires
        descends(parts),
        0 <= n <= parts.len(),
    ensures
        descends(parts.take(n)),
{
    let less = parts.take(n);
    assert forall|i: int| 0 <= i < less.len() implies !(#[trigger] less[i] is RootDir) by {
        assert(less[i] == parts[i]);
    }
    assert forall|m: int| 0 <= m <= less.len() implies depth(#[trigger] less.take(m)) >= 0 by {
        assert(less.take(m) =~= parts.take(m));
    }
}

/// What climbs above where it is read from leads there at some point.
proof fn lemma_climbs_out(parts: Parts, n: int)
    requires
        forall|i: int| 0 <= i < parts.len() ==> !(#[trigger] parts[i] is RootDir),
        0 <= n <= parts.len(),
        depth(parts.take(n)) < 0,
    ensures
        exists|m: int| 0 <= m <= parts.len() && leaves(#[trigger] parts.take(m)),
    decreases n,
{
    let none = Seq::<Component<Seq<u8>>>::empty();
    if n == 0 {
        assert(parts.take(0) =~= none);
    } else {
        let (here, less) = (parts.take(n), parts.take(n - 1));
        assert(here.drop_last() =~= less);
        if descends(less) {
            lemma_resolved_below(none, less);
            assert(none + less =~= less);
            assert(less.take(less.len() as int) =~= less);
            assert(depth(less) == 0);
            assert(followed_out(less) =~= none);
            assert(here.last() is ParentDir);
            assert(followed_out(here) =~= none.push(Component::ParentDir));
            assert(leaves(parts.take(n)));
        } else {
            assert forall|i: int| 0 <= i < less.len() implies !(#[trigger] less[i] is RootDir) by {
                assert(less[i] == parts[i]);
            }
            let m = choose|m: int| 0 <= m <= less.len() && depth(#[trigger] less.take(m)) < 0;
            assert(less.take(m) =~= parts.take(m));
            lemma_climbs_out(parts, m);
        }
    }
}

/// A `.` in the middle says nothing about where a path ends.
proof fn lemma_leading_dot(root: Parts, path: Parts)
    requires
        path.len() > 0,
        path[0] is CurDir,
    ensures
        followed_out(root + path) == followed_out(root + path.skip(1)),
    decreases path.len(),
{
    if path.len() == 1 {
        assert((root + path).drop_last() =~= root);
        assert(root + path.skip(1) =~= root);
    } else {
        lemma_leading_dot(root, path.drop_last());
        assert((root + path).drop_last() =~= root + path.drop_last());
        assert((root + path.skip(1)).drop_last() =~= root + path.drop_last().skip(1));
        assert((root + path.skip(1)).last() == path.last());
    }
}

/// Whether two byte strings are equal.
pub(crate) fn same_bytes(a: &[u8], b: &[u8]) -> (same: bool)
    ensures
        same == (a@ == b@),
{
    if a.len() != b.len() {
        return false;
    }
    let mut i: usize = 0;
    while i < a.len()
        invariant
            a.len() == b.len(),
            i <= a.len(),
            forall|j: int| 0 <= j < i ==> a@[j] == b@[j],
        decreases a.len() - i,
    {
        if a[i] != b[i] {
            return false;
        }
        i += 1;
    }
    assert(a@ =~= b@);
    true
}

/// Whether one name comes before another.
fn name_before(a: &[u8], b: &[u8]) -> (before: bool)
    ensures
        before == bytes_before(a@, b@),
{
    let mut i: usize = 0;
    assert(a@.skip(0) =~= a@);
    assert(b@.skip(0) =~= b@);
    loop
        invariant
            i <= a.len(),
            i <= b.len(),
            bytes_before(a@, b@) == bytes_before(a@.skip(i as int), b@.skip(i as int)),
        decreases a.len() - i,
    {
        if i == b.len() {
            return false;
        }
        if i == a.len() {
            return true;
        }
        assert(a@.skip(i as int).skip(1) =~= a@.skip(i as int + 1));
        assert(b@.skip(i as int).skip(1) =~= b@.skip(i as int + 1));
        if a[i] != b[i] {
            return a[i] < b[i];
        }
        i += 1;
    }
}

/// Puts `more` behind `bytes`.
pub(crate) fn append(bytes: &mut Vec<u8>, more: &[u8])
    ensures
        final(bytes)@ == old(bytes)@ + more@,
{
    let ghost before = bytes@;
    bytes.extend_from_slice(more);
    assert(bytes@ =~= before + more@);
}

/// A copy of a byte string.
pub(crate) fn copied(bytes: &[u8]) -> (copy: Vec<u8>)
    ensures
        copy@ == bytes@,
{
    let mut copy: Vec<u8> = Vec::new();
    copy.extend_from_slice(bytes);
    assert(copy@ =~= bytes@);
    copy
}

impl Component<Vec<u8>> {
    fn copy(&self) -> (copy: Component)
        ensures
            copy@ == self@,
    {
        match self {
            Component::RootDir => Component::RootDir,
            Component::CurDir => Component::CurDir,
            Component::ParentDir => Component::ParentDir,
            Component::Normal(name) => Component::Normal(copied(name)),
        }
    }

    fn is_before(&self, other: &Component) -> (before: bool)
        ensures
            before == component_before(self@, other@),
    {
        match (self, other) {
            (Component::Normal(a), Component::Normal(b)) => name_before(a, b),
            (_, Component::RootDir) => false,
            (Component::RootDir, _) => true,
            (_, Component::CurDir) => false,
            (Component::CurDir, _) => true,
            (_, Component::ParentDir) => false,
            (Component::ParentDir, _) => true,
        }
    }

    fn same(&self, other: &Component) -> (same: bool)
        ensures
            same == (self@ == other@),
    {
        match (self, other) {
            (Component::RootDir, Component::RootDir) => true,
            (Component::CurDir, Component::CurDir) => true,
            (Component::ParentDir, Component::ParentDir) => true,
            (Component::Normal(a), Component::Normal(b)) => same_bytes(a, b),
            _ => false,
        }
    }
}

/// What one piece of a path text stands for, if anything.
fn component_of(piece: Vec<u8>, first: bool) -> (component: Option<Component>)
    ensures
        match component {
            None => piece@.len() == 0 || (piece@ == seq![0x2eu8] && !first),
            Some(Component::CurDir) => piece@ == seq![0x2eu8] && first,
            Some(Component::ParentDir) => piece@ == seq![0x2eu8, 0x2eu8],
            Some(Component::Normal(name)) => name@ == piece@ && piece@.len() > 0 && piece@ != seq![
                0x2eu8,
            ] && piece@ != seq![0x2eu8, 0x2eu8],
            Some(Component::RootDir) => false,
        },
{
    if piece.len() == 0 {
        None
    } else if piece.len() == 1 && piece[0] == 0x2e {
        assert(piece@ =~= seq![0x2eu8]);
        if first {
            Some(Component::CurDir)
        } else {
            None
        }
    } else if piece.len() == 2 && piece[0] == 0x2e && piece[1] == 0x2e {
        assert(piece@ =~= seq![0x2eu8, 0x2eu8]);
        assert(seq![0x2eu8].len() == 1);
        Some(Component::ParentDir)
    } else {
        assert(piece@ != seq![0x2eu8]) by {
            if piece@ == seq![0x2eu8] {
                assert(piece@[0] == 0x2e);
            }
        }
        assert(piece@ != seq![0x2eu8, 0x2eu8]) by {
            if piece@ == seq![0x2eu8, 0x2eu8] {
                assert(piece@[0] == 0x2e && piece@[1] == 0x2e);
            }
        }
        Some(Component::Normal(piece))
    }
}

/// The views of one more value.
pub proof fn lemma_views_push<T: View>(s: Seq<T>, t: T)
    ensures
        views(s.push(t)) == views(s).push(t@),
{
    assert(views(s.push(t)) =~= views(s).push(t@));
}

/// Adds to `components` what the next piece of a text stands for.
fn add_piece(components: &mut Vec<Component>, piece: Vec<u8>, first: bool, before: Ghost<Seq<Seq<u8>>>)
    requires
        first == (before@.len() == 0),
    ensures
        forall|root: Parts|
            views(old(components)@) == root + named(before@) ==> #[trigger] views(
                final(components)@,
            ) == root + named(before@.push(piece@)),
{
    let ghost old_components = components@;
    let ghost text = piece@;
    let ghost now = before@.push(text);
    assert(now.drop_last() =~= before@);
    let component = component_of(piece, first);
    match component {
        Some(c) => {
            proof {
                lemma_views_push(old_components, c);
            }
            components.push(c);
            assert forall|root: Parts|
                views(old_components) == root + named(before@) implies #[trigger] views(
                components@,
            ) == root + named(now) by {
                assert(root + named(before@).push(c@) =~= (root + named(before@)).push(c@));
            }
        },
        None => {},
    }
}

/// The text up to the end of a component is marked by it.
proof fn lemma_marked(
    text: PathView,
    i: int,
    root: Parts,
    before: Seq<Seq<u8>>,
    piece: Seq<u8>,
    earlier: Parts,
)
    requires
        0 <= i <= text.len(),
        i == text.len() || text[i] == 0x2f,
        root == if text.len() > 0 && text[0] == 0x2f {
            seq![Component::RootDir]
        } else {
            Seq::<Component<Seq<u8>>>::empty()
        },
        pieces(text.take(i)) == before.push(piece),
        earlier == root + named(before),
        named(before.push(piece)).len() > named(before).len(),
    ensures
        marks(text, i, root + named(before.push(piece))),
        (root + named(before.push(piece))).drop_last() == earlier,
{
    reveal(parsed);
    let all = before.push(piece);
    assert(all.drop_last() =~= before);
    assert(all.last() == piece);
    assert(piece.len() > 0);
    let here = text.take(i);
    if i == 0 {
        assert(here =~= Seq::empty());
        assert(pieces(here).last() =~= Seq::empty());
    }
    let (less, byte) = (text.take(i - 1), text[i - 1]);
    assert(here.drop_last() =~= less);
    assert(here =~= less.push(byte));
    if byte == 0x2f {
        assert(pieces(here).last() =~= Seq::empty());
    }
    lemma_last_byte(less, byte);
    assert(here[0] == text[0]);
    assert(Seq::<Component<Seq<u8>>>::empty() + named(all) =~= named(all));
    assert((root + named(all)).drop_last() =~= root + named(before));
}

/// A piece that stands for nothing adds nothing.
proof fn lemma_none_added(
    root: Parts,
    before: Seq<Seq<u8>>,
    piece: Seq<u8>,
    earlier: Parts,
    now: Parts,
)
    requires
        earlier == root + named(before),
        now == root + named(before.push(piece)),
        now.len() <= earlier.len(),
    ensures
        now == earlier,
{
    assert(before.push(piece).drop_last() =~= before);
}

impl TreePath {
    #[verifier::type_invariant]
    spec fn valid(&self) -> bool {
        let parts = parsed(self.text@);
        &&& views(self.components@) == parts
        &&& parts.len() >= 2 ==> {
            &&& self.stem <= self.text@.len()
            &&& self.text@.take(self.stem as int) == stem_of(self.text@, parts.drop_last())
            &&& parsed(self.text@.take(self.stem as int)) == parts.drop_last()
        }
    }

    /// The path of this text: slashes separate components, repeated and trailing ones say nothing,
    /// and neither does a `.` that is not in front.
    pub fn new(text: &[u8]) -> (path: TreePath)
        ensures
            path@ == text@,
    {
        let mut components: Vec<Component> = Vec::new();
        let mut piece: Vec<u8> = Vec::new();
        let mut first: bool = true;
        let mut end: usize = 0;
        let mut stem: usize = 0;
        let ghost root: Parts = Seq::empty();
        let ghost before: Seq<Seq<u8>> = Seq::empty();
        if text.len() > 0 && text[0] == 0x2f {
            components.push(Component::RootDir);
            end = 1;
            proof {
                root = seq![Component::RootDir];
                lemma_root();
                assert(text@.take(1) =~= seq![0x2fu8]);
                assert(text@.take(0) =~= Seq::empty());
                assert(root.len() == 1);
            }
        }
        assert(views(components@) =~= root + named(before));
        assert(views(components@) =~= root);
        let mut i: usize = 0;
        assert(text@.take(0) =~= Seq::empty());
        assert(pieces(Seq::<u8>::empty()) =~= before.push(piece@));
        while i < text.len()
            invariant
                i <= text.len(),
                first == (before.len() == 0),
                pieces(text@.take(i as int)) == before.push(piece@),
                views(components@) == root + named(before),
                root == if text.len() > 0 && text@[0] == 0x2f {
                    seq![Component::RootDir]
                } else {
                    Seq::<Component<Seq<u8>>>::empty()
                },
                components@.len() > 0 ==> marks(text@, end as int, views(components@)),
                components@.len() > 1 ==> marks(text@, stem as int, views(components@).drop_last()),
            decreases text.len() - i,
        {
            let ghost so_far = text@.take(i as int + 1);
            assert(so_far.drop_last() =~= text@.take(i as int));
            assert(before.push(piece@).drop_last() =~= before);
            if text[i] == 0x2f {
                let ghost whole = piece@;
                let ghost earlier = views(components@);
                let n = components.len();
                add_piece(&mut components, piece, first, Ghost(before));
                assert(views(components@) == root + named(before.push(whole)));
                if components.len() > n {
                    proof {
                        lemma_marked(text@, i as int, root, before, whole, earlier);
                        assert(views(components@).drop_last() =~= earlier);
                    }
                    stem = end;
                    end = i;
                } else {
                    assert(views(components@) =~= earlier) by {
                        lemma_none_added(root, before, whole, earlier, views(components@));
                    }
                }
                piece = Vec::new();
                first = false;
                proof {
                    before = before.push(whole);
                }
                assert(pieces(so_far) =~= before.push(piece@));
            } else {
                let ghost whole = piece@;
                piece.push(text[i]);
                assert(pieces(so_far) == before.push(whole.push(text@[i as int])));
            }
            i += 1;
        }
        assert(text@.take(i as int) =~= text@);
        let ghost whole = piece@;
        let ghost earlier = views(components@);
        let n = components.len();
        add_piece(&mut components, piece, first, Ghost(before));
        assert(views(components@) == root + named(before.push(whole)));
        if components.len() > n {
            proof {
                lemma_marked(text@, i as int, root, before, whole, earlier);
                assert(views(components@).drop_last() =~= earlier);
            }
            stem = end;
        } else {
            assert(views(components@) =~= earlier) by {
                lemma_none_added(root, before, whole, earlier, views(components@));
            }
        }
        assert(Seq::<Component<Seq<u8>>>::empty() + named(pieces(text@)) =~= named(pieces(text@)));
        proof {
            reveal(parsed);
            if components@.len() > 1 {
                lemma_stem(text@, stem as int, views(components@).drop_last(), text@.len() as int);
            }
        }
        TreePath { text: copied(text), components, stem }
    }

    /// The text that this path was made from.
    pub fn text(&self) -> (text: Vec<u8>)
        ensures
            text@ == self@,
    {
        copied(&self.text)
    }

    /// A copy of this path.
    pub fn copy(&self) -> (copy: TreePath)
        ensures
            copy@ == self@,
    {
        proof {
            use_type_invariant(self);
        }
        let ghost parts = views(self.components@);
        let mut components: Vec<Component> = Vec::new();
        let mut i: usize = 0;
        assert(views(components@) =~= parts.take(0));
        while i < self.components.len()
            invariant
                i <= self.components.len(),
                parts == views(self.components@),
                views(components@) == parts.take(i as int),
            decreases self.components.len() - i,
        {
            let next = self.components[i].copy();
            proof {
                lemma_views_push(components@, next);
                assert(parts.take(i as int).push(next@) =~= parts.take(i as int + 1));
            }
            components.push(next);
            i += 1;
        }
        assert(parts.take(i as int) =~= parts);
        TreePath { text: copied(&self.text), components, stem: self.stem }
    }

    /// Whether two paths have the same components.
    pub fn same(&self, other: &TreePath) -> (is: bool)
        ensures
            is == same(self@, other@),
    {
        proof {
            use_type_invariant(self);
            use_type_invariant(other);
        }
        let ghost (a, b) = (views(self.components@), views(other.components@));
        if self.components.len() != other.components.len() {
            assert(a.len() != b.len());
            return false;
        }
        let mut i: usize = 0;
        while i < self.components.len()
            invariant
                self.components.len() == other.components.len(),
                i <= self.components.len(),
                a == views(self.components@),
                b == views(other.components@),
                a == parsed(self@),
                b == parsed(other@),
                forall|j: int| 0 <= j < i ==> a[j] == b[j],
            decreases self.components.len() - i,
        {
            assert(a[i as int] == self.components@[i as int]@);
            assert(b[i as int] == other.components@[i as int]@);
            if !self.components[i].same(&other.components[i]) {
                return false;
            }
            i += 1;
        }
        assert(a =~= b);
        true
    }

    /// `rel` read from this path.
    pub fn join(&self, rel: &TreePath) -> (path: TreePath)
        ensures
            path@ == joined(self@, rel@),
    {
        if rel.text.len() > 0 && rel.text[0] == 0x2f {
            return rel.copy();
        }
        let mut text = copied(&self.text);
        let n = text.len();
        if n > 0 && text[n - 1] != 0x2f {
            text.push(0x2f);
        }
        append(&mut text, &rel.text);
        assert(text@ =~= joined(self@, rel@));
        TreePath::new(&text)
    }

    /// The directory that holds the entry this path names, if the path says which.
    pub fn parent_dir(&self) -> (parent: Option<TreePath>)
        ensures
            match parent {
                Some(dir) => {
                    &&& parent_of(self@) == Some(dir@)
                    &&& parsed(dir@) == parsed(self@).drop_last()
                },
                None => parent_of(self@) is None,
            },
    {
        proof {
            use_type_invariant(self);
        }
        assert(views(self.components@).len() == self.components@.len());
        if self.components.len() < 2 {
            return None;
        }
        let text = vstd::slice::slice_subrange(self.text.as_slice(), 0, self.stem);
        assert(text@ =~= self.text@.take(self.stem as int));
        Some(TreePath::new(text))
    }

    /// Whether this path comes before `other` in the order in which paths are listed.
    pub fn is_before(&self, other: &TreePath) -> (before: bool)
        ensures
            before == path_before(self@, other@),
    {
        proof {
            use_type_invariant(self);
            use_type_invariant(other);
        }
        let ghost (a, b) = (views(self.components@), views(other.components@));
        let mut i: usize = 0;
        assert(a.skip(0) =~= a);
        assert(b.skip(0) =~= b);
        loop
            invariant
                i <= self.components.len(),
                i <= other.components.len(),
                a == views(self.components@),
                b == views(other.components@),
                path_before(self@, other@) == parts_before(a.skip(i as int), b.skip(i as int)),
            decreases self.components.len() - i,
        {
            if i == other.components.len() {
                return false;
            }
            if i == self.components.len() {
                return true;
            }
            assert(a.skip(i as int)[0] == self.components@[i as int]@);
            assert(b.skip(i as int)[0] == other.components@[i as int]@);
            assert(a.skip(i as int).skip(1) =~= a.skip(i as int + 1));
            assert(b.skip(i as int).skip(1) =~= b.skip(i as int + 1));
            if !self.components[i].same(&other.components[i]) {
                return self.components[i].is_before(&other.components[i]);
            }
            i += 1;
        }
    }

    /// Where this path ends if no link is in the way.
    fn resolve(&self) -> (end: Vec<Component>)
        ensures
            views(end@) == resolved(self@),
    {
        proof {
            use_type_invariant(self);
        }
        let ghost parts = views(self.components@);
        let mut end: Vec<Component> = Vec::new();
        let mut i: usize = 0;
        assert(parts.take(0) =~= Seq::empty());
        assert(views(end@) =~= Seq::empty());
        while i < self.components.len()
            invariant
                i <= self.components.len(),
                parts == views(self.components@),
                views(end@) == followed_out(parts.take(i as int)),
            decreases self.components.len() - i,
        {
            let ghost so_far = parts.take(i as int + 1);
            let ghost before = views(end@);
            assert(so_far.drop_last() =~= parts.take(i as int));
            assert(so_far.last() == self.components@[i as int]@);
            let n = end.len();
            if n > 0 {
                assert(before.last() == end@[n - 1]@);
            }
            match &self.components[i] {
                Component::RootDir => {
                    end = Vec::new();
                    end.push(Component::RootDir);
                    assert(views(end@) =~= seq![Component::RootDir]);
                },
                Component::CurDir => {},
                Component::ParentDir => {
                    let taken = n > 0 && match &end[n - 1] {
                        Component::Normal(_) => true,
                        _ => false,
                    };
                    let kept = n > 0 && match &end[n - 1] {
                        Component::ParentDir => false,
                        _ => true,
                    };
                    if taken {
                        let _ = end.pop();
                        assert(views(end@) =~= before.drop_last());
                    } else if !kept {
                        end.push(Component::ParentDir);
                        assert(views(end@) =~= before.push(Component::ParentDir));
                    }
                },
                Component::Normal(name) => {
                    end.push(Component::Normal(copied(name)));
                    assert(views(end@) =~= before.push(Component::Normal(name@)));
                },
            }
            i += 1;
        }
        assert(parts.take(i as int) =~= parts);
        end
    }

    /// Whether this path is at or below `top`, as their names say.
    pub fn lies_below(&self, top: &TreePath) -> (below: bool)
        ensures
            below == lies_below(self@, top@),
    {
        let end = self.resolve();
        let start = top.resolve();
        if start.len() > end.len() {
            assert(views(start@).len() > views(end@).len());
            return false;
        }
        let mut i: usize = 0;
        while i < start.len()
            invariant
                i <= start.len() <= end.len(),
                views(end@) == resolved(self@),
                views(start@) == resolved(top@),
                forall|j: int| 0 <= j < i ==> views(start@)[j] == views(end@)[j],
            decreases start.len() - i,
        {
            assert(views(start@)[i as int] == start@[i as int]@);
            assert(views(end@)[i as int] == end@[i as int]@);
            if !start[i].same(&end[i]) {
                assert(views(end@).subrange(0, start.len() as int)[i as int] == end@[i as int]@);
                return false;
            }
            i += 1;
        }
        assert(views(start@) =~= views(end@).subrange(0, start.len() as int));
        true
    }

    /// Whether this path, read from some root, never leaves it.
    pub fn is_inside(&self) -> (inside: bool)
        ensures
            inside == stays_inside(self@),
    {
        proof {
            use_type_invariant(self);
        }
        let ghost parts = views(self.components@);
        let mut level: usize = 0;
        let mut i: usize = 0;
        assert(parts.take(0) =~= Seq::empty());
        while i < self.components.len()
            invariant
                level <= i <= self.components.len(),
                parts == views(self.components@),
                parts == parsed(self@),
                level == depth(parts.take(i as int)),
                forall|j: int| 0 <= j < i ==> !(#[trigger] parts[j] is RootDir),
                forall|n: int| 0 <= n <= i ==> depth(#[trigger] parts.take(n)) >= 0,
            decreases self.components.len() - i,
        {
            let ghost so_far = parts.take(i as int + 1);
            assert(so_far.drop_last() =~= parts.take(i as int));
            assert(so_far.last() == self.components@[i as int]@);
            assert(parts[i as int] == self.components@[i as int]@);
            match &self.components[i] {
                Component::RootDir => {
                    return false;
                },
                Component::CurDir => {},
                Component::ParentDir => {
                    if level == 0 {
                        assert(depth(parts.take(i as int + 1)) == -1);
                        return false;
                    }
                    level -= 1;
                },
                Component::Normal(_) => {
                    level += 1;
                },
            }
            i += 1;
        }
        true
    }
}

impl PartialEq for TreePath {
    fn eq(&self, other: &TreePath) -> (is: bool) {
        self.same(other)
    }
}

impl vstd::std_specs::cmp::PartialEqSpecImpl for TreePath {
    open spec fn obeys_eq_spec() -> bool {
        true
    }

    open spec fn eq_spec(&self, other: &TreePath) -> bool {
        same(self@, other@)
    }
}

impl Clone for TreePath {
    fn clone(&self) -> (copy: TreePath)
        ensures
            copy@ == self@,
    {
        self.copy()
    }
}

/// Puts a copy of each of `more` behind `paths`.
pub(crate) fn copy_each(paths: &mut Vec<TreePath>, more: &Vec<TreePath>)
    ensures
        views(final(paths)@) == views(old(paths)@) + views(more@),
{
    let ghost before = views(paths@);
    let ghost all = views(more@);
    let mut i: usize = 0;
    assert(views(paths@) =~= before + all.take(0));
    while i < more.len()
        invariant
            i <= more.len(),
            all == views(more@),
            views(paths@) == before + all.take(i as int),
        decreases more.len() - i,
    {
        let next = more[i].copy();
        proof {
            lemma_views_push(paths@, next);
        }
        paths.push(next);
        assert(views(paths@) =~= before + all.take(i as int + 1));
        i += 1;
    }
    assert(all.take(i as int) =~= all);
}

} // verus!
