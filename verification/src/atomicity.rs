//! What the application of a change set does to the tree, whatever the storage answers: all of it,
//! or none of it.

use crate::apply::{self, ApplyView, JobView, Phase, PhaseView};
use crate::change::{self, Expected, ExpectedView, FileOp, OpView};
use crate::error::Error;
use crate::exec::{self, Books, ExecPhase, ExecPhaseView, Progress, SiteView};
use crate::flush;
use crate::path::{self, PathView};
use crate::port::{self, FaultView, Reply, ReplyView, Request, RequestView};
use crate::script::ScriptView;
use crate::tree::{self, Node, Place, Store, Tree};
use crate::undo::{Undo, UndoView};
use crate::unwind::{self, UnwindView};
use vstd::prelude::*;

verus! {

impl Store {
    /// Whether `bytes` are what a copy of the file at `path` copies. Behind a link anything may be.
    pub open spec fn copies(self, tree: Tree, path: PathView, bytes: Seq<u8>) -> bool {
        match self.at(tree, path) {
            Some(Node::File { bytes: held, .. }) => held == bytes,
            Some(Node::Link { .. }) => true,
            None => false,
        }
    }

    /// Whether `op`, run from `root`, makes `after` out of `before`.
    pub open spec fn lands(self, root: PathView, op: OpView, before: Tree, after: Tree) -> bool {
        let place = self.place(path::joined(root, change::affected(op)));
        match op {
            FileOp::Write { bytes, .. } => after == tree::with_file(before, place, bytes),
            FileOp::CopyFrom { source, .. } => exists|bytes: Seq<u8>| #[trigger]
                self.copies(before, path::joined(root, source), bytes) && after == tree::with_file(
                    before,
                    place,
                    bytes,
                ),
            FileOp::Rename { from, .. } => {
                let from = self.place(path::joined(root, from));
                tree::movable(before, from, place) && after == tree::moved(before, from, place)
            },
            FileOp::Remove { .. } => tree::node(before, place) is Some && after == before.remove(
                place,
            ),
            FileOp::SetExecutable { executable, .. } => !tree::is_link(tree::node(before, place))
                && after == self.flipped(before, place, executable),
            FileOp::SetLink { target, .. } => after == tree::with_link(before, place, target),
        }
    }

    /// Whether `ops`, run in order from `root`, make `after` out of `before`.
    pub open spec fn all_land(
        self,
        root: PathView,
        ops: Seq<OpView>,
        before: Tree,
        after: Tree,
    ) -> bool
        decreases ops.len(),
    {
        if ops.len() == 0 {
            after == before
        } else {
            exists|between: Tree|
                self.all_land(root, ops.drop_last(), before, between) && #[trigger] self.lands(
                    root,
                    ops.last(),
                    between,
                    after,
                )
        }
    }

    /// Whether `path` is not the journal.
    pub open spec fn misses(self, journal: PathView, path: PathView) -> bool {
        self.place(path) != self.place(journal)
    }

    /// Whether neither `path` nor anything below it is the journal.
    pub open spec fn clears(self, journal: PathView, path: PathView) -> bool {
        !tree::within(self.place(journal), self.place(path))
    }

    /// Whether `op` leaves the journal alone: it names another path, and moves nothing that the
    /// journal lies in, nor to where it does.
    pub open spec fn op_clears(self, root: PathView, journal: PathView, op: OpView) -> bool {
        let full = path::joined(root, change::affected(op));
        match op {
            FileOp::Rename { from, .. } => self.clears(journal, full) && self.clears(
                journal,
                path::joined(root, from),
            ),
            FileOp::CopyFrom { source, .. } => self.misses(journal, full) && self.misses(
                journal,
                path::joined(root, source),
            ),
            _ => self.misses(journal, full),
        }
    }

    /// Whether carrying out `undo` leaves the journal alone.
    pub open spec fn undo_clears(self, journal: PathView, undo: UndoView) -> bool {
        match undo {
            Undo::Restore { path, .. } => self.misses(journal, path),
            Undo::Delete { path } => self.misses(journal, path),
            Undo::Rename { from, to } => self.clears(journal, from) && self.clears(journal, to),
            Undo::SetExecutable { path, .. } => self.misses(journal, path),
            Undo::Relink { path, .. } => self.misses(journal, path),
            Undo::RestoreOverLink { path, .. } => self.misses(journal, path),
        }
    }

    /// Whether carrying out any of `undo` leaves the journal alone.
    pub open spec fn all_clear(self, journal: PathView, undo: Seq<UndoView>) -> bool {
        forall|i: int| 0 <= i < undo.len() ==> #[trigger] self.undo_clears(journal, undo[i])
    }

    /// The tree without the journal.
    pub open spec fn documents(self, journal: PathView, tree: Tree) -> Tree {
        tree.remove(self.place(journal))
    }

    /// Whether `undo` says what `tree` holds at the path it speaks of, the execute bit included if it
    /// is to be exact.
    pub open spec fn captures(self, tree: Tree, undo: UndoView, exact: bool) -> bool {
        match undo {
            Undo::Restore { path, bytes, bit } => self.at(tree, path) matches Some(
                Node::File { bytes: held, runnable },
            ) && held == bytes && (self.bits && bit is Some ==> bit == Some(runnable)),
            Undo::Delete { path } => self.at(tree, path) is None,
            Undo::Rename { .. } => false,
            Undo::SetExecutable { path, executable } => {
                &&& !tree::is_link(self.at(tree, path))
                &&& self.at(tree, path) matches Some(Node::File { runnable, .. }) ==> (self.bits
                    ==> runnable == executable)
            },
            Undo::Relink { path, target } => self.links && self.at(tree, path) == Some(
                Node::Link { target },
            ),
            Undo::RestoreOverLink { path, bytes, bit } => self.at(tree, path) matches Some(
                Node::File { bytes: held, runnable },
            ) && held == bytes && (exact ==> runnable == (self.bits && bit == Some(true))),
        }
    }
}

/// Whether `undo`, if it puts back a file that `tree` holds, puts back its execute bit, or the file
/// has none to put back.
spec fn weighed(store: Store, tree: Tree, undo: UndoView, exact: bool) -> bool {
    undo matches Undo::Restore { path, bit, .. } ==> (exact ==> (store.bits && bit is Some)
        || !tree::runnable_at(tree, store.place(path)))
}

/// The path that `undo` puts something back at.
pub(crate) open spec fn undo_path(undo: UndoView) -> PathView {
    match undo {
        Undo::Restore { path, .. } => path,
        Undo::Delete { path } => path,
        Undo::Rename { to, .. } => to,
        Undo::SetExecutable { path, .. } => path,
        Undo::Relink { path, .. } => path,
        Undo::RestoreOverLink { path, .. } => path,
    }
}

/// Whether `request` leaves the journal alone.
spec fn request_clears(store: Store, journal: PathView, request: RequestView) -> bool {
    match request {
        Request::Exists(path) => store.misses(journal, path),
        Request::Read(path) => store.misses(journal, path),
        Request::ReadLink(path) => store.misses(journal, path),
        Request::Executable(path) => store.misses(journal, path),
        Request::Write(path, _) => store.misses(journal, path),
        Request::Replace(path, _) => store.misses(journal, path),
        Request::WriteAtomic(path, _) => store.misses(journal, path),
        Request::CreateNew(path, _) => store.misses(journal, path),
        Request::Rename(from, to) => store.clears(journal, from) && store.clears(journal, to),
        Request::Remove(path) => store.misses(journal, path),
        Request::SetExecutable(path, _) => store.misses(journal, path),
        Request::SetLink(path, _) => store.misses(journal, path),
        _ => true,
    }
}

/// Whether `request` writes through a link.
spec fn goes_through(store: Store, tree: Tree, request: RequestView) -> bool {
    match request {
        Request::Write(path, _) => tree::is_link(store.at(tree, path)),
        Request::SetExecutable(path, _) => tree::is_link(store.at(tree, path)),
        _ => false,
    }
}

/// A place is within itself.
proof fn lemma_within_itself(place: Place)
    ensures
        tree::within(place, place),
{
    assert(place.take(place.len() as int) =~= place);
}

/// Moving things that are not the journal does the same to the tree without it.
proof fn lemma_moved_without(tree: Tree, from: Place, to: Place, apart: Place)
    requires
        !tree::within(apart, from),
        !tree::within(apart, to),
    ensures
        tree::moved(tree, from, to).remove(apart) == tree::moved(tree.remove(apart), from, to),
        tree::node(tree::moved(tree, from, to), apart) == tree::node(tree, apart),
{
    assert forall|place: Place| tree::within(place, to) implies from + place.skip(
        to.len() as int,
    ) != apart by {
        let there = from + place.skip(to.len() as int);
        assert(there.take(from.len() as int) =~= from);
    }
    assert(tree::moved(tree, from, to).remove(apart) =~= tree::moved(
        tree.remove(apart),
        from,
        to,
    ));
}

/// What leaves the journal alone does the same to the documents.
proof fn lemma_beside_journal(
    store: Store,
    journal: PathView,
    before: Tree,
    request: RequestView,
    reply: ReplyView,
    after: Tree,
)
    requires
        store.does(before, request, reply, after),
        request_clears(store, journal, request),
        !goes_through(store, before, request),
    ensures
        store.does(
            store.documents(journal, before),
            request,
            reply,
            store.documents(journal, after),
        ),
        tree::node(after, store.place(journal)) == tree::node(before, store.place(journal)),
{
    let apart = store.place(journal);
    lemma_within_itself(apart);
    let b = before.remove(apart);
    let a = after.remove(apart);
    assert forall|place: Place| store.holds(before) && !store.bits implies !(
    #[trigger] tree::runnable_at(b, place)) by {
        assert(!tree::runnable_at(before, place));
    }
    assert forall|place: Place| store.holds(after) && !store.bits implies !(
    #[trigger] tree::runnable_at(a, place)) by {
        assert(!tree::runnable_at(after, place));
    }
    match request {
        Request::Write(path, bytes) => {
            let place = store.place(path);
            lemma_same_but_beside(before, after, place, apart);
            assert(tree::with_file(before, place, bytes).remove(apart) =~= tree::with_file(
                b,
                place,
                bytes,
            ));
        },
        Request::Replace(path, bytes) | Request::WriteAtomic(path, bytes)
        | Request::CreateNew(path, bytes) => {
            let place = store.place(path);
            lemma_same_but_beside(before, after, place, apart);
            assert(tree::with_file(before, place, bytes).remove(apart) =~= tree::with_file(
                b,
                place,
                bytes,
            ));
        },
        Request::Rename(from, to) => {
            if reply is Done {
                lemma_moved_without(before, store.place(from), store.place(to), apart);
            }
        },
        Request::Remove(path) => {
            let place = store.place(path);
            assert(before.remove(place).remove(apart) =~= b.remove(place));
        },
        Request::SetExecutable(path, executable) => {
            let place = store.place(path);
            assert(store.flipped(before, place, executable).remove(apart) =~= store.flipped(
                b,
                place,
                executable,
            ));
        },
        Request::SetLink(path, target) => {
            let place = store.place(path);
            assert(before.remove(place).remove(apart) =~= b.remove(place));
            assert(tree::with_link(before, place, target).remove(apart) =~= tree::with_link(
                b,
                place,
                target,
            ));
        },
        _ => {},
    }
}

/// Trees that differ at `place` at most differ there at most without `apart`, and agree at `apart`.
proof fn lemma_same_but_beside(before: Tree, after: Tree, place: Place, apart: Place)
    requires
        place != apart,
    ensures
        tree::same_but(before, after, place) ==> {
            &&& tree::same_but(before.remove(apart), after.remove(apart), place)
            &&& tree::node(after, apart) == tree::node(before, apart)
        },
{
    if tree::same_but(before, after, place) {
        assert(before.remove(place).remove(apart) =~= before.remove(apart).remove(place));
        assert(after.remove(place).remove(apart) =~= after.remove(apart).remove(place));
        assert(tree::node(after.remove(place), apart) == tree::node(before.remove(place), apart));
    }
}

/// What was moved and is moved back is where it was. What gave way to it is gone.
proof fn lemma_moved_back(tree: Tree, from: Place, to: Place)
    requires
        tree::movable(tree, from, to),
    ensures
        from == to ==> tree::moved(tree, from, to) == tree,
        from != to ==> tree::moved(tree::moved(tree, from, to), to, from) == tree.remove(to),
{
    let there = tree::moved(tree, from, to);
    if from == to {
        assert forall|place: Place| tree::within(place, to) implies from + place.skip(
            to.len() as int,
        ) == place by {
            assert(from + place.skip(to.len() as int) =~= place.take(to.len() as int) + place.skip(
                to.len() as int,
            ));
        }
        assert(there =~= tree);
    } else {
        let back = tree::moved(there, to, from);
        lemma_within_itself(to);
        assert forall|place: Place| tree::within(place, from) implies {
            let beside = to + place.skip(from.len() as int);
            &&& tree::within(beside, to)
            &&& from + beside.skip(to.len() as int) == place
            &&& !tree::within(place, to)
        } by {
            let beside = to + place.skip(from.len() as int);
            assert(beside.take(to.len() as int) =~= to);
            assert(beside.skip(to.len() as int) =~= place.skip(from.len() as int));
            assert(from + beside.skip(to.len() as int) =~= place);
            if tree::within(place, to) {
                if to.len() <= from.len() {
                    assert(from.take(to.len() as int) =~= place.take(to.len() as int));
                } else {
                    assert(to.take(from.len() as int) =~= place.take(from.len() as int));
                }
            }
        }
        assert(back =~= tree.remove(to));
    }
}

/// What `undo` says of a tree it puts back, if the tree has changed nowhere else.
proof fn lemma_put_back(store: Store, before: Tree, undo: UndoView, after: Tree, exact: bool)
    requires
        store.captures(before, undo, exact),
        !(undo is SetExecutable),
        tree::same_but(before, after, store.place(undo_path(undo))),
        undo matches Undo::Restore { bit, .. } ==> (exact ==> (store.bits && bit is Some)
            || tree::runnable_at(after, store.place(undo_path(undo))) == tree::runnable_at(
            before,
            store.place(undo_path(undo)),
        )),
    ensures
        tree::agrees(store.undone(after, undo), before, exact),
{
    let place = store.place(undo_path(undo));
    assert(after.remove(place) == before.remove(place));
    assert forall|other: Place| other != place implies tree::node(after, other) == tree::node(
        before,
        other,
    ) by {
        assert(tree::node(after.remove(place), other) == tree::node(before.remove(place), other));
    }
    let back = store.undone(after, undo);
    if exact {
        assert forall|other: Place| tree::node(back, other) == tree::node(before, other) by {}
        lemma_same_nodes(back, before);
    } else {
        assert forall|other: Place| tree::like(
            #[trigger] tree::node(back, other),
            tree::node(before, other),
        ) by {
            if other != place {
                assert(tree::node(after, other) == tree::node(before, other));
            }
        }
    }
}

/// Trees that are alike stay alike when the same is reversed in both.
proof fn lemma_undone_alike(store: Store, a: Tree, b: Tree, undo: UndoView)
    requires
        tree::alike(a, b),
    ensures
        tree::alike(store.undone(a, undo), store.undone(b, undo)),
        store.undoable(a, undo) == store.undoable(b, undo),
{
    let (x, y) = (store.undone(a, undo), store.undone(b, undo));
    let here = store.place(undo_path(undo));
    assert(tree::like(tree::node(a, here), tree::node(b, here)));
    assert forall|place: Place| tree::like(#[trigger] tree::node(x, place), tree::node(y, place)) by {
        assert(tree::like(tree::node(a, place), tree::node(b, place)));
        if let Undo::Rename { from, to } = undo {
            let (from, to) = (store.place(from), store.place(to));
            let beside = from + place.skip(to.len() as int);
            assert(tree::like(tree::node(a, beside), tree::node(b, beside)));
        }
    }
}

/// What agrees with a tree from which `base` is brought back is brought back to it too.
proof fn lemma_agreed(
    store: Store,
    a: Tree,
    b: Tree,
    undo: Seq<UndoView>,
    base: Tree,
    exact: bool,
)
    requires
        tree::agrees(a, b, exact),
        store.brings_back(b, undo, base, exact),
    ensures
        store.brings_back(a, undo, base, exact),
    decreases undo.len(),
{
    if !exact {
        if undo.len() == 0 {
            assert forall|place: Place| tree::like(
                #[trigger] tree::node(a, place),
                tree::node(base, place),
            ) by {
                assert(tree::like(tree::node(b, place), tree::node(base, place)));
            }
        } else {
            let u = undo.last();
            lemma_undone_alike(store, a, b, u);
            lemma_agreed(
                store,
                store.undone(a, u),
                store.undone(b, u),
                undo.drop_last(),
                base,
                exact,
            );
        }
    }
}

/// Trees with the same nodes are the same.
proof fn lemma_same_nodes(a: Tree, b: Tree)
    requires
        forall|place: Place| tree::node(a, place) == tree::node(b, place),
    ensures
        a == b,
{
    assert forall|place: Place| a.dom().contains(place) == b.dom().contains(place) by {
        assert(tree::node(a, place) == tree::node(b, place));
    }
    assert forall|place: Place| a.dom().contains(place) implies a[place] == b[place] by {
        assert(tree::node(a, place) == tree::node(b, place));
    }
    assert(a =~= b);
}

/// What `undo` says of a tree it puts back there, in place.
proof fn lemma_put_back_in_place(store: Store, before: Tree, undo: UndoView, exact: bool)
    requires
        store.captures(before, undo, exact),
    ensures
        tree::agrees(store.undone(before, undo), before, exact),
        store.undoable(before, undo),
{
    if undo is SetExecutable {
        assert(store.undone(before, undo) =~= before);
        assert(tree::alike(before, before));
    } else {
        lemma_put_back(store, before, undo, before, exact);
    }
}

/// What has one more thing to reverse is brought back if the rest is, once that is reversed.
proof fn lemma_brings_back_more(
    store: Store,
    tree: Tree,
    undo: Seq<UndoView>,
    more: UndoView,
    base: Tree,
    exact: bool,
)
    requires
        store.undoable(tree, more),
        store.brings_back(store.undone(tree, more), undo, base, exact),
    ensures
        store.brings_back(tree, undo.push(more), base, exact),
{
    assert(undo.push(more).drop_last() =~= undo);
}

/// What is known while operation `op` is on its way and nothing but directories was made: the tree
/// holds `now`, and `undo` brings back `base`.
spec fn about_to_land(
    store: Store,
    site: SiteView,
    op: OpView,
    later: Option<UndoView>,
    undo: Seq<UndoView>,
    now: Tree,
    base: Tree,
    exact: bool,
) -> bool {
    let full = exec::target(site, op);
    let recorded = {
        &&& undo.len() > 0
        &&& undo_path(undo.last()) == full
        &&& store.captures(now, undo.last(), exact)
        &&& store.brings_back(now, undo.drop_last(), base, exact)
    };
    match op {
        FileOp::Write { .. } | FileOp::CopyFrom { .. } => {
            &&& recorded
            &&& undo.last() is Restore || undo.last() is Delete || undo.last() is Relink
            &&& later is None
        },
        FileOp::Rename { from, .. } => {
            &&& recorded
            &&& undo.last() is Restore || undo.last() is Delete || undo.last() is Relink
            &&& weighed(store, now, undo.last(), exact)
            &&& later == Some(
                UndoView::Rename { from: full, to: path::joined(site.root, from) },
            )
        },
        FileOp::Remove { .. } => {
            &&& store.brings_back(now, undo, base, exact)
            &&& later matches Some(u) && (u is Restore || u is Relink) && undo_path(u) == full
                && store.captures(now, u, exact) && weighed(store, now, u, exact)
        },
        FileOp::SetExecutable { .. } => {
            &&& !tree::is_link(store.at(now, full))
            &&& store.bits ==> recorded && undo.last() is SetExecutable
            &&& store.brings_back(now, undo, base, exact)
            &&& later is None
        },
        FileOp::SetLink { .. } => {
            &&& store.links ==> recorded && !(undo.last() is Restore) && !(
            undo.last() is SetExecutable)
            &&& store.brings_back(now, undo, base, exact)
            &&& later is None
        },
    }
}

/// Whether nothing of `script` was made but directories, nor anything changed. A move comes last.
pub(crate) open spec fn fresh(script: ScriptView) -> bool {
    ||| script.at == 0
    ||| script.at == 1 && script.requests[0] is CreateDirs
    ||| script.requests.last() is Rename
}

/// Whether `requests` change the tree as `op` says, whatever was still to be flushed before.
pub(crate) open spec fn planned(
    site: SiteView,
    op: OpView,
    payload: Seq<u8>,
    requests: Seq<RequestView>,
) -> bool {
    exists|touched: Seq<PathView>|
        requests == #[trigger] exec::changes(site, op, payload, touched)
}

/// Whether `payload` is what a copy copies.
spec fn sourced(
    store: Store,
    site: SiteView,
    op: OpView,
    payload: Option<Seq<u8>>,
    start: Tree,
) -> bool {
    op matches FileOp::CopyFrom { source, .. } ==> payload matches Some(bytes) && store.copies(
        start,
        path::joined(site.root, source),
        bytes,
    )
}

/// What is known while operation `op`, which began when the tree held `start`, is on its way and
/// the tree holds `now`.
spec fn on_its_way(
    store: Store,
    site: SiteView,
    op: OpView,
    phase: ExecPhaseView,
    undo: Seq<UndoView>,
    start: Tree,
    now: Tree,
    base: Tree,
    exact: bool,
) -> bool {
    let full = exec::target(site, op);
    let untouched = now == start && store.brings_back(now, undo, base, exact);
    match phase {
        ExecPhase::Guarding => op is SetExecutable && untouched,
        ExecPhase::Sourcing => op is CopyFrom && untouched,
        ExecPhase::Linking(payload) => {
            &&& !(op is SetExecutable)
            &&& untouched
            &&& sourced(store, site, op, payload, start)
        },
        ExecPhase::Reading(payload) => {
            &&& !(op is SetExecutable)
            &&& untouched
            &&& sourced(store, site, op, payload, start)
            &&& !tree::is_link(store.at(now, full))
        },
        ExecPhase::Weighing(bytes) => {
            &&& op is Remove || op is Rename || op is SetLink
            &&& untouched
            &&& store.at(now, full) matches Some(Node::File { bytes: held, .. }) && held == bytes
        },
        ExecPhase::Probing => {
            &&& op is SetExecutable
            &&& untouched
            &&& !tree::is_link(store.at(now, full))
        },
        ExecPhase::Landing(script, later) => {
            &&& script.pending()
            &&& exists|payload: Option<Seq<u8>>| #[trigger]
                sourced(store, site, op, payload, start) && planned(
                    site,
                    op,
                    exec::payload_bytes(payload),
                    script.requests,
                )
            &&& if fresh(script) {
                now == start && about_to_land(store, site, op, later, undo, now, base, exact)
            } else {
                &&& store.lands(site.root, op, start, now)
                &&& store.brings_back(now, undo, base, exact)
                &&& later is None
            }
        },
    }
}

/// What is known of an operation once it has been answered.
spec fn goes_on(
    store: Store,
    site: SiteView,
    op: OpView,
    progress: Progress<PathView, Seq<u8>, ScriptView>,
    undo: Seq<UndoView>,
    start: Tree,
    now: Tree,
    base: Tree,
    exact: bool,
) -> bool {
    match progress {
        Progress::Running(phase) => on_its_way(store, site, op, phase, undo, start, now, base, exact),
        Progress::Landed => store.lands(site.root, op, start, now) && store.brings_back(
            now,
            undo,
            base,
            exact,
        ),
        Progress::Failed(_) => store.brings_back(now, undo, base, exact),
    }
}

/// An operation of which it is known what reverses it is about to land.
proof fn lemma_captured(
    store: Store,
    site: SiteView,
    op: OpView,
    payload: Option<Seq<u8>>,
    undo: Option<UndoView>,
    books: Books,
    now: Tree,
    base: Tree,
    exact: bool,
)
    requires
        !(op is SetExecutable),
        store.brings_back(now, books.undo, base, exact),
        sourced(store, site, op, payload, now),
        undo matches Some(u) ==> undo_path(u) == exec::target(site, op) && store.captures(now, u, exact),
        match undo {
            Some(u) => match op {
                FileOp::Remove { .. } => (u is Restore || u is Relink) && weighed(store, now, u, exact),
                FileOp::Rename { .. } => (u is Restore || u is Delete || u is Relink) && weighed(
                    store,
                    now,
                    u,
                    exact,
                ),
                FileOp::SetLink { .. } => u is RestoreOverLink || u is Delete || u is Relink,
                _ => u is Restore || u is Delete || u is Relink,
            },
            None => op is SetLink && !store.links,
        },
    ensures
        ({
            let (progress, after) = exec::captured(site, op, payload, undo, books);
            goes_on(store, site, op, progress, after.undo, now, now, base, exact)
        }),
{
    let (progress, after) = exec::captured(site, op, payload, undo, books);
    if let Some(u) = undo {
        lemma_put_back_in_place(store, now, u, exact);
        lemma_agreed(store, store.undone(now, u), now, books.undo, base, exact);
        if !(op is Remove) {
            lemma_brings_back_more(store, now, books.undo, u, base, exact);
            assert(after.undo == books.undo.push(u));
            assert(after.undo.drop_last() =~= books.undo);
        }
    }
    lemma_plan(site, op, payload, books.touched);
    assert(sourced(store, site, op, payload, now));
}

/// What is known of an operation stays known while it finds out what it is about to change.
proof fn lemma_asking(
    store: Store,
    site: SiteView,
    op: OpView,
    phase: ExecPhaseView,
    reply: ReplyView,
    books: Books,
    now: Tree,
    after: Tree,
    base: Tree,
    exact: bool,
)
    requires
        site.recording,
        !(phase is Landing),
        exact && phase is Weighing && reply is Failed ==> !tree::runnable_at(
            now,
            store.place(exec::target(site, op)),
        ),
        on_its_way(store, site, op, phase, books.undo, now, now, base, exact),
        store.does(now, exec::requested(site, op, phase), reply, after),
    ensures
        after == now,
        ({
            let (progress, noted) = exec::resumed(site, op, phase, reply, books);
            goes_on(store, site, op, progress, noted.undo, now, after, base, exact)
        }),
{
    let full = exec::target(site, op);
    assert(!store.bits ==> !tree::runnable_at(now, store.place(full)));
    match phase {
        ExecPhase::Guarding => {},
        ExecPhase::Sourcing => {},
        ExecPhase::Linking(payload) => {
            let link: Result<Option<PathView>, FaultView> = match reply {
                Reply::Link(link) => Ok(link),
                Reply::Failed(fault) => Err(fault),
                _ => Ok(None),
            };
            if let Some(undo) = exec::undo_by_link(site, op, link) {
                lemma_captured(store, site, op, payload, undo, books, now, base, exact);
            }
        },
        ExecPhase::Reading(payload) => {
            let read: Result<Seq<u8>, FaultView> = match reply {
                Reply::Bytes(bytes) => Ok(bytes),
                Reply::Failed(fault) => Err(fault),
                _ => Ok(Seq::empty()),
            };
            if let Ok(Some(undo)) = exec::undo_by_read(site, op, read) {
                lemma_captured(store, site, op, payload, Some(undo), books, now, base, exact);
            }
        },
        ExecPhase::Weighing(bytes) => {
            let bit = match reply {
                Reply::Executable(bit) => bit,
                _ => None,
            };
            let undo = exec::undo_by_bit(site, op, bytes, bit);
            assert(sourced(store, site, op, None, now));
            lemma_captured(store, site, op, None, Some(undo), books, now, base, exact);
        },
        ExecPhase::Probing => {
            if let Reply::Executable(bit) = reply {
                lemma_plan(site, op, None, books.touched);
                assert(sourced(store, site, op, None, now));
                if let Some(was) = bit {
                    let undo = UndoView::SetExecutable { path: full, executable: was };
                    lemma_put_back_in_place(store, now, undo, exact);
                    lemma_agreed(store, store.undone(now, undo), now, books.undo, base, exact);
                    lemma_brings_back_more(store, now, books.undo, undo, base, exact);
                    assert(books.undo.push(undo).drop_last() =~= books.undo);
                }
            }
        },
        ExecPhase::Landing(_, _) => {},
    }
}

/// Which requests change the tree as `op` says, and where they stand: directories are made first,
/// what a move takes along is flushed before it, and a flush of what has changed comes last.
pub(crate) proof fn lemma_changes(
    site: SiteView,
    op: OpView,
    payload: Seq<u8>,
    requests: Seq<RequestView>,
)
    requires
        planned(site, op, payload, requests),
    ensures
        ({
            let full = exec::target(site, op);
            let first: int = if op is Rename {
                requests.len() - 1
            } else if requests[0] is CreateDirs {
                1
            } else {
                0
            };
            let main: RequestView = match op {
                FileOp::Write { bytes, .. } => Request::Replace(full, bytes),
                FileOp::CopyFrom { .. } => Request::Replace(full, payload),
                FileOp::Rename { from, .. } => Request::Rename(path::joined(site.root, from), full),
                FileOp::Remove { .. } => Request::Remove(full),
                FileOp::SetExecutable { executable, .. } => Request::SetExecutable(
                    full,
                    executable,
                ),
                FileOp::SetLink { target, .. } => Request::SetLink(full, target),
            };
            &&& 0 <= first < requests.len()
            &&& requests[first] == main
            &&& requests.len() <= first + 2
            &&& requests.len() == first + 2 ==> requests[first + 1] is Sync
            &&& op is Rename || op is Remove || op is SetLink ==> requests.len() == first + 1
            &&& requests.last() is Rename ==> op is Rename
            &&& forall|i: int| 0 < i < first ==> (#[trigger] requests[i]) is Sync
            &&& first > 0 ==> requests[0] is CreateDirs || requests[0] is Sync
        }),
{
    let touched = choose|touched: Seq<PathView>|
        requests == #[trigger] exec::changes(site, op, payload, touched);
    if let FileOp::Rename { from, .. } = op {
        let full = exec::target(site, op);
        let dirs = exec::making_dirs(full);
        let calming = flush::calming(touched, path::joined(site.root, from), full);
        assert forall|i: int| 0 <= i < calming.len() implies (#[trigger] calming[i]) is Sync by {}
        assert(dirs.len() <= 1);
        let before = dirs + calming;
        assert(requests.drop_last() =~= before);
        assert forall|i: int| 0 < i < requests.len() - 1 implies (#[trigger] requests[i]) is Sync by {
            assert(requests[i] == before[i]);
            assert(before[i] == calming[i - dirs.len()]);
        }
        if before.len() > 0 {
            assert(requests[0] == before[0]);
            if dirs.len() == 0 {
                assert(before[0] == calming[0]);
            }
        }
    }
}

/// The requests that change the tree begin with nothing changed.
pub(crate) proof fn lemma_plan(
    site: SiteView,
    op: OpView,
    payload: Option<Seq<u8>>,
    touched: Seq<PathView>,
)
    ensures
        ({
            let bytes = exec::payload_bytes(payload);
            let script = ScriptView::of(exec::changes(site, op, bytes, touched));
            &&& script.pending()
            &&& fresh(script)
            &&& planned(site, op, bytes, script.requests)
        }),
{
    let bytes = exec::payload_bytes(payload);
    let requests = exec::changes(site, op, bytes, touched);
    assert(planned(site, op, bytes, requests));
    lemma_changes(site, op, bytes, requests);
}

/// A file that lands can be taken back, whether or not it landed whole.
proof fn lemma_replaced(
    store: Store,
    place: Place,
    undo: Seq<UndoView>,
    now: Tree,
    after: Tree,
    base: Tree,
    exact: bool,
)
    requires
        undo.len() > 0,
        store.place(undo_path(undo.last())) == place,
        undo.last() is Restore || undo.last() is Delete || undo.last() is Relink,
        store.captures(now, undo.last(), exact),
        store.brings_back(now, undo.drop_last(), base, exact),
        after == now || {
            &&& tree::same_but(now, after, place)
            &&& !tree::is_link(tree::node(after, place))
            &&& tree::runnable_at(after, place) == tree::runnable_at(now, place)
        },
    ensures
        store.brings_back(after, undo, base, exact),
{
    let rest = undo.drop_last();
    lemma_put_back(store, now, undo.last(), after, exact);
    lemma_agreed(store, store.undone(after, undo.last()), now, rest, base, exact);
    if after == now {
        lemma_put_back_in_place(store, now, undo.last(), exact);
    }
}

/// What was moved can be moved back, and what gave way put back.
proof fn lemma_renamed(
    store: Store,
    from: PathView,
    to: PathView,
    undo: Seq<UndoView>,
    now: Tree,
    base: Tree,
    exact: bool,
)
    requires
        undo.len() > 0,
        undo_path(undo.last()) == to,
        undo.last() is Restore || undo.last() is Delete || undo.last() is Relink,
        store.captures(now, undo.last(), exact),
        store.brings_back(now, undo.drop_last(), base, exact),
        tree::movable(now, store.place(from), store.place(to)),
        store.holds(now),
        weighed(store, now, undo.last(), exact),
    ensures
        store.brings_back(
            tree::moved(now, store.place(from), store.place(to)),
            undo.push(UndoView::Rename { from: to, to: from }),
            base,
            exact,
        ),
{
    let (a, b) = (store.place(from), store.place(to));
    let there = tree::moved(now, a, b);
    let back = tree::moved(there, b, a);
    lemma_moved_back(now, a, b);
    if a == b {
        lemma_moved_back(there, b, a);
        lemma_put_back_in_place(store, now, undo.last(), exact);
        assert(back == now);
    } else {
        assert(now.remove(b).remove(b) =~= now.remove(b));
        lemma_put_back(store, now, undo.last(), back, exact);
    }
    lemma_agreed(store, store.undone(back, undo.last()), now, undo.drop_last(), base, exact);
    assert(store.brings_back(back, undo, base, exact));
    lemma_brings_back_more(store, there, undo, UndoView::Rename { from: to, to: from }, base, exact);
}

/// What is known of an operation stays known while it changes the tree.
proof fn lemma_landing(
    store: Store,
    site: SiteView,
    op: OpView,
    script: ScriptView,
    later: Option<UndoView>,
    reply: ReplyView,
    books: Books,
    start: Tree,
    now: Tree,
    after: Tree,
    base: Tree,
    exact: bool,
)
    requires
        site.recording,
        site.atomic == store.atomic,
        on_its_way(
            store,
            site,
            op,
            ExecPhase::Landing(script, later),
            books.undo,
            start,
            now,
            base,
            exact,
        ),
        store.does(now, script.current(), reply, after),
    ensures
        ({
            let (progress, noted) = exec::resumed(
                site,
                op,
                ExecPhase::Landing(script, later),
                reply,
                books,
            );
            goes_on(store, site, op, progress, noted.undo, start, after, base, exact)
        }),
{
    let full = exec::target(site, op);
    let place = store.place(full);
    let payload = choose|payload: Option<Seq<u8>>| #[trigger]
        sourced(store, site, op, payload, start) && planned(
            site,
            op,
            exec::payload_bytes(payload),
            script.requests,
        );
    lemma_changes(site, op, exec::payload_bytes(payload), script.requests);
    assert(!store.bits ==> !tree::runnable_at(now, place));
    let undo = books.undo;
    if !fresh(script) {
        assert(script.current() is Sync);
    } else if script.current() is CreateDirs || script.current() is Sync {
        assert(script.advanced().pending());
        assert(fresh(script.advanced()));
        lemma_still_back(store, site, op, later, undo, now, base, exact);
    } else {
        assert(op is Rename || !fresh(script.advanced()));
        match op {
            FileOp::Write { bytes, .. } => {
                lemma_with_file_elsewhere(now, place, bytes);
                lemma_replaced(store, place, undo, now, after, base, exact);
            },
            FileOp::CopyFrom { source, .. } => {
                let bytes = exec::payload_bytes(payload);
                lemma_with_file_elsewhere(now, place, bytes);
                lemma_replaced(store, place, undo, now, after, base, exact);
                assert(store.copies(start, path::joined(site.root, source), bytes));
            },
            FileOp::Rename { from, .. } => {
                if reply is Done {
                    lemma_renamed(store, path::joined(site.root, from), full, undo, now, base, exact);
                } else {
                    lemma_replaced(store, place, undo, now, after, base, exact);
                }
            },
            FileOp::Remove { .. } => {
                if reply is Done {
                    let u = later->0;
                    assert(now.remove(place).remove(place) =~= now.remove(place));
                    lemma_put_back(store, now, u, after, exact);
                    lemma_agreed(store, store.undone(after, u), now, undo, base, exact);
                    lemma_brings_back_more(store, after, undo, u, base, exact);
                }
            },
            FileOp::SetExecutable { executable, .. } => {
                if store.bits {
                    let flipped = store.flipped(now, place, executable);
                    assert(store.undone(flipped, undo.last()) =~= now);
                }
            },
            FileOp::SetLink { target, .. } => {
                if after != now {
                    assert(now.remove(place).remove(place) =~= now.remove(place));
                    assert(tree::with_link(now, place, target).remove(place) =~= now.remove(place));
                    let u = undo.last();
                    lemma_put_back(store, now, u, after, exact);
                    lemma_agreed(store, store.undone(after, u), now, undo.drop_last(), base, exact);
                }
            },
        }
    }
}

/// A tree with a file more differs there at most.
proof fn lemma_with_file_elsewhere(tree: Tree, place: Place, bytes: Seq<u8>)
    ensures
        tree::same_but(tree, tree::with_file(tree, place, bytes), place),
        tree::runnable_at(tree::with_file(tree, place, bytes), place) == tree::runnable_at(
            tree,
            place,
        ),
{
    assert(tree::with_file(tree, place, bytes).remove(place) =~= tree.remove(place));
}

/// What is about to land can be given up.
proof fn lemma_still_back(
    store: Store,
    site: SiteView,
    op: OpView,
    later: Option<UndoView>,
    undo: Seq<UndoView>,
    now: Tree,
    base: Tree,
    exact: bool,
)
    requires
        about_to_land(store, site, op, later, undo, now, base, exact),
    ensures
        store.brings_back(now, undo, base, exact),
{
    if op is Write || op is CopyFrom || op is Rename {
        let u = undo.last();
        lemma_put_back_in_place(store, now, u, exact);
        lemma_agreed(store, store.undone(now, u), now, undo.drop_last(), base, exact);
    }
}

/// What is known of an operation stays known, and the journal stays what it is.
proof fn lemma_op_step(
    store: Store,
    job: JobView,
    op: OpView,
    phase: ExecPhaseView,
    reply: ReplyView,
    books: Books,
    start: Tree,
    now: Tree,
    after: Tree,
    base: Tree,
    exact: bool,
)
    requires
        job.site.recording,
        job.site.atomic == store.atomic,
        store.op_clears(job.site.root, job.journal, op),
        store.all_clear(job.journal, books.undo),
        on_its_way(
            store,
            job.site,
            op,
            phase,
            books.undo,
            start,
            store.documents(job.journal, now),
            base,
            exact,
        ),
        store.does(now, exec::requested(job.site, op, phase), reply, after),
        exact && phase is Weighing && reply is Failed ==> !tree::runnable_at(
            now,
            store.place(exec::target(job.site, op)),
        ),
    ensures
        ({
            let (progress, noted) = exec::resumed(job.site, op, phase, reply, books);
            &&& goes_on(
                store,
                job.site,
                op,
                progress,
                noted.undo,
                start,
                store.documents(job.journal, after),
                base,
                exact,
            )
            &&& store.all_clear(job.journal, noted.undo)
        }),
        tree::node(after, store.place(job.journal)) == tree::node(
            now,
            store.place(job.journal),
        ),
{
    let request = exec::requested(job.site, op, phase);
    let d = store.documents(job.journal, now);
    lemma_within_itself(store.place(job.journal));
    if let ExecPhase::Landing(script, later) = phase {
        let payload = choose|payload: Option<Seq<u8>>| #[trigger]
            sourced(store, job.site, op, payload, start) && planned(
                job.site,
                op,
                exec::payload_bytes(payload),
                script.requests,
            );
        lemma_changes(job.site, op, exec::payload_bytes(payload), script.requests);
    }
    lemma_beside_journal(store, job.journal, now, request, reply, after);
    let d_after = store.documents(job.journal, after);
    match phase {
        ExecPhase::Landing(script, later) => {
            lemma_landing(
                store,
                job.site,
                op,
                script,
                later,
                reply,
                books,
                start,
                d,
                d_after,
                base,
                exact,
            );
        },
        _ => {
            lemma_asking(store, job.site, op, phase, reply, books, d, d_after, base, exact);
        },
    }
}

/// How many requests of `undo`, once the entries of `dirs` have been edited, come up to the last
/// that changes the tree. What comes after them flushes.
spec fn turns(undo: UndoView, dirs: Seq<PathView>) -> int {
    match undo {
        Undo::Rename { .. } => unwind::reversal(undo, dirs).len() as int,
        Undo::Restore { bit, .. } => if bit is Some {
            2
        } else {
            1
        },
        Undo::RestoreOverLink { bit, .. } => if bit is Some {
            3
        } else {
            2
        },
        _ => 1,
    }
}

/// Which requests carry out `undo`, and where they stand.
proof fn lemma_reversal(undo: UndoView, dirs: Seq<PathView>)
    ensures
        ({
            let requests = unwind::reversal(undo, dirs);
            let n = turns(undo, dirs);
            &&& requests.len() > 0
            &&& n <= requests.len() <= n + 1
            &&& requests.len() == n + 1 ==> requests[n] is Sync
            &&& match undo {
                Undo::Restore { path, bytes, bit } => {
                    &&& requests.len() == n + 1
                    &&& requests[0] == RequestView::Write(path, bytes)
                    &&& bit matches Some(was) ==> requests[1] == RequestView::SetExecutable(
                        path,
                        was,
                    )
                },
                Undo::Delete { path } => requests == seq![RequestView::Remove(path)],
                Undo::Rename { from, to } => {
                    &&& requests.last() == RequestView::Rename(from, to)
                    &&& forall|i: int|
                        0 <= i < requests.len() - 1 ==> (#[trigger] requests[i]) is Sync
                },
                Undo::SetExecutable { path, executable } => {
                    &&& requests.len() == n + 1
                    &&& requests[0] == RequestView::SetExecutable(path, executable)
                },
                Undo::Relink { path, target } => requests == seq![
                    RequestView::SetLink(path, target),
                ],
                Undo::RestoreOverLink { path, bytes, bit } => {
                    &&& requests.len() == n + 1
                    &&& requests[0] == RequestView::Remove(path)
                    &&& requests[1] == RequestView::Write(path, bytes)
                    &&& bit matches Some(was) ==> requests[2] == RequestView::SetExecutable(
                        path,
                        was,
                    )
                },
            }
        }),
{
}

/// What is known while what was applied is reversed: what is left to reverse brings back `base`, if
/// nothing has failed.
spec fn coming_back(store: Store, left: UnwindView, now: Tree, base: Tree, exact: bool) -> bool {
    left.error is None ==> if left.undo.len() == 0 {
        tree::agrees(now, base, exact)
    } else if left.at >= turns(left.undo.last(), left.dirs) {
        store.brings_back(now, left.undo.drop_last(), base, exact)
    } else {
        &&& store.brings_back(now, left.undo, base, exact)
        &&& match left.undo.last() {
            Undo::Restore { path, bytes, .. } => left.at == 1 ==> (store.at(
                now,
                path,
            ) matches Some(Node::File { bytes: held, .. }) && held == bytes),
            Undo::RestoreOverLink { path, bytes, .. } => {
                &&& left.at == 1 ==> store.at(now, path) is None
                &&& left.at == 2 ==> store.at(now, path) == Some(
                    Node::File { bytes, runnable: false },
                )
            },
            _ => true,
        }
    }
}

/// What is known of a reversal stays known.
proof fn lemma_unwinding(
    store: Store,
    left: UnwindView,
    reply: ReplyView,
    now: Tree,
    after: Tree,
    base: Tree,
    exact: bool,
)
    requires
        left.pending(),
        coming_back(store, left, now, base, exact),
        store.does(now, left.current(), reply, after),
    ensures
        coming_back(store, left.resumed(reply), after, base, exact),
        left.resumed(reply).undo.len() > 0 ==> left.resumed(reply).pending(),
{
    let u = left.undo.last();
    lemma_reversal(u, left.dirs);
    let rest = left.resumed(reply);
    if rest.undo.len() > 0 {
        lemma_reversal(rest.undo.last(), rest.dirs);
    }
    if left.error is None && rest.error is None {
        let request = left.current();
        assert(reply is Failed ==> request is Remove);
        if left.at >= turns(u, left.dirs) {
            assert(request is Sync);
            assert(after == now);
        } else {
            match u {
                Undo::Restore { path, bytes, bit } => {
                    let place = store.place(path);
                    if left.at == 0 {
                        assert(after == tree::with_file(now, place, bytes));
                        assert(tree::with_file(after, place, bytes) =~= after);
                        assert(store.undone(after, u) == store.undone(now, u));
                    } else {
                        assert(tree::with_file(now, place, bytes) =~= now);
                        assert(after == store.undone(now, u));
                    }
                },
                Undo::Rename { .. } => {
                    if left.at == unwind::reversal(u, left.dirs).len() - 1 {
                        assert(after == store.undone(now, u));
                    } else {
                        assert(unwind::reversal(u, left.dirs)[left.at] is Sync);
                        assert(after == now);
                    }
                },
                Undo::Delete { path } => {
                    let place = store.place(path);
                    if reply is Failed {
                        assert(now.remove(place) =~= now);
                    }
                    assert(after == store.undone(now, u));
                },
                Undo::RestoreOverLink { path, bytes, bit } => {
                    let place = store.place(path);
                    let plain = Node::File { bytes, runnable: false };
                    if left.at == 0 {
                        if reply is Failed {
                            assert(now.remove(place) =~= now);
                        }
                        assert(after == now.remove(place));
                        assert(after.insert(place, plain) =~= now.insert(place, plain));
                        assert(store.undone(after, u) == store.undone(now, u));
                    } else if left.at == 1 {
                        assert(after =~= now.insert(place, plain));
                        assert(after.insert(place, plain) =~= after);
                        assert(store.undone(after, u) == store.undone(now, u));
                    } else {
                        assert(now.insert(place, plain) =~= now);
                        assert(after == store.undone(now, u));
                    }
                },
                _ => {
                    assert(after == store.undone(now, u));
                },
            }
        }
        if left.at + 1 >= turns(u, left.dirs) {
            assert(store.brings_back(after, left.undo.drop_last(), base, exact));
        } else {
            assert(store.brings_back(after, left.undo, base, exact));
        }
    }
}

/// A request that names neither the journal nor anything above it leaves the journal alone, if
/// nothing that goes through a link ends there.
proof fn lemma_journal_stays(
    store: Store,
    journal: PathView,
    before: Tree,
    request: RequestView,
    reply: ReplyView,
    after: Tree,
)
    requires
        store.does(before, request, reply, after),
        request_clears(store, journal, request),
        goes_through(store, before, request) ==> store.shields(journal),
    ensures
        tree::node(after, store.place(journal)) == tree::node(before, store.place(journal)),
{
    if goes_through(store, before, request) {
        let place = match request {
            Request::Write(path, _) => store.place(path),
            Request::SetExecutable(path, _) => store.place(path),
            _ => store.place(journal),
        };
        let end = (store.ends)(before, place);
        assert(end != store.place(journal));
        lemma_same_but_beside(before, after, end, store.place(journal));
    } else {
        lemma_beside_journal(store, journal, before, request, reply, after);
    }
}

impl Store {
    /// Whether nothing that goes through a link ends at the journal.
    pub open spec fn shields(self, journal: PathView) -> bool {
        forall|tree: Tree, place: Place| #[trigger] (self.ends)(tree, place) != self.place(
            journal,
        )
    }
}

/// What is known while the only operation, which has no journal, is on its way.
spec fn alone(
    store: Store,
    site: SiteView,
    op: OpView,
    phase: ExecPhaseView,
    start: Tree,
    now: Tree,
) -> bool {
    match phase {
        ExecPhase::Guarding => op is SetExecutable && now == start,
        ExecPhase::Sourcing => op is CopyFrom && now == start,
        ExecPhase::Landing(script, later) => {
            &&& script.pending()
            &&& later is None
            &&& exists|payload: Option<Seq<u8>>| #[trigger]
                sourced(store, site, op, payload, start) && planned(
                    site,
                    op,
                    exec::payload_bytes(payload),
                    script.requests,
                )
            &&& if fresh(script) {
                &&& now == start
                &&& op is SetExecutable ==> !tree::is_link(
                    store.at(now, exec::target(site, op)),
                )
            } else {
                store.lands(site.root, op, start, now)
            }
        },
        _ => false,
    }
}

/// What is known of the only operation stays known.
proof fn lemma_alone(
    store: Store,
    site: SiteView,
    op: OpView,
    phase: ExecPhaseView,
    reply: ReplyView,
    books: Books,
    start: Tree,
    now: Tree,
    after: Tree,
)
    requires
        !site.recording,
        store.atomic,
        !(op is SetLink),
        alone(store, site, op, phase, start, now),
        store.does(now, exec::requested(site, op, phase), reply, after),
    ensures
        match exec::resumed(site, op, phase, reply, books).0 {
            Progress::Running(next) => alone(store, site, op, next, start, after),
            Progress::Landed => store.lands(site.root, op, start, after),
            Progress::Failed(_) => after == start || store.lands(site.root, op, start, after),
        },
{
    let full = exec::target(site, op);
    match phase {
        ExecPhase::Guarding => {
            lemma_plan(site, op, None, books.touched);
            assert(sourced(store, site, op, None, start));
        },
        ExecPhase::Sourcing => {
            if let Reply::Bytes(bytes) = reply {
                lemma_plan(site, op, Some(bytes), books.touched);
                assert(sourced(store, site, op, Some(bytes), start));
            }
        },
        ExecPhase::Landing(script, later) => {
            let payload = choose|payload: Option<Seq<u8>>| #[trigger]
                sourced(store, site, op, payload, start) && planned(
                    site,
                    op,
                    exec::payload_bytes(payload),
                    script.requests,
                );
            lemma_changes(site, op, exec::payload_bytes(payload), script.requests);
            if let FileOp::CopyFrom { source, .. } = op {
                assert(store.copies(
                    start,
                    path::joined(site.root, source),
                    exec::payload_bytes(payload),
                ));
            }
        },
        _ => {},
    }
}

impl Store {
    /// Whether the journal stands whole: it holds the operations of the set.
    pub open spec fn journal_stands(self, journal: PathView, tree: Tree) -> bool {
        self.at(tree, journal) matches Some(Node::File { bytes, .. }) && bytes == self.spelling
    }
}

/// Whether it is not so that a runnable file is about to give way, and the question whether it is
/// runnable is answered by a failure.
pub open spec fn weighs(store: Store, state: ApplyView, reply: ReplyView, tree: Tree) -> bool {
    state.phase matches Phase::Op(n, ExecPhase::Weighing(_)) ==> reply is Failed
        ==> !tree::runnable_at(
        tree,
        store.place(exec::target(state.job.site, state.job.ops()[n])),
    )
}

/// The application of a change set from its beginning: the states it was in, what the storage held
/// in each, and what the storage answered from each to the next.
pub struct Run {
    /// The states.
    pub states: Seq<ApplyView>,
    /// What the storage held.
    pub trees: Seq<Tree>,
    /// What the storage answered.
    pub replies: Seq<ReplyView>,
}

impl Run {
    /// Whether the storage did what was asked in state `i`, and the next state is what its answer
    /// makes of that.
    pub open spec fn steps(self, store: Store, i: int) -> bool {
        &&& self.states[i].asked() matches Some(request) && store.does(
            self.trees[i],
            request,
            self.replies[i],
            self.trees[i + 1],
        )
        &&& self.states[i + 1] == self.states[i].resumed(self.replies[i])
    }

    /// Whether this is an application of `job` by `store`, as far as it has come.
    pub open spec fn of(self, store: Store, job: JobView) -> bool {
        &&& self.states.len() == self.replies.len() + 1
        &&& self.trees.len() == self.states.len()
        &&& self.states[0] == ApplyView::of(job)
        &&& forall|i: int| 0 <= i < self.replies.len() ==> #[trigger] self.steps(store, i)
    }

    /// Whether no runnable file gives way in state `i` of which it could not be told whether it is
    /// runnable: undone, it would not be.
    pub open spec fn weighs(self, store: Store, i: int) -> bool {
        weighs(store, self.states[i], self.replies[i], self.trees[i])
    }

    /// Whether that holds of every state.
    pub open spec fn told(self, store: Store) -> bool {
        forall|i: int| 0 <= i < self.replies.len() ==> #[trigger] self.weighs(store, i)
    }

    /// Whether the journal had been written and an operation begun before state `i`.
    pub open spec fn committed(self, i: int) -> bool {
        exists|j: int| 0 <= j < i && (#[trigger] self.states[j]).phase is Op
    }
}

impl Store {
    /// Whether the operations of `job` leave its journal alone, and the storage replaces files as
    /// the job takes it to.
    pub open spec fn suits(self, job: JobView) -> bool {
        &&& job.site.atomic == self.atomic
        &&& job.site.recording == !apply::lone(job.ops(), self.atomic)
        &&& forall|i: int|
            0 <= i < job.ops().len() ==> #[trigger] self.op_clears(
                job.site.root,
                job.journal,
                job.ops()[i],
            )
    }
}

/// Whether `script` is at a flush, and holds nothing else.
spec fn flushes(script: ScriptView) -> bool {
    script.pending() && forall|i: int|
        0 <= i < script.requests.len() ==> (#[trigger] script.requests[i]) is Sync
}

/// A flush of many paths is made of flushes.
proof fn lemma_flushing(paths: Seq<PathView>, anchor: PathView, need: port::Durability)
    ensures
        forall|i: int|
            0 <= i < flush::flushing(paths, anchor, need).len() ==> (#[trigger] flush::flushing(
                paths,
                anchor,
                need,
            )[i]) is Sync,
{
}

/// What is known while the operation of number `i` is on its way, those before it having landed.
spec fn underway(
    store: Store,
    job: JobView,
    i: int,
    phase: ExecPhaseView,
    undo: Seq<UndoView>,
    now: Tree,
    base: Tree,
    exact: bool,
) -> bool {
    exists|start: Tree|
        store.all_land(job.site.root, job.ops().take(i), base, start) && #[trigger] on_its_way(
            store,
            job.site,
            job.ops()[i],
            phase,
            undo,
            start,
            now,
            base,
            exact,
        )
}

/// What is known of the application of `job` once the storage, which first held `first`, holds
/// `now`.
spec fn known(
    store: Store,
    job: JobView,
    first: Tree,
    state: ApplyView,
    now: Tree,
    committed: bool,
    exact: bool,
) -> bool {
    let base = store.documents(job.journal, first);
    let d = store.documents(job.journal, now);
    let root = job.site.root;
    let ops = job.ops();
    let stands = store.journal_stands(job.journal, now);
    let same_journal = store.at(now, job.journal) == store.at(first, job.journal);
    let clear = store.all_clear(job.journal, state.books.undo);
    let all = store.all_land(root, ops, base, d);
    &&& state.job == job
    &&& state.phase is Home || state.phase is HomeFlush || state.phase is Encode
        || state.phase is Commit || state.phase is Withdraw || state.phase is Certify || state.phase is Retire ==> ops.len()
        > 0
    &&& match state.phase {
        Phase::Stale | Phase::ExpectBytes(_) | Phase::ExpectNoLink(_)
        | Phase::ExpectNothing(_) => now == first && state.books.undo.len() == 0 && !committed,
        Phase::Home | Phase::Encode => {
            &&& !committed
            &&& now == first
            &&& state.books.undo.len() == 0
            &&& job.site.recording
        },
        Phase::HomeFlush(script) => {
            &&& !committed
            &&& now == first
            &&& state.books.undo.len() == 0
            &&& job.site.recording
            &&& flushes(script)
        },
        Phase::Commit(bytes) => {
            &&& !committed
            &&& now == first
            &&& bytes == store.spelling
            &&& state.books.undo.len() == 0
            &&& job.site.recording
        },
        Phase::Withdraw(_, script) => {
            &&& !committed
            &&& job.site.recording
            &&& d == base
            &&& script.pending()
            &&& script.requests == unwind::withdrawal(job.journal)
            &&& script.at > 0 ==> store.at(now, job.journal) is None
        },
        Phase::Lone(phase) => {
            &&& !committed
            &&& same_journal
            &&& apply::lone(ops, store.atomic)
            &&& alone(store, job.site, ops[0], phase, base, d)
        },
        Phase::LoneFlush(script) => {
            &&& !committed
            &&& same_journal
            &&& apply::lone(ops, store.atomic)
            &&& all
            &&& flushes(script)
        },
        Phase::Op(i, phase) => {
            &&& job.site.recording
            &&& stands
            &&& clear
            &&& 0 <= i < ops.len()
            &&& underway(store, job, i, phase, state.books.undo, d, base, exact)
        },
        Phase::Certify(script) => {
            &&& job.site.recording
            &&& flushes(script)
            &&& stands
            &&& clear
            &&& all
            &&& store.brings_back(d, state.books.undo, base, exact)
        },
        Phase::Retire => job.site.recording && stands && all,
        Phase::Unwind(_, left) => {
            &&& job.site.recording
            &&& left.error is None || store.shields(job.journal) ==> stands
            &&& store.all_clear(job.journal, left.undo)
            &&& left.pending()
            &&& coming_back(store, left, d, base, exact)
        },
        Phase::Abort(_, script) => {
            &&& job.site.recording
            &&& tree::agrees(d, base, exact)
            &&& script.pending()
            &&& exists|dirs: Seq<PathView>|
                script.requests == #[trigger] unwind::retirement(dirs, root, job.journal) && if dirs_end(
                    dirs,
                    root,
                    job.journal,
                ) < script.at {
                    store.at(now, job.journal) is None
                } else {
                    stands
                }
        },
        Phase::Finished(outcome) => match outcome {
            Ok(()) => {
                &&& all
                &&& ops.len() == 0 ==> now == first
                &&& ops.len() > 0 && job.site.recording ==> store.at(now, job.journal) is None
            },
            Err(Error::Io(_)) => {
                &&& tree::agrees(d, base, exact) || (apply::lone(ops, store.atomic) && all)
                &&& store.at(now, job.journal) is None || same_journal
            },
            Err(Error::Torn { .. }) => {
                &&& job.site.recording
                &&& store.shields(job.journal) ==> stands || (tree::agrees(d, base, exact) && (committed ==> store.at(
                    now,
                    job.journal,
                ) is None))
            },
            Err(_) => now == first,
        },
    }
}

/// How many requests of a retirement come before the removal of the journal.
pub(crate) open spec fn dirs_end(dirs: Seq<PathView>, root: PathView, journal: PathView) -> int {
    if unwind::in_dir(journal, root) {
        dirs.len() as int
    } else {
        dirs.len() as int + 1
    }
}

/// The journal is removed where it should be, and everything else in a retirement is a flush.
pub(crate) proof fn lemma_retirement(dirs: Seq<PathView>, root: PathView, journal: PathView)
    ensures
        ({
            let requests = unwind::retirement(dirs, root, journal);
            let end = dirs_end(dirs, root, journal);
            &&& end < requests.len() <= end + 2
            &&& requests[end] == RequestView::Remove(journal)
            &&& forall|i: int| 0 <= i < requests.len() && i != end ==> (#[trigger] requests[i]) is Sync
        }),
{
    let requests = unwind::retirement(dirs, root, journal);
    let end = dirs_end(dirs, root, journal);
    assert forall|i: int| 0 <= i < requests.len() && i != end implies (
    #[trigger] requests[i]) is Sync by {}
}

/// What lands after what has landed.
proof fn lemma_one_more_lands(
    store: Store,
    root: PathView,
    ops: Seq<OpView>,
    i: int,
    base: Tree,
    start: Tree,
    after: Tree,
)
    requires
        0 <= i < ops.len(),
        store.all_land(root, ops.take(i), base, start),
        store.lands(root, ops[i], start, after),
    ensures
        store.all_land(root, ops.take(i + 1), base, after),
{
    let more = ops.take(i + 1);
    assert(more.drop_last() =~= ops.take(i));
    assert(more.last() == ops[i]);
}

/// An operation begins with nothing done.
proof fn lemma_op_begins(
    store: Store,
    job: JobView,
    first: Tree,
    state: ApplyView,
    i: int,
    now: Tree,
    committed: bool,
    exact: bool,
)
    requires
        job.site.recording,
        state.job == job,
        state.phase == job.op_from(i, state.books),
        0 <= i <= job.ops().len(),
        job.ops().len() > 0,
        store.journal_stands(job.journal, now),
        store.all_clear(job.journal, state.books.undo),
        store.all_land(
            job.site.root,
            job.ops().take(i),
            store.documents(job.journal, first),
            store.documents(job.journal, now),
        ),
        store.brings_back(
            store.documents(job.journal, now),
            state.books.undo,
            store.documents(job.journal, first),
            exact,
        ),
    ensures
        known(store, job, first, state, now, committed, exact),
{
    let d = store.documents(job.journal, now);
    if i < job.ops().len() {
        let op = job.ops()[i];
        assert(on_its_way(
            store,
            job.site,
            op,
            exec::begun(job.site, op, state.books.touched),
            state.books.undo,
            d,
            d,
            store.documents(job.journal, first),
            exact,
        ));
    } else {
        assert(job.ops().take(i) =~= job.ops());
        lemma_flushing(state.books.touched, job.site.root, port::Durability::Durable);
    }
}

/// What was applied begins to be reversed.
proof fn lemma_failing(
    store: Store,
    job: JobView,
    first: Tree,
    cause: FaultView,
    state: ApplyView,
    books: Books,
    now: Tree,
    committed: bool,
    exact: bool,
)
    requires
        job.site.recording,
        state.job == job,
        state.phase == job.failing(cause, books).0,
        store.journal_stands(job.journal, now),
        store.all_clear(job.journal, books.undo),
        store.brings_back(
            store.documents(job.journal, now),
            books.undo,
            store.documents(job.journal, first),
            exact,
        ),
    ensures
        known(store, job, first, state, now, committed, exact),
{
    let left = UnwindView::of(books.undo);
    if books.undo.len() > 0 {
        lemma_reversal(books.undo.last(), Seq::empty());
        assert(left.pending());
    } else {
        let dirs = Seq::<PathView>::empty();
        lemma_retirement(dirs, job.site.root, job.journal);
        assert(unwind::retirement(dirs, job.site.root, job.journal)
            == ScriptView::of(unwind::retirement(dirs, job.site.root, job.journal)).requests);
    }
}

/// What is known after one more answer, while an operation is on its way.
proof fn lemma_known_op(
    store: Store,
    job: JobView,
    first: Tree,
    state: ApplyView,
    reply: ReplyView,
    now: Tree,
    after: Tree,
    committed: bool,
    exact: bool,
)
    requires
        store.suits(job),
        known(store, job, first, state, now, committed, exact),
        state.phase is Op,
        state.asked() matches Some(request) && store.does(now, request, reply, after),
        exact ==> weighs(store, state, reply, now),
    ensures
        known(store, job, first, state.resumed(reply), after, true, exact),
{
    if let Phase::Op(i, phase) = state.phase {
        let base = store.documents(job.journal, first);
        let d = store.documents(job.journal, now);
        let op = job.ops()[i];
        let start = choose|start: Tree|
            store.all_land(job.site.root, job.ops().take(i), base, start) && #[trigger] on_its_way(
                store,
                job.site,
                job.ops()[i],
                phase,
                state.books.undo,
                start,
                d,
                base,
                exact,
            );
        assert(store.op_clears(job.site.root, job.journal, job.ops()[i]));
        lemma_op_step(store, job, op, phase, reply, state.books, start, now, after, base, exact);
        let (progress, noted) = exec::resumed(job.site, op, phase, reply, state.books);
        let next = state.resumed(reply);
        match progress {
            Progress::Running(phase) => {},
            Progress::Landed => {
                let d_after = store.documents(job.journal, after);
                lemma_one_more_lands(store, job.site.root, job.ops(), i, base, start, d_after);
                lemma_op_begins(store, job, first, next, i + 1, after, true, exact);
            },
            Progress::Failed(fault) => {
                lemma_failing(store, job, first, fault, next, noted, after, true, exact);
            },
        }
    }
}

/// What is known after one more answer, while what was applied is reversed.
proof fn lemma_known_unwind(
    store: Store,
    job: JobView,
    first: Tree,
    state: ApplyView,
    reply: ReplyView,
    now: Tree,
    after: Tree,
    committed: bool,
    exact: bool,
)
    requires
        store.suits(job),
        known(store, job, first, state, now, committed, exact),
        state.phase is Unwind,
        state.asked() matches Some(request) && store.does(now, request, reply, after),
    ensures
        known(store, job, first, state.resumed(reply), after, committed, exact),
{
    if let Phase::Unwind(cause, left) = state.phase {
        let base = store.documents(job.journal, first);
        let d = store.documents(job.journal, now);
        let d_after = store.documents(job.journal, after);
        let request = left.current();
        let u = left.undo.last();
        lemma_within_itself(store.place(job.journal));
        assert(store.undo_clears(job.journal, left.undo[left.undo.len() - 1]));
        lemma_reversal(u, left.dirs);
        assert(request_clears(store, job.journal, request));
        if left.error is None {
            assert(!goes_through(store, d, request));
            lemma_beside_journal(store, job.journal, now, request, reply, after);
            lemma_unwinding(store, left, reply, d, d_after, base, exact);
        } else if store.shields(job.journal) {
            lemma_journal_stays(store, job.journal, now, request, reply, after);
        }
        let rest = left.resumed(reply);
        if rest.undo.len() > 0 {
            lemma_reversal(rest.undo.last(), rest.dirs);
        }
        assert(rest.undo.len() > 0 ==> rest.pending());
        assert(store.all_clear(job.journal, rest.undo));
        if rest.undo.len() == 0 && rest.error is None {
            lemma_retirement(rest.dirs, job.site.root, job.journal);
            assert(unwind::retirement(rest.dirs, job.site.root, job.journal) == ScriptView::of(
                unwind::retirement(rest.dirs, job.site.root, job.journal),
            ).requests);
        }
    }
}

/// What is known once the expectations that come before `i` have held.
proof fn lemma_expecting_from(
    store: Store,
    job: JobView,
    first: Tree,
    state: ApplyView,
    i: int,
    exact: bool,
)
    requires
        store.suits(job),
        state.job == job,
        state.phase == job.expecting_from(i),
        state.books.undo.len() == 0,
    ensures
        known(store, job, first, state, first, false, exact),
{
    let base = store.documents(job.journal, first);
    if i >= job.changes.expected.len() && apply::lone(job.ops(), store.atomic) {
        let op = job.ops()[0];
        lemma_plan(job.site, op, None, Seq::empty());
        assert(!(op is CopyFrom) ==> sourced(store, job.site, op, None, base));
        assert(alone(store, job.site, op, exec::begun(job.site, op, Seq::empty()), base, base));
    }
}

/// What is known after one more answer, while the only operation is on its way.
proof fn lemma_known_lone(
    store: Store,
    job: JobView,
    first: Tree,
    state: ApplyView,
    reply: ReplyView,
    now: Tree,
    after: Tree,
    exact: bool,
)
    requires
        store.suits(job),
        known(store, job, first, state, now, false, exact),
        state.phase is Lone,
        state.asked() matches Some(request) && store.does(now, request, reply, after),
    ensures
        known(store, job, first, state.resumed(reply), after, false, exact),
{
    if let Phase::Lone(phase) = state.phase {
        let base = store.documents(job.journal, first);
        let d = store.documents(job.journal, now);
        let d_after = store.documents(job.journal, after);
        let op = job.ops()[0];
        let request = exec::requested(job.site, op, phase);
        assert(store.op_clears(job.site.root, job.journal, job.ops()[0]));
        lemma_within_itself(store.place(job.journal));
        if let ExecPhase::Landing(script, later) = phase {
            let payload = choose|payload: Option<Seq<u8>>| #[trigger]
                sourced(store, job.site, op, payload, base) && planned(
                    job.site,
                    op,
                    exec::payload_bytes(payload),
                    script.requests,
                );
            lemma_changes(job.site, op, exec::payload_bytes(payload), script.requests);
        }
        lemma_beside_journal(store, job.journal, now, request, reply, after);
        lemma_alone(store, job.site, op, phase, reply, state.books, base, d, d_after);
        let (progress, noted) = exec::resumed(job.site, op, phase, reply, state.books);
        if store.lands(job.site.root, op, base, d_after) {
            assert(job.ops().take(0) =~= Seq::empty());
            lemma_one_more_lands(store, job.site.root, job.ops(), 0, base, base, d_after);
            assert(job.ops().take(1) =~= job.ops());
        }
        lemma_flushing(noted.touched, job.site.root, port::Durability::Durable);
    }
}

/// What is known after one more answer.
proof fn lemma_known(
    store: Store,
    job: JobView,
    first: Tree,
    state: ApplyView,
    reply: ReplyView,
    now: Tree,
    after: Tree,
    committed: bool,
    exact: bool,
)
    requires
        store.suits(job),
        known(store, job, first, state, now, committed, exact),
        state.asked() matches Some(request) && store.does(now, request, reply, after),
        exact ==> weighs(store, state, reply, now),
    ensures
        known(store, job, first, state.resumed(reply), after, committed || state.phase is Op, exact),
{
    let next = state.resumed(reply);
    let base = store.documents(job.journal, first);
    let apart = store.place(job.journal);
    match state.phase {
        Phase::Stale => {
            if next.phase == job.expecting_from(0) {
                lemma_expecting_from(store, job, first, next, 0, exact);
            }
        },
        Phase::ExpectBytes(i) => {
            if next.phase == job.expecting_from(i + 1) {
                lemma_expecting_from(store, job, first, next, i + 1, exact);
            }
        },
        Phase::ExpectNoLink(i) => {},
        Phase::ExpectNothing(i) => {
            if next.phase == job.expecting_from(i + 1) {
                lemma_expecting_from(store, job, first, next, i + 1, exact);
            }
        },
        Phase::Lone(_) => lemma_known_lone(store, job, first, state, reply, now, after, exact),
        Phase::LoneFlush(script) => {
            assert(script.requests[script.at] is Sync);
        },
        Phase::Home => {},
        Phase::HomeFlush(script) => {
            assert(script.requests[script.at] is Sync);
        },
        Phase::Encode => {},
        Phase::Commit(bytes) => {
            lemma_with_file_elsewhere(now, apart, bytes);
            if reply is Done {
                assert(job.ops().take(0) =~= Seq::empty());
                lemma_op_begins(store, job, first, next, 0, after, committed, exact);
            } else {
                assert(unwind::withdrawal(job.journal).len() > 0);
            }
        },
        Phase::Withdraw(_, script) => {
            assert(now.remove(apart).remove(apart) =~= now.remove(apart));
        },
        Phase::Op(_, _) => lemma_known_op(
            store,
            job,
            first,
            state,
            reply,
            now,
            after,
            committed,
            exact,
        ),
        Phase::Certify(script) => {
            assert(script.requests[script.at] is Sync);
            if let Reply::Failed(fault) = reply {
                lemma_failing(store, job, first, fault, next, state.books, after, committed, exact);
            }
        },
        Phase::Retire => {
            assert(now.remove(apart).remove(apart) =~= now.remove(apart));
        },
        Phase::Unwind(_, _) => lemma_known_unwind(
            store,
            job,
            first,
            state,
            reply,
            now,
            after,
            committed,
            exact,
        ),
        Phase::Abort(_, script) => {
            let dirs = choose|dirs: Seq<PathView>|
                script.requests == #[trigger] unwind::retirement(dirs, job.site.root, job.journal)
                    && if dirs_end(dirs, job.site.root, job.journal) < script.at {
                    store.at(now, job.journal) is None
                } else {
                    store.journal_stands(job.journal, now)
                };
            lemma_retirement(dirs, job.site.root, job.journal);
            assert(now.remove(apart).remove(apart) =~= now.remove(apart));
            let script = script.advanced();
            assert(script.requests == unwind::retirement(dirs, job.site.root, job.journal));
        },
        Phase::Finished(_) => {},
    }
}

/// What is known of every state of a run.
proof fn lemma_known_throughout(store: Store, job: JobView, run: Run, i: int, exact: bool)
    requires
        store.suits(job),
        run.of(store, job),
        0 <= i < run.states.len(),
        exact ==> run.told(store),
    ensures
        known(store, job, run.trees[0], run.states[i], run.trees[i], run.committed(i), exact),
    decreases i,
{
    if i == 0 {
        assert(job.ops().len() == 0 ==> store.all_land(
            job.site.root,
            job.ops(),
            store.documents(job.journal, run.trees[0]),
            store.documents(job.journal, run.trees[0]),
        ));
    } else {
        lemma_known_throughout(store, job, run, i - 1, exact);
        assert(run.steps(store, i - 1));
        assert(exact ==> run.weighs(store, i - 1));
        lemma_known(
            store,
            job,
            run.trees[0],
            run.states[i - 1],
            run.replies[i - 1],
            run.trees[i - 1],
            run.trees[i],
            run.committed(i - 1),
            exact,
        );
        if run.committed(i) {
            let j = choose|j: int| 0 <= j < i && (#[trigger] run.states[j]).phase is Op;
            if j < i - 1 {
                assert(run.committed(i - 1));
            }
        }
        if run.committed(i - 1) {
            let j = choose|j: int| 0 <= j < i - 1 && (#[trigger] run.states[j]).phase is Op;
            assert(run.states[j].phase is Op);
        }
        assert(run.committed(i) == (run.committed(i - 1) || run.states[i - 1].phase is Op));
    }
}

/// All or nothing. If a change set is applied, every operation has landed, in order, and the
/// journal is gone. If its application fails, the documents are as they were, and no journal is
/// left: nothing is where the journal belongs, or what was there at first. Only where the set is a
/// single operation that needs no journal may it have landed all the same: then the storage failed
/// after landing it, or the flush did.
///
/// Where the storage fails to say whether a file that gives way is runnable, and it is, everything
/// but execute bits is as it was.
pub proof fn law_all_or_nothing(store: Store, job: JobView, run: Run)
    requires
        store.suits(job),
        run.of(store, job),
    ensures
        ({
            let before = store.documents(job.journal, run.trees[0]);
            let after = store.documents(job.journal, run.trees.last());
            let landed = store.all_land(job.site.root, job.ops(), before, after);
            match run.states.last().ended() {
                Some(Ok(())) => landed && (job.ops().len() > 0 && !apply::lone(
                    job.ops(),
                    store.atomic,
                ) ==> store.at(run.trees.last(), job.journal) is None),
                Some(Err(Error::Io(_))) => {
                    &&& tree::agrees(after, before, run.told(store)) || (apply::lone(
                        job.ops(),
                        store.atomic,
                    ) && landed)
                    &&& {
                        ||| store.at(run.trees.last(), job.journal) is None
                        ||| store.at(run.trees.last(), job.journal) == store.at(
                            run.trees[0],
                            job.journal,
                        )
                    }
                },
                _ => true,
            }
        }),
{
    lemma_known_throughout(store, job, run, run.states.len() - 1, run.told(store));
}

impl Store {
    /// Whether what is expected of `path` holds in `tree`. Bytes are read through a link, behind
    /// which anything may be.
    pub open spec fn meets(self, tree: Tree, path: PathView, want: ExpectedView) -> bool {
        match want {
            Expected::Bytes(bytes) => self.copies(tree, path, bytes),
            Expected::Absent => self.at(tree, path) is None,
        }
    }

    /// Whether the expectations of `job` that come before `n` hold in `tree`.
    pub open spec fn meets_before(self, tree: Tree, job: JobView, n: int) -> bool {
        forall|i: int|
            0 <= i < n ==> self.meets(
                tree,
                #[trigger] job.expected_at(i),
                job.changes.expected[i].1,
            )
    }

    /// Whether the expectation of number `i` may be found not to hold in `tree`. A directory is an
    /// occupied path, though no entry.
    pub open spec fn may_miss(self, tree: Tree, job: JobView, i: int) -> bool {
        job.changes.expected[i].1 matches Expected::Bytes(bytes) ==> !(self.at(
            tree,
            job.expected_at(i),
        ) matches Some(Node::File { bytes: held, .. }) && held == bytes)
    }
}

/// What is known of the expectations of `job`, and of what a refusal left.
spec fn compared(store: Store, job: JobView, first: Tree, state: ApplyView, now: Tree) -> bool {
    let n = job.changes.expected.len() as int;
    &&& state.job == job
    &&& match state.phase {
        Phase::Stale => now == first,
        Phase::ExpectBytes(i) => {
            &&& now == first
            &&& 0 <= i < n
            &&& job.changes.expected[i].1 is Bytes
            &&& store.meets_before(first, job, i)
        },
        Phase::ExpectNoLink(i) => {
            &&& now == first
            &&& 0 <= i < n
            &&& job.changes.expected[i].1 is Absent
            &&& store.meets_before(first, job, i)
        },
        Phase::ExpectNothing(i) => {
            &&& now == first
            &&& 0 <= i < n
            &&& job.changes.expected[i].1 is Absent
            &&& store.meets_before(first, job, i)
            &&& !tree::is_link(store.at(first, job.expected_at(i)))
        },
        Phase::Finished(Err(Error::Escape(_))) => now == first,
        Phase::Finished(Err(Error::StaleJournal(_))) => now == first,
        Phase::Finished(Err(Error::Drifted(path))) => {
            &&& now == first
            &&& exists|i: int|
                0 <= i < n && path == (#[trigger] job.changes.expected[i]).0 && store.meets_before(
                    first,
                    job,
                    i,
                ) && store.may_miss(first, job, i)
        },
        Phase::Finished(Err(_)) => now == first || store.meets_before(first, job, n),
        _ => store.meets_before(first, job, n),
    }
}

/// What is known of the expectations after one more answer.
proof fn lemma_compared(
    store: Store,
    job: JobView,
    first: Tree,
    state: ApplyView,
    reply: ReplyView,
    now: Tree,
    after: Tree,
)
    requires
        compared(store, job, first, state, now),
        state.asked() matches Some(request) && store.does(now, request, reply, after),
    ensures
        compared(store, job, first, state.resumed(reply), after),
{
    let next = state.resumed(reply);
    match state.phase {
        Phase::ExpectBytes(i) => {
            if next.phase is Finished && next.phase == job.drifted(i) {
                assert(next.phase == PhaseView::Finished(
                    Err(Error::Drifted(job.changes.expected[i].0)),
                ));
            }
        },
        Phase::ExpectNoLink(i) => {
            if next.phase is Finished && next.phase == job.drifted(i) {
                assert(next.phase == PhaseView::Finished(
                    Err(Error::Drifted(job.changes.expected[i].0)),
                ));
            }
        },
        Phase::ExpectNothing(i) => {
            if next.phase is Finished && next.phase == job.drifted(i) {
                assert(next.phase == PhaseView::Finished(
                    Err(Error::Drifted(job.changes.expected[i].0)),
                ));
            }
        },
        _ => {},
    }
}

/// What is known of the expectations in every state of a run.
proof fn lemma_compared_throughout(store: Store, job: JobView, run: Run, i: int)
    requires
        run.of(store, job),
        0 <= i < run.states.len(),
    ensures
        compared(store, job, run.trees[0], run.states[i], run.trees[i]),
    decreases i,
{
    if i > 0 {
        lemma_compared_throughout(store, job, run, i - 1);
        assert(run.steps(store, i - 1));
        lemma_compared(
            store,
            job,
            run.trees[0],
            run.states[i - 1],
            run.replies[i - 1],
            run.trees[i - 1],
            run.trees[i],
        );
    }
}

/// A set that is refused changes nothing: not one that names a path outside the root, not one that
/// finds an earlier journal, and not one whose expectations do not hold.
pub proof fn law_refusal_touches_nothing(store: Store, job: JobView, run: Run)
    requires
        run.of(store, job),
    ensures
        match run.states.last().ended() {
            Some(Err(Error::Escape(_))) => run.trees.last() == run.trees[0],
            Some(Err(Error::StaleJournal(_))) => run.trees.last() == run.trees[0],
            Some(Err(Error::Drifted(_))) => run.trees.last() == run.trees[0],
            _ => true,
        },
{
    lemma_compared_throughout(store, job, run, run.states.len() - 1);
}

/// A set that stages no operation changes nothing at all, and writes no journal: it asks, and that
/// is all.
pub proof fn law_expectations_alone_change_nothing(store: Store, job: JobView, run: Run, i: int)
    requires
        run.of(store, job),
        job.ops().len() == 0,
        0 <= i < run.states.len(),
    ensures
        run.trees[i] == run.trees[0],
        match run.states[i].asked() {
            Some(Request::Exists(_)) | Some(Request::Read(_)) | Some(Request::ReadLink(_)) => true,
            Some(_) => false,
            None => true,
        },
{
    lemma_only_asked(store, job, run, i);
}

/// A set that stages no operation has only come to ask.
proof fn lemma_only_asked(store: Store, job: JobView, run: Run, i: int)
    requires
        run.of(store, job),
        job.ops().len() == 0,
        0 <= i < run.states.len(),
    ensures
        run.trees[i] == run.trees[0],
        run.states[i].job == job,
        match run.states[i].phase {
            Phase::Stale | Phase::ExpectBytes(_) | Phase::ExpectNoLink(_) => true,
            Phase::ExpectNothing(_) | Phase::Finished(_) => true,
            _ => false,
        },
    decreases i,
{
    if i > 0 {
        lemma_only_asked(store, job, run, i - 1);
        assert(run.steps(store, i - 1));
    }
}

/// Nothing is done over an earlier journal: a set that changes anything, or stages something and
/// ends well, found no file where its journal belongs.
pub proof fn law_nothing_runs_over_a_journal(store: Store, job: JobView, run: Run, i: int)
    requires
        run.of(store, job),
        0 <= i < run.states.len(),
    ensures
        run.trees[i] != run.trees[0] || ((job.ops().len() > 0 || job.changes.expected.len() > 0) && (
        run.states[i].ended() matches Some(Ok(())))) ==> !(store.at(
            run.trees[0],
            job.journal,
        ) matches Some(Node::File { .. })),
        0 < i && (store.at(run.trees[0], job.journal) matches Some(Node::File { .. }))
            ==> run.states[i].ended() is Some && run.trees[i] == run.trees[0],
    decreases i,
{
    if i > 0 {
        law_nothing_runs_over_a_journal(store, job, run, i - 1);
        assert(run.steps(store, i - 1));
        if i > 1 {
            assert(run.steps(store, i - 2));
        }
    }
}

/// A set with a path outside the root is refused before anything is asked of the storage.
pub proof fn law_escape_asks_nothing(job: JobView)
    requires
        job.ops().len() > 0 || job.changes.expected.len() > 0,
        change::first_outside(job.judged()) is Some,
    ensures
        ApplyView::of(job).asked() is None,
        ApplyView::of(job).ended() matches Some(Err(Error::Escape(path))) && Some(path)
            == change::first_outside(job.judged()),
{
}

/// Nothing is changed or journaled unless every expectation holds of the tree as it was found. One
/// that is found not to hold is named: the first of them.
pub proof fn law_expectations_come_first(store: Store, job: JobView, run: Run, i: int)
    requires
        run.of(store, job),
        0 <= i < run.states.len(),
    ensures
        run.trees[i] != run.trees[0] || (run.states[i].ended() matches Some(Ok(())))
            ==> store.meets_before(run.trees[0], job, job.changes.expected.len() as int),
        run.states[i].ended() matches Some(Err(Error::Drifted(path))) ==> exists|n: int|
            0 <= n < job.changes.expected.len() && path == (
            #[trigger] job.changes.expected[n]).0 && store.meets_before(run.trees[0], job, n)
                && store.may_miss(run.trees[0], job, n),
{
    lemma_compared_throughout(store, job, run, i);
}

/// The journal covers every half-applied state. Whenever the application is interrupted, the
/// documents are as they were, or the journal stands whole, or everything has landed.
///
/// A set of one operation that needs no journal has no half-applied state. Execute bits count as in
/// [`law_all_or_nothing`].
pub proof fn law_journal_covers_the_change(store: Store, job: JobView, run: Run, i: int)
    requires
        store.suits(job),
        store.shields(job.journal),
        run.of(store, job),
        0 <= i < run.states.len(),
    ensures
        ({
            let before = store.documents(job.journal, run.trees[0]);
            let now = store.documents(job.journal, run.trees[i]);
            ||| tree::agrees(now, before, run.told(store))
            ||| store.journal_stands(job.journal, run.trees[i])
            ||| store.all_land(job.site.root, job.ops(), before, now)
        }),
{
    lemma_known_throughout(store, job, run, i, run.told(store));
    let base = store.documents(job.journal, run.trees[0]);
    let d = store.documents(job.journal, run.trees[i]);
    if let Phase::Lone(phase) = run.states[i].phase {
        if store.lands(job.site.root, job.ops()[0], base, d) {
            assert(job.ops().take(0) =~= Seq::empty());
            lemma_one_more_lands(store, job.site.root, job.ops(), 0, base, base, d);
            assert(job.ops().take(1) =~= job.ops());
        }
    }
}

/// An application that could be neither finished nor undone leaves the journal, from which the set
/// can still be finished. If that does not stand whole, everything had been undone and the journal
/// is gone, or nothing had been done and the journal could not be written. Execute bits count as in
/// [`law_all_or_nothing`].
pub proof fn law_torn_leaves_the_journal(store: Store, job: JobView, run: Run)
    requires
        store.suits(job),
        store.shields(job.journal),
        run.of(store, job),
    ensures
        run.states.last().ended() matches Some(Err(Error::Torn { .. })) ==> {
            ||| store.journal_stands(job.journal, run.trees.last())
            ||| {
                &&& run.committed(run.states.len() - 1) ==> store.at(
                    run.trees.last(),
                    job.journal,
                ) is None
                &&& tree::agrees(
                    store.documents(job.journal, run.trees.last()),
                    store.documents(job.journal, run.trees[0]),
                    run.told(store),
                )
            }
        },
{
    lemma_known_throughout(store, job, run, run.states.len() - 1, run.told(store));
}

impl Run {
    /// Whether what was asked in state `i`, to reverse something or to retire the journal, failed.
    /// That there is nothing to take back is no failure.
    pub open spec fn breaks(self, i: int) -> bool {
        match (self.states[i].phase, self.replies[i]) {
            (Phase::Unwind(_, left), Reply::Failed(fault)) => !(left.current() is Remove
                && fault.kind is NotFound),
            (Phase::Withdraw(_, script), Reply::Failed(fault)) => !(script.current() is Remove
                && fault.kind is NotFound),
            (Phase::Abort(_, _), Reply::Failed(_)) => true,
            (Phase::Retire, Reply::Failed(_)) => true,
            _ => false,
        }
    }

    /// Whether that happened before state `i`.
    pub open spec fn broke(self, i: int) -> bool {
        exists|j: int| 0 <= j < i && #[trigger] self.breaks(j)
    }
}

/// A failure is told as a tear only if undoing it failed, or retiring the journal did.
pub proof fn law_torn_takes_another_failure(store: Store, job: JobView, run: Run, i: int)
    requires
        run.of(store, job),
        0 <= i < run.states.len(),
    ensures
        run.states[i].ended() matches Some(Err(Error::Torn { .. })) ==> run.broke(i),
{
    lemma_torn(store, job, run, i);
}

/// What is known of tears in every state of a run.
proof fn lemma_torn(store: Store, job: JobView, run: Run, i: int)
    requires
        run.of(store, job),
        0 <= i < run.states.len(),
    ensures
        run.states[i].phase matches Phase::Unwind(_, left) ==> (left.error is Some ==> run.broke(
            i,
        )),
        run.states[i].ended() matches Some(Err(Error::Torn { .. })) ==> run.broke(i),
    decreases i,
{
    if i > 0 {
        lemma_torn(store, job, run, i - 1);
        assert(run.steps(store, i - 1));
        if run.broke(i - 1) {
            let j = choose|j: int| 0 <= j < i - 1 && #[trigger] run.breaks(j);
            assert(run.breaks(j));
        }
        if run.breaks(i - 1) {
            assert(run.broke(i));
        }
    }
}

} // verus!
