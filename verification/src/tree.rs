//! The tree as a mathematical value, and what a storage that does as it is asked makes of it.
//!
//! Directories are no part of the tree: they are where entries are, and nobody puts one back.

use crate::path::{self, Parts, PathView};
use crate::port::{self, Reply, ReplyView, Request, RequestView};
use crate::undo::{Undo, UndoView};
use vstd::prelude::*;

verus! {

/// What stands at a place in the tree.
pub enum Node {
    /// A file.
    File {
        /// What it holds.
        bytes: Seq<u8>,
        /// Whether it is runnable.
        runnable: bool,
    },
    /// A symbolic link.
    Link {
        /// Where it points.
        target: PathView,
    },
}

/// A place in the tree: the names that lead there from where the storage begins.
pub type Place = Parts;

/// The entries of a tree, each under its place.
pub type Tree = Map<Place, Node>;

/// What stands at `place`, if anything does.
pub open spec fn node(tree: Tree, place: Place) -> Option<Node> {
    if tree.dom().contains(place) {
        Some(tree[place])
    } else {
        None
    }
}

/// Whether what was found is a link.
pub open spec fn is_link(found: Option<Node>) -> bool {
    found matches Some(Node::Link { .. })
}

/// Whether a runnable file stands at `place`.
pub open spec fn runnable_at(tree: Tree, place: Place) -> bool {
    node(tree, place) matches Some(Node::File { runnable, .. }) && runnable
}

/// The tree with a file of `bytes` at `place`. A file that was there passes its execute bit on.
pub open spec fn with_file(tree: Tree, place: Place, bytes: Seq<u8>) -> Tree {
    tree.insert(place, Node::File { bytes, runnable: runnable_at(tree, place) })
}

/// The tree with a link at `place`.
pub open spec fn with_link(tree: Tree, place: Place, target: PathView) -> Tree {
    tree.insert(place, Node::Link { target })
}

/// Whether `place` is `top` or lies below it.
pub open spec fn within(place: Place, top: Place) -> bool {
    top.len() <= place.len() && place.take(top.len() as int) == top
}

/// The tree with everything at or below `from` moved to `to`, which gives way.
pub open spec fn moved(tree: Tree, from: Place, to: Place) -> Tree {
    Map::new(
        |place: Place|
            if within(place, to) {
                tree.dom().contains(from + place.skip(to.len() as int))
            } else {
                tree.dom().contains(place) && !within(place, from)
            },
        |place: Place|
            if within(place, to) {
                tree[from + place.skip(to.len() as int)]
            } else {
                tree[place]
            },
    )
}

/// Whether the tree can be moved from `from` to `to`: neither lies inside the other, and `to` is no
/// directory that holds anything.
pub open spec fn movable(tree: Tree, from: Place, to: Place) -> bool {
    from == to || {
        &&& !within(from, to)
        &&& !within(to, from)
        &&& forall|place: Place| within(place, to) && place != to ==> !(#[trigger] tree.dom().contains(place))
    }
}

/// Whether the two trees differ at `place` at most.
pub open spec fn same_but(a: Tree, b: Tree, place: Place) -> bool {
    a.remove(place) == b.remove(place)
}

/// Whether what was found at a place of one tree is what was found there in another, but for the
/// execute bit.
pub open spec fn like(a: Option<Node>, b: Option<Node>) -> bool {
    match (a, b) {
        (None, None) => true,
        (Some(Node::File { bytes: x, .. }), Some(Node::File { bytes: y, .. })) => x == y,
        (Some(Node::Link { target: x }), Some(Node::Link { target: y })) => x == y,
        _ => false,
    }
}

/// Whether two trees hold the same but for execute bits.
pub open spec fn alike(a: Tree, b: Tree) -> bool {
    forall|place: Place| like(#[trigger] node(a, place), node(b, place))
}

/// Whether two trees are the same, or, if that need not be exact, the same but for execute bits.
pub open spec fn agrees(a: Tree, b: Tree, exact: bool) -> bool {
    if exact {
        a == b
    } else {
        alike(a, b)
    }
}

/// A storage: how it reads paths, and what it can hold.
pub struct Store {
    /// The place that components lead to. Two paths that lead to one place name the same entry.
    pub leads: spec_fn(Parts) -> Place,
    /// Whether it has links.
    pub links: bool,
    /// Whether execute bits are looked at. Where they are not, no file counts as runnable.
    pub bits: bool,
    /// Whether it replaces a file in one step.
    pub atomic: bool,
    /// Where what goes through the link at a place of a tree ends.
    pub ends: spec_fn(Tree, Place) -> Place,
    /// What the operations of the change set are spelled as in a journal.
    pub spelling: Seq<u8>,
}

impl Store {
    /// The place that `path` leads to.
    pub open spec fn place(self, path: PathView) -> Place {
        (self.leads)(path::parsed(path))
    }

    /// What stands where `path` leads.
    pub open spec fn at(self, tree: Tree, path: PathView) -> Option<Node> {
        node(tree, self.place(path))
    }

    /// The tree with the execute bit of the file at `place` set or cleared, as far as bits are
    /// looked at.
    pub open spec fn flipped(self, tree: Tree, place: Place, executable: bool) -> Tree {
        match node(tree, place) {
            Some(Node::File { bytes, .. }) if self.bits => tree.insert(
                place,
                Node::File { bytes, runnable: executable },
            ),
            _ => tree,
        }
    }

    /// The tree with the execute bit of the file at `place` put to what it was, if there is one.
    pub open spec fn rebitted(self, tree: Tree, place: Place, bit: Option<bool>) -> Tree {
        match bit {
            Some(was) => self.flipped(tree, place, was),
            None => tree,
        }
    }

    /// Whether `tree` can be what this storage holds, as far as it is looked at.
    pub open spec fn holds(self, tree: Tree) -> bool {
        self.bits || forall|place: Place| !(#[trigger] runnable_at(tree, place))
    }

    /// Whether a file of `bytes` that failed to be put at `place` has been left as that leaves it:
    /// not put, put all the same, or half put where files are not replaced in one step. The execute
    /// bit stays what it was, and no link is left that was not there.
    pub open spec fn half_put(self, before: Tree, after: Tree, place: Place, bytes: Seq<u8>) -> bool {
        after == before || after == with_file(before, place, bytes) || {
            &&& !self.atomic
            &&& same_but(before, after, place)
            &&& !is_link(node(after, place))
            &&& runnable_at(after, place) == runnable_at(before, place)
        }
    }

    /// Whether the storage, which held `before`, holds `after` once it has answered `request` with
    /// `reply`, and the reply is true.
    pub open spec fn does(
        self,
        before: Tree,
        request: RequestView,
        reply: ReplyView,
        after: Tree,
    ) -> bool {
        &&& port::answers(request, reply)
        &&& self.holds(before)
        &&& self.holds(after)
        &&& match request {
            Request::Exists(path) => {
                &&& after == before
                &&& (reply matches Reply::Found(found) && !found) ==> !(self.at(
                    before,
                    path,
                ) matches Some(Node::File { .. }))
            },
            Request::Read(path) => {
                &&& after == before
                &&& match (reply, self.at(before, path)) {
                    (_, Some(Node::Link { .. })) => true,
                    (Reply::Bytes(read), Some(Node::File { bytes, .. })) => read == bytes,
                    (Reply::Bytes(_), None) => false,
                    (Reply::Failed(fault), Some(_)) => !(fault.kind is NotFound),
                    _ => true,
                }
            },
            Request::ReadLink(path) => {
                &&& after == before
                &&& match (reply, self.at(before, path)) {
                    (Reply::Link(Some(to)), Some(Node::Link { target })) => self.links && to
                        == target,
                    (_, Some(Node::Link { .. })) => false,
                    (Reply::Link(Some(_)), _) => false,
                    (Reply::Link(None), _) => !self.links,
                    (Reply::Failed(fault), Some(_)) => !(fault.kind is NotFound),
                    _ => true,
                }
            },
            Request::Executable(path) => {
                &&& after == before
                &&& match (reply, self.at(before, path)) {
                    (Reply::Executable(Some(was)), Some(Node::File { runnable, .. })) => self.bits
                        ==> was == runnable,
                    (Reply::Executable(None), _) => !self.bits,
                    _ => true,
                }
            },
            Request::Write(path, bytes) => {
                let place = self.place(path);
                match (reply, self.at(before, path)) {
                    (_, Some(Node::Link { .. })) => same_but(
                        before,
                        after,
                        (self.ends)(before, place),
                    ),
                    (Reply::Done, _) => after == with_file(before, place, bytes),
                    _ => same_but(before, after, place),
                }
            },
            Request::Replace(path, bytes) | Request::WriteAtomic(path, bytes) => {
                let place = self.place(path);
                match reply {
                    Reply::Done => after == with_file(before, place, bytes),
                    _ => self.half_put(before, after, place, bytes),
                }
            },
            Request::CreateNew(path, bytes) => {
                let place = self.place(path);
                match reply {
                    Reply::Done => node(before, place) is None && after == with_file(
                        before,
                        place,
                        bytes,
                    ),
                    _ => same_but(before, after, place) && (node(before, place) is Some ==> after
                        == before),
                }
            },
            Request::Rename(from, to) => {
                let (from, to) = (self.place(from), self.place(to));
                match reply {
                    Reply::Done => movable(before, from, to) && after == moved(before, from, to),
                    _ => after == before,
                }
            },
            Request::Remove(path) => {
                let place = self.place(path);
                match reply {
                    Reply::Done => node(before, place) is Some && after == before.remove(place),
                    Reply::Failed(fault) => after == before && (fault.kind is NotFound ==> node(
                        before,
                        place,
                    ) is None),
                    _ => false,
                }
            },
            Request::SetExecutable(path, executable) => {
                let place = self.place(path);
                match (reply, self.at(before, path)) {
                    (_, Some(Node::Link { .. })) => same_but(
                        before,
                        after,
                        (self.ends)(before, place),
                    ),
                    (Reply::Done, _) => after == self.flipped(before, place, executable),
                    _ => after == before || after == self.flipped(before, place, executable),
                }
            },
            Request::SetLink(path, target) => {
                let place = self.place(path);
                match reply {
                    Reply::Done => self.links && after == with_link(before, place, target),
                    _ => after == before || {
                        &&& self.links
                        &&& after == before.remove(place) || after == with_link(
                            before,
                            place,
                            target,
                        )
                    },
                }
            },
            Request::Encode => after == before && (reply matches Reply::Bytes(bytes) ==> bytes
                == self.spelling),
            Request::CreateDirs(_) | Request::Sync(_, _) => after == before,
        }
    }

    /// The tree with `undo` carried out.
    pub open spec fn undone(self, tree: Tree, undo: UndoView) -> Tree {
        match undo {
            Undo::Restore { path, bytes, bit } => self.rebitted(
                with_file(tree, self.place(path), bytes),
                self.place(path),
                bit,
            ),
            Undo::Delete { path } => tree.remove(self.place(path)),
            Undo::Rename { from, to } => moved(tree, self.place(from), self.place(to)),
            Undo::SetExecutable { path, executable } => self.flipped(
                tree,
                self.place(path),
                executable,
            ),
            Undo::Relink { path, target } => with_link(tree, self.place(path), target),
            Undo::RestoreOverLink { path, bytes, bit } => self.rebitted(
                tree.insert(self.place(path), Node::File { bytes, runnable: false }),
                self.place(path),
                bit,
            ),
        }
    }

    /// Whether `undo` can be carried out on `tree` as it stands: nothing is written through a link.
    pub open spec fn undoable(self, tree: Tree, undo: UndoView) -> bool {
        match undo {
            Undo::Restore { path, .. } => !is_link(self.at(tree, path)),
            Undo::SetExecutable { path, .. } => !is_link(self.at(tree, path)),
            _ => true,
        }
    }

    /// Whether carrying out all of `undo` on `tree`, the last first, brings back `base`, execute bits
    /// included if it is to be exact.
    pub open spec fn brings_back(
        self,
        tree: Tree,
        undo: Seq<UndoView>,
        base: Tree,
        exact: bool,
    ) -> bool
        decreases undo.len(),
    {
        if undo.len() == 0 {
            agrees(tree, base, exact)
        } else {
            &&& self.undoable(tree, undo.last())
            &&& self.brings_back(self.undone(tree, undo.last()), undo.drop_last(), base, exact)
        }
    }
}

} // verus!
