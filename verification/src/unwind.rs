//! Reversing what was applied, and making the reversal a fact before the journal goes.

use crate::change::{FileOp, OpView};
use crate::exec::{self, SiteView};
use crate::flush;
use crate::path::{self, PathView, TreePath};
use crate::path_set::{self, PathSet};
use crate::port::{self, Durability, Fault, FaultKind, FaultView, Reply, ReplyView, Request, RequestView};
use crate::script;
use crate::undo::{Undo, UndoView};
use vstd::prelude::*;

verus! {

/// The requests that put the execute bit of the file at `path` to what it was, if there is one.
pub open spec fn rebitting(path: PathView, bit: Option<bool>) -> Seq<RequestView> {
    match bit {
        Some(was) => seq![Request::SetExecutable(path, was)],
        None => Seq::empty(),
    }
}

/// The requests that carry out `undo`, once the entries of `dirs` have been edited. Bytes and bits
/// that were put back are ordered at once, while the name still leads to them, and directories that
/// a move takes along are ordered before it.
pub open spec fn reversal(undo: UndoView, dirs: Seq<PathView>) -> Seq<RequestView> {
    match undo {
        Undo::Restore { path, bytes, bit } => (seq![Request::Write(path, bytes)]
            + rebitting(path, bit)).push(Request::Sync(path, Durability::Ordered)),
        Undo::Delete { path } => seq![Request::Remove(path)],
        Undo::Rename { from, to } => flush::calming(dirs, from, to).push(Request::Rename(from, to)),
        Undo::SetExecutable { path, executable } => seq![
            Request::SetExecutable(path, executable),
            Request::Sync(path, Durability::Ordered),
        ],
        Undo::Relink { path, target } => seq![Request::SetLink(path, target)],
        Undo::RestoreOverLink { path, bytes, bit } => (seq![
            Request::Remove(path),
            Request::Write(path, bytes),
        ] + rebitting(path, bit)).push(Request::Sync(path, Durability::Ordered)),
    }
}

/// The directories whose entries `undo` edits.
pub open spec fn reversal_dirs(undo: UndoView) -> Seq<PathView> {
    match undo {
        Undo::Restore { path, .. } => exec::dir_of(path),
        Undo::Delete { path } => exec::dir_of(path),
        Undo::Rename { from, to } => exec::dir_of(from) + exec::dir_of(to),
        Undo::SetExecutable { .. } => Seq::empty(),
        Undo::Relink { path, .. } => exec::dir_of(path),
        Undo::RestoreOverLink { path, .. } => exec::dir_of(path),
    }
}

/// Whether `root` is the directory that holds `journal`.
pub open spec fn in_dir(journal: PathView, root: PathView) -> bool {
    path::parent_of(journal) matches Some(dir) && path::same(dir, root)
}

/// The requests that make a reversal a fact and retire the journal: the edited directories are
/// ordered, the root is made durable unless it holds the journal, the journal is removed, and its
/// directory is made durable.
pub open spec fn retirement(dirs: Seq<PathView>, root: PathView, journal: PathView) -> Seq<
    RequestView,
> {
    let ordered = flush::syncs(dirs, Durability::Ordered);
    let restored = if in_dir(journal, root) {
        ordered
    } else {
        ordered.push(Request::Sync(root, Durability::Durable))
    };
    let retired = restored.push(Request::Remove(journal));
    match path::parent_of(journal) {
        Some(dir) => retired.push(Request::Sync(dir, Durability::Durable)),
        None => retired,
    }
}

/// The requests that take back a journal which could not be written whole: it is removed, and its
/// directory is made durable.
pub open spec fn withdrawal(journal: PathView) -> Seq<RequestView> {
    let removed = seq![Request::Remove(journal)];
    match path::parent_of(journal) {
        Some(dir) => removed.push(Request::Sync(dir, Durability::Durable)),
        None => removed,
    }
}

/// The target of a link is a text that is handed on as it is: the one that was staged is asked for,
/// and the one that was found is asked for when the link is put back.
pub proof fn law_link_targets_are_handed_on(
    site: SiteView,
    path: PathView,
    target: PathView,
    payload: Seq<u8>,
    touched: Seq<PathView>,
    op: OpView,
    found: PathView,
    dirs: Seq<PathView>,
)
    ensures
        exec::changes(site, FileOp::SetLink { path, target }, payload, touched).last()
            == RequestView::SetLink(path::joined(site.root, path), target),
        exec::undo_by_link(site, op, Ok(Some(found))) == Some(
            Some(UndoView::Relink { path: exec::target(site, op), target: found }),
        ),
        reversal(UndoView::Relink { path: exec::target(site, op), target: found }, dirs) == seq![
            RequestView::SetLink(exec::target(site, op), found),
        ],
{
}

/// A reversal on its way: what is still to be reversed, last first, how much of the last has been
/// done, which directories were edited, and what failed first.
pub struct UnwindView {
    /// What is still to be reversed. The last comes next.
    pub undo: Seq<UndoView>,
    /// How many requests of the last have been made.
    pub at: int,
    /// The directories whose entries were edited.
    pub dirs: Seq<PathView>,
    /// The first failure.
    pub error: Option<FaultView>,
}

impl UnwindView {
    /// A reversal of which nothing has been done.
    pub open spec fn of(undo: Seq<UndoView>) -> UnwindView {
        UnwindView { undo, at: 0, dirs: Seq::empty(), error: None }
    }

    /// Whether there is something left to reverse.
    pub open spec fn pending(self) -> bool {
        self.undo.len() > 0 && 0 <= self.at < reversal(self.undo.last(), self.dirs).len()
    }

    /// The request to make next.
    pub open spec fn current(self) -> RequestView {
        reversal(self.undo.last(), self.dirs)[self.at]
    }

    /// The reversal with the last left behind.
    pub open spec fn popped(self) -> UnwindView {
        UnwindView {
            undo: self.undo.drop_last(),
            at: 0,
            dirs: path_set::with_paths(self.dirs, reversal_dirs(self.undo.last())),
            error: self.error,
        }
    }

    /// The reversal with one more request made.
    pub open spec fn advanced(self) -> UnwindView {
        if self.at + 1 < reversal(self.undo.last(), self.dirs).len() {
            UnwindView { undo: self.undo, at: self.at + 1, dirs: self.dirs, error: self.error }
        } else {
            self.popped()
        }
    }

    /// The reversal after a failure: the last is left behind, and the failure is remembered if it
    /// is the first.
    pub open spec fn faulted(self, fault: FaultView) -> UnwindView {
        let error = match self.error {
            Some(first) => Some(first),
            None => Some(fault),
        };
        UnwindView { undo: self.undo, at: self.at, dirs: self.dirs, error }.popped()
    }

    /// The reversal with the answer to what it asked. That nothing is there to remove is no
    /// failure.
    pub open spec fn resumed(self, reply: ReplyView) -> UnwindView {
        match reply {
            Reply::Failed(fault) => if self.current() is Remove && fault.kind is NotFound {
                self.advanced()
            } else {
                self.faulted(fault)
            },
            _ => self.advanced(),
        }
    }
}

/// A reversal on its way.
#[derive(Debug, Clone, PartialEq, Eq)]
pub struct Unwind {
    undo: Vec<Undo>,
    at: usize,
    dirs: PathSet,
    error: Option<Fault>,
}

impl View for Unwind {
    type V = UnwindView;

    closed spec fn view(&self) -> UnwindView {
        UnwindView {
            undo: path::views(self.undo@),
            at: self.at as int,
            dirs: self.dirs@,
            error: port::view_of(self.error),
        }
    }
}

impl Unwind {
    /// Whether the edited directories are listed in order.
    pub open spec fn well_formed(&self) -> bool {
        path_set::ascending(self@.dirs)
    }

    /// A reversal of which nothing has been done.
    pub fn new(undo: Vec<Undo>) -> (unwind: Unwind)
        ensures
            unwind@ == UnwindView::of(path::views(undo@)),
            unwind.well_formed(),
            unwind@.undo.len() > 0 ==> unwind@.pending(),
    {
        Unwind { undo, at: 0, dirs: PathSet::new(), error: None }
    }

    /// Whether there is something left to reverse.
    pub fn is_pending(&self) -> (pending: bool)
        ensures
            pending == (self@.undo.len() > 0),
    {
        self.undo.len() > 0
    }

    /// The request to make next.
    pub fn request(&self) -> (request: Request)
        requires
            self@.pending(),
        ensures
            request@ == self@.current(),
    {
        let n = self.undo.len();
        assert(self@.undo.last() == self.undo@[n - 1]@);
        reversal_requests(&self.undo[n - 1], &self.dirs)[self.at].copy()
    }

    /// Leaves the last behind.
    fn pop(self) -> (unwind: Unwind)
        requires
            self@.pending(),
        ensures
            unwind@ == self@.popped(),
            self.well_formed() ==> unwind.well_formed(),
            unwind@.undo.len() > 0 ==> unwind@.pending(),
    {
        let Unwind { mut undo, at: _, mut dirs, error } = self;
        let n = undo.len();
        assert(path::views(undo@).last() == undo@[n - 1]@);
        let edited = reversed_dirs(&undo[n - 1]);
        dirs.insert_all(edited);
        let ghost before = path::views(undo@);
        let _ = undo.pop();
        assert(path::views(undo@) =~= before.drop_last());
        Unwind { undo, at: 0, dirs, error }
    }

    /// Goes on to the next request.
    fn advance(self) -> (unwind: Unwind)
        requires
            self@.pending(),
        ensures
            unwind@ == self@.advanced(),
            self.well_formed() ==> unwind.well_formed(),
            unwind@.undo.len() > 0 ==> unwind@.pending(),
    {
        let n = self.undo.len();
        assert(self@.undo.last() == self.undo@[n - 1]@);
        let steps = reversal_requests(&self.undo[n - 1], &self.dirs).len();
        if self.at + 1 < steps {
            let Unwind { undo, at, dirs, error } = self;
            Unwind { undo, at: at + 1, dirs, error }
        } else {
            self.pop()
        }
    }

    /// Carries the reversal on with the answer to what it asked.
    pub fn resume(self, reply: Reply) -> (unwind: Unwind)
        requires
            self@.pending(),
        ensures
            unwind@ == self@.resumed(reply@),
            self.well_formed() ==> unwind.well_formed(),
            unwind@.undo.len() > 0 ==> unwind@.pending(),
    {
        match reply {
            Reply::Failed(fault) => {
                if let (Request::Remove(_), FaultKind::NotFound) = (self.request(), fault.kind) {
                    return self.advance();
                }
                let Unwind { undo, at, dirs, error } = self;
                let error = match error {
                    Some(first) => Some(first),
                    None => Some(fault),
                };
                Unwind { undo, at, dirs, error }.pop()
            },
            _ => self.advance(),
        }
    }

    /// The first failure, or the requests that make the reversal a fact and retire the journal.
    pub fn finish(self, root: &TreePath, journal: &TreePath) -> (end: Result<Vec<Request>, Fault>)
        ensures
            match end {
                Ok(requests) => self@.error is None && path::views(requests@) == retirement(
                    self@.dirs,
                    root@,
                    journal@,
                ),
                Err(fault) => self@.error == Some(fault@),
            },
    {
        match self.error {
            Some(fault) => Err(fault),
            None => Ok(retire(&self.dirs, root, journal)),
        }
    }
}

/// The requests that carry out `undo`, once the entries of `dirs` have been edited.
fn reversal_requests(undo: &Undo, dirs: &PathSet) -> (requests: Vec<Request>)
    ensures
        path::views(requests@) == reversal(undo@, dirs@),
{
    let mut requests: Vec<Request> = Vec::new();
    match undo {
        Undo::Restore { path, bytes, bit } => {
            script::ask(&mut requests, Request::Write(path.copy(), path::copied(bytes)));
            if let Some(was) = bit {
                script::ask(&mut requests, Request::SetExecutable(path.copy(), *was));
            }
            script::ask(&mut requests, Request::Sync(path.copy(), Durability::Ordered));
        },
        Undo::Delete { path } => {
            script::ask(&mut requests, Request::Remove(path.copy()));
        },
        Undo::Rename { from, to } => {
            flush::calm(&mut requests, dirs.paths(), from, to);
            script::ask(&mut requests, Request::Rename(from.copy(), to.copy()));
        },
        Undo::SetExecutable { path, executable } => {
            script::ask(&mut requests, Request::SetExecutable(path.copy(), *executable));
            script::ask(&mut requests, Request::Sync(path.copy(), Durability::Ordered));
        },
        Undo::Relink { path, target } => {
            script::ask(&mut requests, Request::SetLink(path.copy(), target.copy()));
        },
        Undo::RestoreOverLink { path, bytes, bit } => {
            script::ask(&mut requests, Request::Remove(path.copy()));
            script::ask(&mut requests, Request::Write(path.copy(), path::copied(bytes)));
            if let Some(was) = bit {
                script::ask(&mut requests, Request::SetExecutable(path.copy(), *was));
            }
            script::ask(&mut requests, Request::Sync(path.copy(), Durability::Ordered));
        },
    }
    assert(path::views(requests@) =~= reversal(undo@, dirs@));
    requests
}

/// The requests that make a reversal a fact and retire the journal.
fn retire(dirs: &PathSet, root: &TreePath, journal: &TreePath) -> (requests: Vec<Request>)
    ensures
        path::views(requests@) == retirement(dirs@, root@, journal@),
{
    let mut requests: Vec<Request> = Vec::new();
    flush::sync_each(&mut requests, dirs.paths(), Durability::Ordered);
    assert(path::views(requests@) =~= flush::syncs(dirs@, Durability::Ordered));
    match journal.parent_dir() {
        Some(dir) => {
            if !dir.same(root) {
                script::ask(&mut requests, Request::Sync(root.copy(), Durability::Durable));
            }
            script::ask(&mut requests, Request::Remove(journal.copy()));
            script::ask(&mut requests, Request::Sync(dir, Durability::Durable));
        },
        None => {
            script::ask(&mut requests, Request::Sync(root.copy(), Durability::Durable));
            script::ask(&mut requests, Request::Remove(journal.copy()));
        },
    }
    requests
}

/// The requests that take back a journal which could not be written whole.
pub fn withdraw(journal: &TreePath) -> (requests: Vec<Request>)
    ensures
        path::views(requests@) == withdrawal(journal@),
{
    let mut requests: Vec<Request> = Vec::new();
    script::ask(&mut requests, Request::Remove(journal.copy()));
    assert(path::views(requests@) =~= seq![Request::Remove(journal@)]);
    if let Some(dir) = journal.parent_dir() {
        script::ask(&mut requests, Request::Sync(dir, Durability::Durable));
    }
    requests
}

/// The directories whose entries `undo` edits.
fn reversed_dirs(undo: &Undo) -> (dirs: Vec<TreePath>)
    ensures
        path::views(dirs@) == reversal_dirs(undo@),
{
    let mut dirs: Vec<TreePath> = Vec::new();
    match undo {
        Undo::Restore { path, .. } => {
            exec::add_dir_of(&mut dirs, path);
        },
        Undo::Delete { path } => {
            exec::add_dir_of(&mut dirs, path);
        },
        Undo::Rename { from, to } => {
            exec::add_dir_of(&mut dirs, from);
            exec::add_dir_of(&mut dirs, to);
        },
        Undo::SetExecutable { .. } => {},
        Undo::Relink { path, .. } => {
            exec::add_dir_of(&mut dirs, path);
        },
        Undo::RestoreOverLink { path, .. } => {
            exec::add_dir_of(&mut dirs, path);
        },
    }
    assert(path::views(dirs@) =~= reversal_dirs(undo@));
    dirs
}

} // verus!
