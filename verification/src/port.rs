//! What a transaction asks of the storage it runs against, and what the storage answers.
//!
//! Nothing in this crate performs a request. A protocol hands one out, whoever holds the storage
//! performs it, and the protocol is resumed with the reply.

use crate::path::{self, PathView, TreePath};
use vstd::prelude::*;

verus! {

/// How far a flush must carry what it names.
#[derive(Debug, Clone, Copy, PartialEq, Eq, Structural)]
pub enum Durability {
    /// Handed to the device, and ordered against nothing.
    Pushed,
    /// Ordered: it lands before anything that is written after it.
    Ordered,
    /// It survives a power cut.
    Durable,
}

/// The kinds of failure that a protocol tells apart.
#[derive(Debug, Clone, Copy, PartialEq, Eq, Structural)]
pub enum FaultKind {
    /// There is nothing at the path.
    NotFound,
    /// The path is occupied.
    AlreadyExists,
    /// The request does not fit what the path holds.
    InvalidInput,
    /// The storage has no such thing.
    Unsupported,
    /// Any other failure.
    Other,
}

/// A failure of the storage: its kind, and the text that says what went wrong.
#[derive(Debug, Clone, PartialEq, Eq)]
pub struct Fault<B = Vec<u8>> {
    /// What kind of failure it is.
    pub kind: FaultKind,
    /// What to tell a reader.
    pub message: B,
}

impl View for Fault<Vec<u8>> {
    type V = Fault<Seq<u8>>;

    open spec fn view(&self) -> Fault<Seq<u8>> {
        Fault { kind: self.kind, message: self.message@ }
    }
}

/// One thing asked of the storage. Paths are complete: the root has been joined on.
#[derive(Debug, Clone, PartialEq, Eq)]
pub enum Request<P = TreePath, B = Vec<u8>> {
    /// Say whether there is anything at the path, a link being followed. Answered by `Found`.
    Exists(P),
    /// Read the bytes at the path, a link being followed. Answered by `Bytes`.
    Read(P),
    /// Say where the link at the path points. Answered by `Link`, which holds nothing on a storage
    /// that has no links. A path that holds no link is a failure.
    ReadLink(P),
    /// Say whether the file at the path is runnable. Answered by `Executable`, which holds nothing
    /// on a storage that has no such bit.
    Executable(P),
    /// Make the directory and whatever it lacks above it. Answered by `Made`: the directories that
    /// were made and, if any was, the one that received the topmost of them.
    CreateDirs(P),
    /// Write the bytes at the path as they come, a link being followed. A file that was there keeps
    /// its execute bit, and a new one is not runnable. Answered by `Done`.
    Write(P, B),
    /// Replace whatever the path holds by a file of these bytes, in one step where the storage can.
    /// A file that was there passes its execute bit on, and a new one is not runnable. Answered by
    /// `Done`. After a failure the path may hold the file all the same.
    Replace(P, B),
    /// Replace whatever the path holds by a file of these bytes, as `Replace` does, and make that
    /// survive a power cut. Answered by `Done`. After a failure the path may hold the file all the
    /// same: it was put there, and could not be flushed.
    WriteAtomic(P, B),
    /// Create the file at the path, which must hold nothing. Answered by `Done`.
    CreateNew(P, B),
    /// Move the first path to the second, replacing what that held. Answered by `Done`.
    Rename(P, P),
    /// Remove the file or link at the path. Answered by `Done`.
    Remove(P),
    /// Make the file at the path runnable, or not. Answered by `Done`.
    SetExecutable(P, bool),
    /// Replace whatever the first path holds by a link to the second. Answered by `Done`.
    SetLink(P, P),
    /// Flush the path. That nothing is there is no failure: a directory may have been moved since it
    /// was changed. Answered by `Done`.
    Sync(P, Durability),
    /// Spell the ops of the change set as the bytes of a journal. Answered by `Bytes`.
    Encode,
}

impl View for Request<TreePath, Vec<u8>> {
    type V = Request<PathView, Seq<u8>>;

    open spec fn view(&self) -> Request<PathView, Seq<u8>> {
        match self {
            Request::Exists(p) => Request::Exists(p@),
            Request::Read(p) => Request::Read(p@),
            Request::ReadLink(p) => Request::ReadLink(p@),
            Request::Executable(p) => Request::Executable(p@),
            Request::CreateDirs(p) => Request::CreateDirs(p@),
            Request::Write(p, b) => Request::Write(p@, b@),
            Request::Replace(p, b) => Request::Replace(p@, b@),
            Request::WriteAtomic(p, b) => Request::WriteAtomic(p@, b@),
            Request::CreateNew(p, b) => Request::CreateNew(p@, b@),
            Request::Rename(from, to) => Request::Rename(from@, to@),
            Request::Remove(p) => Request::Remove(p@),
            Request::SetExecutable(p, executable) => Request::SetExecutable(p@, *executable),
            Request::SetLink(p, target) => Request::SetLink(p@, target@),
            Request::Sync(p, need) => Request::Sync(p@, *need),
            Request::Encode => Request::Encode,
        }
    }
}

/// What the storage answers to a [`Request`].
#[derive(Debug, Clone, PartialEq, Eq)]
pub enum Reply<P = TreePath, B = Vec<u8>, L = Vec<TreePath>> {
    /// Whether there is anything at the path.
    Found(bool),
    /// The bytes that were asked for.
    Bytes(B),
    /// Where the link points, or that the storage has no links.
    Link(Option<P>),
    /// Whether the file is runnable, or that the storage has no such bit.
    Executable(Option<bool>),
    /// The directories that were made, and the one that received the topmost.
    Made(L),
    /// It was done.
    Done,
    /// It was not done.
    Failed(Fault<B>),
}

/// The view of an optional value.
pub open spec fn view_of<T: View>(value: Option<T>) -> Option<T::V> {
    match value {
        Some(v) => Some(v@),
        None => None,
    }
}

impl View for Reply<TreePath, Vec<u8>, Vec<TreePath>> {
    type V = Reply<PathView, Seq<u8>, Seq<PathView>>;

    open spec fn view(&self) -> Reply<PathView, Seq<u8>, Seq<PathView>> {
        match self {
            Reply::Found(found) => Reply::Found(*found),
            Reply::Bytes(bytes) => Reply::Bytes(bytes@),
            Reply::Link(target) => Reply::Link(view_of(*target)),
            Reply::Executable(bit) => Reply::Executable(*bit),
            Reply::Made(dirs) => Reply::Made(path::views(dirs@)),
            Reply::Done => Reply::Done,
            Reply::Failed(fault) => Reply::Failed(fault@),
        }
    }
}

/// The view of a [`Request`].
pub type RequestView = Request<PathView, Seq<u8>>;

/// The view of a [`Reply`].
pub type ReplyView = Reply<PathView, Seq<u8>, Seq<PathView>>;

/// The view of a [`Fault`].
pub type FaultView = Fault<Seq<u8>>;

/// Whether `reply` is of the form in which `request` is answered. A failure always is.
pub open spec fn answers<P, B, L>(request: Request<P, B>, reply: Reply<P, B, L>) -> bool {
    reply is Failed || match request {
        Request::Exists(_) => reply is Found,
        Request::Read(_) | Request::Encode => reply is Bytes,
        Request::ReadLink(_) => reply is Link,
        Request::Executable(_) => reply is Executable,
        Request::CreateDirs(_) => reply is Made,
        _ => reply is Done,
    }
}

/// Each request is answered in one form, besides by a failure: whether there is anything by a yes or
/// a no, a read and a spelling by bytes, where a link points by that, whether a file is runnable by
/// that, directories by those that were made, and anything else by its having been done.
pub proof fn law_each_answer_has_its_question(request: RequestView, reply: ReplyView)
    ensures
        match reply {
            Reply::Failed(_) => answers(request, reply),
            Reply::Found(_) => answers(request, reply) <==> request is Exists,
            Reply::Bytes(_) => answers(request, reply) <==> request is Read || request is Encode,
            Reply::Link(_) => answers(request, reply) <==> request is ReadLink,
            Reply::Executable(_) => answers(request, reply) <==> request is Executable,
            Reply::Made(_) => answers(request, reply) <==> request is CreateDirs,
            Reply::Done => answers(request, reply) <==> request is Write || request is Replace
                || request is WriteAtomic || request is CreateNew || request is Rename
                || request is Remove || request is SetExecutable || request is SetLink
                || request is Sync,
        },
{
}

impl Fault<Vec<u8>> {
    /// A copy of this fault.
    pub fn copy(&self) -> (copy: Fault)
        ensures
            copy@ == self@,
    {
        Fault { kind: self.kind, message: path::copied(&self.message) }
    }
}

impl Request<TreePath, Vec<u8>> {
    /// Whether `reply` is of the form in which this request is answered.
    pub fn is_answered_by(&self, reply: &Reply) -> (is: bool)
        ensures
            is == answers(self@, reply@),
    {
        match (self, reply) {
            (_, Reply::Failed(_)) => true,
            (Request::Exists(_), Reply::Found(_)) => true,
            (Request::Exists(_), _) => false,
            (Request::Read(_), Reply::Bytes(_)) => true,
            (Request::Read(_), _) => false,
            (Request::Encode, Reply::Bytes(_)) => true,
            (Request::Encode, _) => false,
            (Request::ReadLink(_), Reply::Link(_)) => true,
            (Request::ReadLink(_), _) => false,
            (Request::Executable(_), Reply::Executable(_)) => true,
            (Request::Executable(_), _) => false,
            (Request::CreateDirs(_), Reply::Made(_)) => true,
            (Request::CreateDirs(_), _) => false,
            (_, Reply::Done) => true,
            _ => false,
        }
    }

    /// A copy of this request.
    pub fn copy(&self) -> (copy: Request)
        ensures
            copy@ == self@,
    {
        match self {
            Request::Exists(p) => Request::Exists(p.copy()),
            Request::Read(p) => Request::Read(p.copy()),
            Request::ReadLink(p) => Request::ReadLink(p.copy()),
            Request::Executable(p) => Request::Executable(p.copy()),
            Request::CreateDirs(p) => Request::CreateDirs(p.copy()),
            Request::Write(p, b) => Request::Write(p.copy(), path::copied(b)),
            Request::Replace(p, b) => Request::Replace(p.copy(), path::copied(b)),
            Request::WriteAtomic(p, b) => Request::WriteAtomic(p.copy(), path::copied(b)),
            Request::CreateNew(p, b) => Request::CreateNew(p.copy(), path::copied(b)),
            Request::Rename(from, to) => Request::Rename(from.copy(), to.copy()),
            Request::Remove(p) => Request::Remove(p.copy()),
            Request::SetExecutable(p, executable) => Request::SetExecutable(p.copy(), *executable),
            Request::SetLink(p, target) => Request::SetLink(p.copy(), target.copy()),
            Request::Sync(p, need) => Request::Sync(p.copy(), *need),
            Request::Encode => Request::Encode,
        }
    }
}

} // verus!
