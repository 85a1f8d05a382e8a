//! Applying one operation: what it asks of the storage, what it records to reverse itself, and
//! which paths it leaves to be flushed.

use crate::change::{self, FileOp, OpView};
use crate::flush;
use crate::path::{self, PathView, TreePath};
use crate::path_set::{self, PathSet};
use crate::port::{self, Durability, Fault, FaultKind, FaultView, Reply, ReplyView, Request, RequestView};
use crate::script::{self, Script, ScriptView};
use crate::undo::{Undo, UndoView};
use vstd::prelude::*;
use vstd::string::StringSliceAdditionalSpecFns;

verus! {

/// How far an operation has come.
#[derive(Debug, Clone, PartialEq, Eq)]
pub enum ExecPhase<P = TreePath, B = Vec<u8>, S = Script> {
    /// Asking whether the path holds a link, through which no execute bit is set.
    Guarding,
    /// Reading the bytes to copy.
    Sourcing,
    /// Asking whether what gives way is a link. Holds the bytes that were read for a copy.
    Linking(Option<B>),
    /// Reading what gives way. Holds the bytes that were read for a copy.
    Reading(Option<B>),
    /// Asking whether the file that gives way is runnable. Holds what was read from it. A question
    /// that fails stops nothing: the bit is then not put back.
    Weighing(B),
    /// Asking what the execute bit is.
    Probing,
    /// Changing the tree. Holds what to record once that is done.
    Landing(S, Option<Undo<P, B>>),
}

/// The view of an [`ExecPhase`].
pub type ExecPhaseView = ExecPhase<PathView, Seq<u8>, ScriptView>;

impl View for ExecPhase<TreePath, Vec<u8>, Script> {
    type V = ExecPhaseView;

    open spec fn view(&self) -> ExecPhaseView {
        match self {
            ExecPhase::Guarding => ExecPhase::Guarding,
            ExecPhase::Sourcing => ExecPhase::Sourcing,
            ExecPhase::Linking(payload) => ExecPhase::Linking(port::view_of(*payload)),
            ExecPhase::Reading(payload) => ExecPhase::Reading(port::view_of(*payload)),
            ExecPhase::Weighing(bytes) => ExecPhase::Weighing(bytes@),
            ExecPhase::Probing => ExecPhase::Probing,
            ExecPhase::Landing(script, undo) => ExecPhase::Landing(script@, port::view_of(*undo)),
        }
    }
}

/// What a reply makes of an operation.
#[derive(Debug, Clone, PartialEq, Eq)]
pub enum Progress<P = TreePath, B = Vec<u8>, S = Script> {
    /// There is more to ask.
    Running(ExecPhase<P, B, S>),
    /// The operation is applied.
    Landed,
    /// The operation failed.
    Failed(Fault<B>),
}

/// The view of a [`Progress`].
pub type ProgressView = Progress<PathView, Seq<u8>, ScriptView>;

impl View for Progress<TreePath, Vec<u8>, Script> {
    type V = ProgressView;

    open spec fn view(&self) -> ProgressView {
        match self {
            Progress::Running(phase) => Progress::Running(phase@),
            Progress::Landed => Progress::Landed,
            Progress::Failed(fault) => Progress::Failed(fault@),
        }
    }
}

/// Where an operation runs: the root, whether the storage replaces a file in one step, and whether
/// what reverses the operation is to be recorded.
#[derive(Debug, Clone, PartialEq, Eq)]
pub struct Site<P = TreePath> {
    /// The root that the paths of the operation are read from.
    pub root: P,
    /// Whether the storage replaces a file in one step.
    pub atomic: bool,
    /// Whether what reverses the operation is recorded.
    pub recording: bool,
}

/// The view of a [`Site`].
pub type SiteView = Site<PathView>;

impl View for Site<TreePath> {
    type V = SiteView;

    open spec fn view(&self) -> SiteView {
        Site { root: self.root@, atomic: self.atomic, recording: self.recording }
    }
}

/// What an operation has written down for those that come after it.
pub struct Books {
    /// What reverses the operations so far, in the order in which they ran.
    pub undo: Seq<UndoView>,
    /// The paths that are still to be flushed.
    pub touched: Seq<PathView>,
}

impl Books {
    /// With one more thing to reverse.
    pub open spec fn recording(self, undo: UndoView) -> Books {
        Books { undo: self.undo.push(undo), touched: self.touched }
    }

    /// With more paths to flush.
    pub open spec fn touching(self, paths: Seq<PathView>) -> Books {
        Books { undo: self.undo, touched: path_set::with_paths(self.touched, paths) }
    }
}

/// The complete path that `op` changes.
pub open spec fn target(site: SiteView, op: OpView) -> PathView {
    path::joined(site.root, change::affected(op))
}

/// The directories whose entries `op` edits: those that hold the paths it names, as far as the
/// paths say which.
pub open spec fn edited_dirs(site: SiteView, op: OpView) -> Seq<PathView> {
    match op {
        FileOp::Rename { from, to } => dir_of(path::joined(site.root, from)) + dir_of(
            path::joined(site.root, to),
        ),
        _ => dir_of(target(site, op)),
    }
}

/// The directory that holds `path`, if the path says which.
pub open spec fn dir_of(path: PathView) -> Seq<PathView> {
    match path::parent_of(path) {
        Some(dir) => seq![dir],
        None => Seq::empty(),
    }
}

/// The request that makes the directory which holds `path`, if the path says which.
pub open spec fn making_dirs(path: PathView) -> Seq<RequestView> {
    match path::parent_of(path) {
        Some(dir) => seq![Request::CreateDirs(dir)],
        None => Seq::empty(),
    }
}

/// The requests that put a file of `bytes` at `path`. A storage that cannot replace a file in one
/// step owes a barrier while the name still leads to the bytes.
pub open spec fn replacing(site: SiteView, path: PathView, bytes: Seq<u8>) -> Seq<RequestView> {
    let replaced = making_dirs(path).push(Request::Replace(path, bytes));
    if site.atomic {
        replaced
    } else {
        replaced.push(Request::Sync(path, Durability::Ordered))
    }
}

/// The requests that change the tree as `op` says. `payload` is what a copy copies, and `touched`
/// are the paths that are still to be flushed: those that a move takes along, or takes the place of,
/// are flushed before it.
pub open spec fn changes(
    site: SiteView,
    op: OpView,
    payload: Seq<u8>,
    touched: Seq<PathView>,
) -> Seq<RequestView> {
    let full = target(site, op);
    match op {
        FileOp::Write { bytes, .. } => replacing(site, full, bytes),
        FileOp::CopyFrom { .. } => replacing(site, full, payload),
        FileOp::Rename { from, .. } => {
            let from = path::joined(site.root, from);
            (making_dirs(full) + flush::calming(touched, from, full)).push(
                Request::Rename(from, full),
            )
        },
        FileOp::Remove { .. } => seq![Request::Remove(full)],
        FileOp::SetExecutable { executable, .. } => seq![
            Request::SetExecutable(full, executable),
            Request::Sync(full, Durability::Ordered),
        ],
        FileOp::SetLink { target, .. } => making_dirs(full).push(Request::SetLink(full, target)),
    }
}

/// What a copy copies, and nothing for any other operation.
pub open spec fn payload_bytes(payload: Option<Seq<u8>>) -> Seq<u8> {
    match payload {
        Some(bytes) => bytes,
        None => Seq::empty(),
    }
}

/// The phase in which the tree is changed, with what to record once it is.
pub open spec fn landing(
    site: SiteView,
    op: OpView,
    payload: Option<Seq<u8>>,
    undo: Option<UndoView>,
    touched: Seq<PathView>,
) -> ExecPhaseView {
    ExecPhase::Landing(ScriptView::of(changes(site, op, payload_bytes(payload), touched)), undo)
}

/// The phase in which `op` begins, while `touched` are the paths that are still to be flushed.
pub open spec fn begun(site: SiteView, op: OpView, touched: Seq<PathView>) -> ExecPhaseView {
    match op {
        FileOp::CopyFrom { .. } => ExecPhase::Sourcing,
        FileOp::SetExecutable { .. } => ExecPhase::Guarding,
        _ => if site.recording {
            ExecPhase::Linking(None)
        } else {
            landing(site, op, None, None, touched)
        },
    }
}

/// What `op` asks in `phase`.
pub open spec fn requested(site: SiteView, op: OpView, phase: ExecPhaseView) -> RequestView {
    let full = target(site, op);
    match phase {
        ExecPhase::Guarding => Request::ReadLink(full),
        ExecPhase::Sourcing => match op {
            FileOp::CopyFrom { source, .. } => Request::Read(path::joined(site.root, source)),
            _ => Request::Read(full),
        },
        ExecPhase::Linking(_) => Request::ReadLink(full),
        ExecPhase::Reading(_) => Request::Read(full),
        ExecPhase::Weighing(_) => Request::Executable(full),
        ExecPhase::Probing => Request::Executable(full),
        ExecPhase::Landing(script, _) => script.current(),
    }
}

/// Whether there is something to ask in `phase`.
pub open spec fn live(phase: ExecPhaseView) -> bool {
    match phase {
        ExecPhase::Landing(script, _) => script.pending(),
        _ => true,
    }
}

/// What reverses `op`, as far as it shows in where the link at its path points: nothing inside if
/// there is nothing to reverse, nothing at all if the path has to be read.
pub open spec fn undo_by_link(
    site: SiteView,
    op: OpView,
    link: Result<Option<PathView>, FaultView>,
) -> Option<Option<UndoView>> {
    let full = target(site, op);
    match link {
        Ok(Some(to)) => Some(Some(Undo::Relink { path: full, target: to })),
        Ok(None) => if op is SetLink {
            Some(None)
        } else {
            None
        },
        Err(fault) => if fault.kind is NotFound && !(op is Remove) {
            Some(Some(Undo::Delete { path: full }))
        } else {
            None
        },
    }
}

/// What reverses `op`, as it shows in what was read at its path: nothing inside if the execute bit of
/// the file has to be asked for. A file that lands takes over the bit of the one it replaces; a file
/// that is removed, moved over or replaced by a link takes its bit with it. Nothing to read is nothing
/// to put back where a file lands, and a failure where one is removed or gives way to a link.
pub open spec fn undo_by_read(
    site: SiteView,
    op: OpView,
    read: Result<Seq<u8>, FaultView>,
) -> Result<Option<UndoView>, FaultView> {
    let full = target(site, op);
    match read {
        Ok(bytes) => if op is Write || op is CopyFrom {
            Ok(Some(Undo::Restore { path: full, bytes, bit: None }))
        } else {
            Ok(None)
        },
        Err(fault) => if fault.kind is NotFound && !(op is SetLink) && !(op is Remove) {
            Ok(Some(Undo::Delete { path: full }))
        } else {
            Err(fault)
        },
    }
}

/// What reverses `op`, under which a file of `bytes` with this execute bit gives way.
pub open spec fn undo_by_bit(
    site: SiteView,
    op: OpView,
    bytes: Seq<u8>,
    bit: Option<bool>,
) -> UndoView {
    let full = target(site, op);
    if op is SetLink {
        Undo::RestoreOverLink { path: full, bytes, bit }
    } else {
        Undo::Restore { path: full, bytes, bit }
    }
}

/// `op` once it is known what reverses it. A removal is recorded when it has happened, anything
/// else before it is tried; a move is recorded besides what it displaces.
pub open spec fn captured(
    site: SiteView,
    op: OpView,
    payload: Option<Seq<u8>>,
    undo: Option<UndoView>,
    books: Books,
) -> (ProgressView, Books) {
    let later = match op {
        FileOp::Remove { .. } => undo,
        FileOp::Rename { from, .. } => Some(
            Undo::Rename { from: target(site, op), to: path::joined(site.root, from) },
        ),
        _ => None,
    };
    let books = match undo {
        Some(u) if !(op is Remove) => books.recording(u),
        _ => books,
    };
    (Progress::Running(landing(site, op, payload, later, books.touched)), books)
}

/// The refusal of an execute bit at a path that holds a link.
pub open spec fn link_refusal(path: PathView) -> FaultView {
    Fault {
        kind: FaultKind::InvalidInput,
        message: "refusing to set the execute bit through the symbolic link at ".spec_bytes()
            + path,
    }
}

/// `op` once it has been asked where the link at its path points.
pub open spec fn linked(
    site: SiteView,
    op: OpView,
    payload: Option<Seq<u8>>,
    link: Result<Option<PathView>, FaultView>,
    books: Books,
) -> (ProgressView, Books) {
    match undo_by_link(site, op, link) {
        Some(undo) => captured(site, op, payload, undo, books),
        None => (Progress::Running(ExecPhase::Reading(payload)), books),
    }
}

/// `op` once its path has been read.
pub open spec fn read_back(
    site: SiteView,
    op: OpView,
    payload: Option<Seq<u8>>,
    read: Result<Seq<u8>, FaultView>,
    books: Books,
) -> (ProgressView, Books) {
    match undo_by_read(site, op, read) {
        Ok(Some(undo)) => captured(site, op, payload, Some(undo), books),
        Ok(None) => match read {
            Ok(bytes) => (Progress::Running(ExecPhase::Weighing(bytes)), books),
            Err(fault) => (Progress::Failed(fault), books),
        },
        Err(fault) => (Progress::Failed(fault), books),
    }
}

/// `op` once the request that `script` was at has been done.
pub open spec fn landed(
    site: SiteView,
    op: OpView,
    script: ScriptView,
    undo: Option<UndoView>,
    books: Books,
) -> (ProgressView, Books) {
    if script.advanced().pending() {
        (Progress::Running(ExecPhase::Landing(script.advanced(), undo)), books)
    } else {
        let flushed = books.touching(edited_dirs(site, op));
        match undo {
            Some(u) => (Progress::Landed, flushed.recording(u)),
            None => (Progress::Landed, flushed),
        }
    }
}

/// What `reply` makes of `op` in `phase`, and of what is written down. A reply in which nothing is
/// answered changes nothing.
pub open spec fn resumed(
    site: SiteView,
    op: OpView,
    phase: ExecPhaseView,
    reply: ReplyView,
    books: Books,
) -> (ProgressView, Books) {
    let full = target(site, op);
    match (phase, reply) {
        (ExecPhase::Guarding, Reply::Link(Some(_))) => (
            Progress::Failed(link_refusal(full)),
            books,
        ),
        (ExecPhase::Guarding, _) => if site.recording {
            (Progress::Running(ExecPhase::Probing), books)
        } else {
            (Progress::Running(landing(site, op, None, None, books.touched)), books)
        },
        (ExecPhase::Sourcing, Reply::Bytes(bytes)) => if site.recording {
            (Progress::Running(ExecPhase::Linking(Some(bytes))), books)
        } else {
            (Progress::Running(landing(site, op, Some(bytes), None, books.touched)), books)
        },
        (ExecPhase::Linking(payload), Reply::Link(link)) => linked(
            site,
            op,
            payload,
            Ok(link),
            books,
        ),
        (ExecPhase::Linking(payload), Reply::Failed(fault)) => linked(
            site,
            op,
            payload,
            Err(fault),
            books,
        ),
        (ExecPhase::Reading(payload), Reply::Bytes(bytes)) => read_back(
            site,
            op,
            payload,
            Ok(bytes),
            books,
        ),
        (ExecPhase::Reading(payload), Reply::Failed(fault)) => read_back(
            site,
            op,
            payload,
            Err(fault),
            books,
        ),
        (ExecPhase::Weighing(bytes), Reply::Executable(bit)) => captured(
            site,
            op,
            None,
            Some(undo_by_bit(site, op, bytes, bit)),
            books,
        ),
        (ExecPhase::Weighing(bytes), Reply::Failed(_)) => captured(
            site,
            op,
            None,
            Some(undo_by_bit(site, op, bytes, None)),
            books,
        ),
        (ExecPhase::Probing, Reply::Executable(Some(was))) => (
            Progress::Running(landing(site, op, None, None, books.touched)),
            books.recording(Undo::SetExecutable { path: full, executable: was }),
        ),
        (ExecPhase::Probing, Reply::Executable(None)) => (
            Progress::Running(landing(site, op, None, None, books.touched)),
            books,
        ),
        (ExecPhase::Landing(script, undo), Reply::Made(dirs)) => landed(
            site,
            op,
            script,
            undo,
            books.touching(dirs),
        ),
        (ExecPhase::Landing(script, undo), Reply::Done) => landed(site, op, script, undo, books),
        (_, Reply::Failed(fault)) => (Progress::Failed(fault), books),
        _ => (Progress::Running(phase), books),
    }
}

/// The complete path that `op` changes.
fn full_path(site: &Site, op: &FileOp) -> (full: TreePath)
    ensures
        full@ == target(site@, op@),
{
    site.root.join(op.path())
}

/// Asks for the directory which holds `path`.
fn ensure_parent(requests: &mut Vec<Request>, path: &TreePath)
    ensures
        path::views(final(requests)@) == path::views(old(requests)@) + making_dirs(path@),
{
    let ghost before = path::views(requests@);
    if let Some(dir) = path.parent_dir() {
        script::ask(requests, Request::CreateDirs(dir));
    }
    assert(path::views(requests@) =~= before + making_dirs(path@));
}

/// The requests that put a file of `bytes` at `path`.
fn replace_requests(site: &Site, path: TreePath, bytes: Vec<u8>) -> (requests: Vec<Request>)
    ensures
        path::views(requests@) == replacing(site@, path@, bytes@),
{
    let mut requests: Vec<Request> = Vec::new();
    ensure_parent(&mut requests, &path);
    assert(path::views(requests@) =~= making_dirs(path@));
    if site.atomic {
        script::ask(&mut requests, Request::Replace(path, bytes));
    } else {
        script::ask(&mut requests, Request::Replace(path.copy(), bytes));
        script::ask(&mut requests, Request::Sync(path, Durability::Ordered));
    }
    requests
}

/// The requests that change the tree as `op` says.
fn change_requests(
    site: &Site,
    op: &FileOp,
    payload: Option<Vec<u8>>,
    touched: &PathSet,
) -> (requests: Vec<Request>)
    ensures
        path::views(requests@) == changes(
            site@,
            op@,
            payload_bytes(port::view_of(payload)),
            touched@,
        ),
{
    let full = full_path(site, op);
    let mut requests: Vec<Request> = Vec::new();
    assert(path::views(requests@) + making_dirs(full@) =~= making_dirs(full@));
    match op {
        FileOp::Write { bytes, .. } => {
            requests = replace_requests(site, full, path::copied(bytes));
        },
        FileOp::CopyFrom { .. } => {
            let bytes = match payload {
                Some(bytes) => bytes,
                None => Vec::new(),
            };
            requests = replace_requests(site, full, bytes);
        },
        FileOp::Rename { from, .. } => {
            let from = site.root.join(from);
            ensure_parent(&mut requests, &full);
            flush::calm(&mut requests, touched.paths(), &from, &full);
            script::ask(&mut requests, Request::Rename(from, full));
        },
        FileOp::Remove { .. } => {
            script::ask(&mut requests, Request::Remove(full));
            assert(path::views(requests@) =~= seq![Request::Remove(full@)]);
        },
        FileOp::SetExecutable { executable, .. } => {
            script::ask(&mut requests, Request::SetExecutable(full.copy(), *executable));
            script::ask(&mut requests, Request::Sync(full, Durability::Ordered));
            assert(path::views(requests@) =~= seq![
                Request::SetExecutable(full@, *executable),
                Request::Sync(full@, Durability::Ordered),
            ]);
        },
        FileOp::SetLink { target, .. } => {
            ensure_parent(&mut requests, &full);
            script::ask(&mut requests, Request::SetLink(full, target.copy()));
        },
    }
    requests
}

/// The phase in which the tree is changed as `op` says.
fn land(
    site: &Site,
    op: &FileOp,
    payload: Option<Vec<u8>>,
    undo: Option<Undo>,
    touched: &PathSet,
) -> (phase: ExecPhase)
    ensures
        live(phase@),
        phase@ == landing(site@, op@, port::view_of(payload), port::view_of(undo), touched@),
{
    let requests = change_requests(site, op, payload, touched);
    ExecPhase::Landing(Script::new(requests), undo)
}

/// The phase in which `op` begins, while `touched` are the paths that are still to be flushed.
pub fn begin(site: &Site, op: &FileOp, touched: &PathSet) -> (phase: ExecPhase)
    ensures
        live(phase@),
        phase@ == begun(site@, op@, touched@),
{
    match op {
        FileOp::CopyFrom { .. } => ExecPhase::Sourcing,
        FileOp::SetExecutable { .. } => ExecPhase::Guarding,
        _ => if site.recording {
            ExecPhase::Linking(None)
        } else {
            land(site, op, None, None, touched)
        },
    }
}

/// What `op` asks in `phase`.
pub fn request(site: &Site, op: &FileOp, phase: &ExecPhase) -> (request: Request)
    requires
        live(phase@),
    ensures
        request@ == requested(site@, op@, phase@),
{
    match phase {
        ExecPhase::Guarding => Request::ReadLink(full_path(site, op)),
        ExecPhase::Sourcing => match op {
            FileOp::CopyFrom { source, .. } => Request::Read(site.root.join(source)),
            _ => Request::Read(full_path(site, op)),
        },
        ExecPhase::Linking(_) => Request::ReadLink(full_path(site, op)),
        ExecPhase::Reading(_) => Request::Read(full_path(site, op)),
        ExecPhase::Weighing(_) => Request::Executable(full_path(site, op)),
        ExecPhase::Probing => Request::Executable(full_path(site, op)),
        ExecPhase::Landing(script, _) => script.current(),
    }
}

/// What reverses `op`, as far as it shows in where the link at its path points.
pub fn capture_link(site: &Site, op: &FileOp, link: Result<Option<TreePath>, Fault>) -> (undo:
    Option<Option<Undo>>)
    ensures
        undo is Some == undo_by_link(site@, op@, link_view(link)) is Some,
        undo is Some ==> port::view_of(undo->0) == undo_by_link(site@, op@, link_view(link))->0,
{
    match link {
        Ok(Some(to)) => Some(Some(Undo::Relink { path: full_path(site, op), target: to })),
        Ok(None) => match op {
            FileOp::SetLink { .. } => Some(None),
            _ => None,
        },
        Err(fault) => match (fault.kind, op) {
            (FaultKind::NotFound, FileOp::Remove { .. }) => None,
            (FaultKind::NotFound, _) => Some(Some(Undo::Delete { path: full_path(site, op) })),
            _ => None,
        },
    }
}

/// What reverses `op`, as it shows in what was read at its path: nothing inside if the execute bit of
/// the file has to be asked for.
pub fn capture_read(site: &Site, op: &FileOp, read: &Result<Vec<u8>, Fault>) -> (undo: Result<
    Option<Undo>,
    Fault,
>)
    ensures
        match undo {
            Ok(u) => undo_by_read(site@, op@, read_view(*read)) == Ok::<Option<UndoView>, FaultView>(
                port::view_of(u),
            ),
            Err(f) => undo_by_read(site@, op@, read_view(*read)) == Err::<
                Option<UndoView>,
                FaultView,
            >(f@),
        },
{
    match read {
        Ok(bytes) => match op {
            FileOp::Write { .. } | FileOp::CopyFrom { .. } => Ok(
                Some(
                    Undo::Restore {
                        path: full_path(site, op),
                        bytes: path::copied(bytes),
                        bit: None,
                    },
                ),
            ),
            _ => Ok(None),
        },
        Err(fault) => match (fault.kind, op) {
            (FaultKind::NotFound, FileOp::SetLink { .. }) => Err(fault.copy()),
            (FaultKind::NotFound, FileOp::Remove { .. }) => Err(fault.copy()),
            (FaultKind::NotFound, _) => Ok(Some(Undo::Delete { path: full_path(site, op) })),
            _ => Err(fault.copy()),
        },
    }
}

/// What reverses `op`, under which a file of `bytes` with this execute bit gives way.
pub fn capture_bit(site: &Site, op: &FileOp, bytes: Vec<u8>, bit: Option<bool>) -> (undo:
    Undo)
    ensures
        undo@ == undo_by_bit(site@, op@, bytes@, bit),
{
    let path = full_path(site, op);
    match op {
        FileOp::SetLink { .. } => Undo::RestoreOverLink { path, bytes, bit },
        _ => Undo::Restore { path, bytes, bit },
    }
}

/// The view of an answer to where a link points.
pub open spec fn link_view(link: Result<Option<TreePath>, Fault>) -> Result<
    Option<PathView>,
    FaultView,
> {
    match link {
        Ok(to) => Ok(port::view_of(to)),
        Err(fault) => Err(fault@),
    }
}

/// The view of an answer to a read.
pub open spec fn read_view(read: Result<Vec<u8>, Fault>) -> Result<Seq<u8>, FaultView> {
    match read {
        Ok(bytes) => Ok(bytes@),
        Err(fault) => Err(fault@),
    }
}

/// The refusal of an execute bit at a path that holds a link.
fn refuse_link(path: TreePath) -> (fault: Fault)
    ensures
        fault@ == link_refusal(path@),
{
    let mut message = path::copied(
        "refusing to set the execute bit through the symbolic link at ".as_bytes(),
    );
    let text = path.text();
    path::append(&mut message, &text);
    Fault { kind: FaultKind::InvalidInput, message }
}

/// What is written down while operations are applied: what reverses them, in the order in which
/// they ran, and the paths that are still to be flushed.
#[derive(Debug, Clone, PartialEq, Eq)]
pub struct Ledger {
    /// What reverses the operations so far.
    pub undo: Vec<Undo>,
    /// The paths that are still to be flushed.
    pub touched: PathSet,
}

impl View for Ledger {
    type V = Books;

    open spec fn view(&self) -> Books {
        Books { undo: path::views(self.undo@), touched: self.touched@ }
    }
}

impl Ledger {
    /// Whether the paths to be flushed are listed in order.
    pub open spec fn well_formed(&self) -> bool {
        self.touched.well_formed()
    }

    fn record(&mut self, undo: Undo)
        ensures
            final(self)@ == old(self)@.recording(undo@),
            old(self).well_formed() ==> final(self).well_formed(),
    {
        proof {
            path::lemma_views_push(self.undo@, undo);
        }
        self.undo.push(undo);
    }

    fn touch_all(&mut self, paths: Vec<TreePath>)
        ensures
            final(self)@ == old(self)@.touching(path::views(paths@)),
            old(self).well_formed() ==> final(self).well_formed(),
    {
        self.touched.insert_all(paths);
    }
}

/// The directories whose entries `op` edits.
fn dirs_edited(site: &Site, op: &FileOp) -> (dirs: Vec<TreePath>)
    ensures
        path::views(dirs@) == edited_dirs(site@, op@),
{
    let mut dirs: Vec<TreePath> = Vec::new();
    assert(path::views(dirs@) =~= Seq::empty());
    if let FileOp::Rename { from, .. } = op {
        add_dir_of(&mut dirs, &site.root.join(from));
    }
    add_dir_of(&mut dirs, &full_path(site, op));
    assert(path::views(dirs@) =~= edited_dirs(site@, op@));
    dirs
}

/// Puts the directory that holds `path` behind `dirs`, if the path says which.
pub(crate) fn add_dir_of(dirs: &mut Vec<TreePath>, path: &TreePath)
    ensures
        path::views(final(dirs)@) == path::views(old(dirs)@) + dir_of(path@),
{
    let ghost before = path::views(dirs@);
    if let Some(dir) = path.parent_dir() {
        proof {
            path::lemma_views_push(dirs@, dir);
        }
        dirs.push(dir);
    }
    assert(path::views(dirs@) =~= before + dir_of(path@));
}

/// Carries `op` on once it is known what reverses it.
fn capture(
    site: &Site,
    op: &FileOp,
    payload: Option<Vec<u8>>,
    undo: Option<Undo>,
    ledger: &mut Ledger,
) -> (phase: ExecPhase)
    ensures
        live(phase@),
        (Progress::Running(phase@), final(ledger)@) == captured(
            site@,
            op@,
            port::view_of(payload),
            port::view_of(undo),
            old(ledger)@,
        ),
        old(ledger).well_formed() ==> final(ledger).well_formed(),
{
    match op {
        FileOp::Remove { .. } => land(site, op, payload, undo, &ledger.touched),
        FileOp::Rename { from, .. } => {
            if let Some(u) = undo {
                ledger.record(u);
            }
            let back = Undo::Rename { from: full_path(site, op), to: site.root.join(from) };
            land(site, op, payload, Some(back), &ledger.touched)
        },
        _ => {
            if let Some(u) = undo {
                ledger.record(u);
            }
            land(site, op, payload, None, &ledger.touched)
        },
    }
}

/// Carries `op` on with the answer to what it asked in `phase`.
pub fn resume(
    site: &Site,
    op: &FileOp,
    phase: ExecPhase,
    reply: Reply,
    ledger: &mut Ledger,
) -> (progress: Progress)
    requires
        live(phase@),
    ensures
        (progress@, final(ledger)@) == resumed(site@, op@, phase@, reply@, old(ledger)@),
        progress@ matches Progress::Running(p) ==> live(p),
        old(ledger).well_formed() ==> final(ledger).well_formed(),
{
    match (phase, reply) {
        (ExecPhase::Guarding, Reply::Link(Some(_))) => Progress::Failed(
            refuse_link(full_path(site, op)),
        ),
        (ExecPhase::Guarding, _) => if site.recording {
            Progress::Running(ExecPhase::Probing)
        } else {
            Progress::Running(land(site, op, None, None, &ledger.touched))
        },
        (ExecPhase::Sourcing, Reply::Bytes(bytes)) => if site.recording {
            Progress::Running(ExecPhase::Linking(Some(bytes)))
        } else {
            Progress::Running(land(site, op, Some(bytes), None, &ledger.touched))
        },
        (ExecPhase::Linking(payload), Reply::Link(link)) => resume_linked(
            site,
            op,
            payload,
            Ok(link),
            ledger,
        ),
        (ExecPhase::Linking(payload), Reply::Failed(fault)) => resume_linked(
            site,
            op,
            payload,
            Err(fault),
            ledger,
        ),
        (ExecPhase::Reading(payload), Reply::Bytes(bytes)) => resume_read(
            site,
            op,
            payload,
            Ok(bytes),
            ledger,
        ),
        (ExecPhase::Reading(payload), Reply::Failed(fault)) => resume_read(
            site,
            op,
            payload,
            Err(fault),
            ledger,
        ),
        (ExecPhase::Weighing(bytes), Reply::Executable(bit)) => {
            let undo = capture_bit(site, op, bytes, bit);
            Progress::Running(capture(site, op, None, Some(undo), ledger))
        },
        (ExecPhase::Weighing(bytes), Reply::Failed(_)) => {
            let undo = capture_bit(site, op, bytes, None);
            Progress::Running(capture(site, op, None, Some(undo), ledger))
        },
        (ExecPhase::Probing, Reply::Executable(Some(was))) => {
            ledger.record(Undo::SetExecutable { path: full_path(site, op), executable: was });
            Progress::Running(land(site, op, None, None, &ledger.touched))
        },
        (ExecPhase::Probing, Reply::Executable(None)) => Progress::Running(
            land(site, op, None, None, &ledger.touched),
        ),
        (ExecPhase::Landing(script, undo), Reply::Made(dirs)) => {
            ledger.touch_all(dirs);
            resume_landing(site, op, script, undo, ledger)
        },
        (ExecPhase::Landing(script, undo), Reply::Done) => resume_landing(
            site,
            op,
            script,
            undo,
            ledger,
        ),
        (_, Reply::Failed(fault)) => Progress::Failed(fault),
        (phase, _) => Progress::Running(phase),
    }
}

/// Carries `op` on with where the link at its path points.
fn resume_linked(
    site: &Site,
    op: &FileOp,
    payload: Option<Vec<u8>>,
    link: Result<Option<TreePath>, Fault>,
    ledger: &mut Ledger,
) -> (progress: Progress)
    ensures
        (progress@, final(ledger)@) == linked(
            site@,
            op@,
            port::view_of(payload),
            link_view(link),
            old(ledger)@,
        ),
        progress@ matches Progress::Running(p) ==> live(p),
        old(ledger).well_formed() ==> final(ledger).well_formed(),
{
    match capture_link(site, op, link) {
        Some(undo) => Progress::Running(capture(site, op, payload, undo, ledger)),
        None => Progress::Running(ExecPhase::Reading(payload)),
    }
}

/// Carries `op` on with what was read at its path.
fn resume_read(
    site: &Site,
    op: &FileOp,
    payload: Option<Vec<u8>>,
    read: Result<Vec<u8>, Fault>,
    ledger: &mut Ledger,
) -> (progress: Progress)
    ensures
        (progress@, final(ledger)@) == read_back(
            site@,
            op@,
            port::view_of(payload),
            read_view(read),
            old(ledger)@,
        ),
        progress@ matches Progress::Running(p) ==> live(p),
        old(ledger).well_formed() ==> final(ledger).well_formed(),
{
    match (capture_read(site, op, &read), read) {
        (Ok(Some(undo)), _) => Progress::Running(capture(site, op, payload, Some(undo), ledger)),
        (Ok(None), Ok(bytes)) => Progress::Running(ExecPhase::Weighing(bytes)),
        (Ok(None), Err(fault)) => Progress::Failed(fault),
        (Err(fault), _) => Progress::Failed(fault),
    }
}

/// Carries `op` on once one more of its requests has been done.
fn resume_landing(
    site: &Site,
    op: &FileOp,
    script: Script,
    undo: Option<Undo>,
    ledger: &mut Ledger,
) -> (progress: Progress)
    requires
        script@.pending(),
    ensures
        (progress@, final(ledger)@) == landed(
            site@,
            op@,
            script@,
            port::view_of(undo),
            old(ledger)@,
        ),
        progress@ matches Progress::Running(p) ==> live(p),
        old(ledger).well_formed() ==> final(ledger).well_formed(),
{
    let script = script.advance();
    if script.is_pending() {
        Progress::Running(ExecPhase::Landing(script, undo))
    } else {
        ledger.touch_all(dirs_edited(site, op));
        if let Some(u) = undo {
            ledger.record(u);
        }
        Progress::Landed
    }
}

} // verus!
