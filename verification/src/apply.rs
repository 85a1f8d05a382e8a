//! Applying a change set: all of it, or none of it.
//!
//! The set is judged before anything is asked, the tree is compared with what the set expects
//! before anything is changed, and the whole intent is in the journal before the first operation
//! runs. The first failure reverses everything that was applied.

use crate::change::{self, ChangeSet, ChangeSetView, Expected, FileOp, OpView};
use crate::error::{self, Error, Outcome, OutcomeView};
use crate::exec::{self, Books, ExecPhase, ExecPhaseView, Ledger, Progress, Site, SiteView};
use crate::flush;
use crate::journal::{Journal, JournalView};
use crate::path::{self, PathView, TreePath};
use crate::path_set::PathSet;
use crate::port::{self, Durability, Fault, FaultKind, FaultView, Reply, ReplyView, Request, RequestView};
use crate::script::{Script, ScriptView};
use crate::undo::Undo;
use crate::unwind::{self, Unwind, UnwindView};
use vstd::prelude::*;
use vstd::string::StringSliceAdditionalSpecFns;

verus! {

/// How far the application of a change set has come.
#[derive(Debug)]
pub enum Phase<P = TreePath, B = Vec<u8>, N = usize, S = Script, U = Unwind> {
    /// Asking whether an earlier journal is still there.
    Stale,
    /// Reading what the expectation of this number speaks of.
    ExpectBytes(N),
    /// Asking whether a link is where the expectation of this number speaks of nothing.
    ExpectNoLink(N),
    /// Asking whether anything else is there.
    ExpectNothing(N),
    /// Applying the only operation, without a journal.
    Lone(ExecPhase<P, B, S>),
    /// Flushing what the only operation changed.
    LoneFlush(S),
    /// Making the directory that holds the journal.
    Home,
    /// Flushing the directories that were made for the journal.
    HomeFlush(S),
    /// Having the operations spelled.
    Encode,
    /// Writing the journal.
    Commit(B),
    /// Taking back the journal, because writing it failed.
    Withdraw(Fault<B>, S),
    /// Applying the operation of this number.
    Op(N, ExecPhase<P, B, S>),
    /// Flushing what the operations changed.
    Certify(S),
    /// Removing the journal of a set that landed.
    Retire,
    /// Reversing what was applied, because of this failure.
    Unwind(Fault<B>, U),
    /// Making the reversal a fact, and retiring the journal.
    Abort(Fault<B>, S),
    /// There is nothing left to do.
    Finished(Result<(), Error<P, B>>),
}

/// The view of a [`Phase`].
pub type PhaseView = Phase<PathView, Seq<u8>, int, ScriptView, UnwindView>;

impl View for Phase<TreePath, Vec<u8>, usize, Script, Unwind> {
    type V = PhaseView;

    open spec fn view(&self) -> PhaseView {
        match self {
            Phase::Stale => Phase::Stale,
            Phase::ExpectBytes(i) => Phase::ExpectBytes(*i as int),
            Phase::ExpectNoLink(i) => Phase::ExpectNoLink(*i as int),
            Phase::ExpectNothing(i) => Phase::ExpectNothing(*i as int),
            Phase::Lone(phase) => Phase::Lone(phase@),
            Phase::LoneFlush(script) => Phase::LoneFlush(script@),
            Phase::Home => Phase::Home,
            Phase::HomeFlush(script) => Phase::HomeFlush(script@),
            Phase::Encode => Phase::Encode,
            Phase::Commit(bytes) => Phase::Commit(bytes@),
            Phase::Withdraw(cause, script) => Phase::Withdraw(cause@, script@),
            Phase::Op(i, phase) => Phase::Op(*i as int, phase@),
            Phase::Certify(script) => Phase::Certify(script@),
            Phase::Retire => Phase::Retire,
            Phase::Unwind(cause, unwind) => Phase::Unwind(cause@, unwind@),
            Phase::Abort(cause, script) => Phase::Abort(cause@, script@),
            Phase::Finished(outcome) => Phase::Finished(error::outcome_view(*outcome)),
        }
    }
}

/// What is to be applied, and where.
pub struct JobView {
    /// The change set.
    pub changes: ChangeSetView,
    /// Where its operations run.
    pub site: SiteView,
    /// The path of the journal.
    pub journal: PathView,
    /// The directory of the journal, if that is not the root.
    pub home: Option<PathView>,
}

/// The application of a change set as a mathematical value.
pub struct ApplyView {
    /// What is applied, and where.
    pub job: JobView,
    /// How far it has come.
    pub phase: PhaseView,
    /// What has been written down.
    pub books: Books,
}

/// Whether a set needs no journal: it is one operation, which the storage carries out in one step.
/// Replacing something by a link is no such operation.
pub open spec fn lone(ops: Seq<OpView>, atomic: bool) -> bool {
    ops.len() == 1 && atomic && !(ops[0] is SetLink)
}

impl JobView {
    /// The operations, in order.
    pub open spec fn ops(self) -> Seq<OpView> {
        self.changes.ops
    }

    /// The complete path of the expectation of number `i`.
    pub open spec fn expected_at(self, i: int) -> PathView {
        path::joined(self.site.root, self.changes.expected[i].0)
    }

    /// Where the application stands once the first `i` expectations have held.
    pub open spec fn expecting_from(self, i: int) -> PhaseView {
        if i < self.changes.expected.len() {
            match self.changes.expected[i].1 {
                Expected::Bytes(_) => Phase::ExpectBytes(i),
                Expected::Absent => Phase::ExpectNoLink(i),
            }
        } else if self.ops().len() == 0 {
            Phase::Finished(Ok(()))
        } else if lone(self.ops(), self.site.atomic) {
            Phase::Lone(exec::begun(self.site, self.ops()[0], Seq::empty()))
        } else if self.home is Some {
            Phase::Home
        } else {
            Phase::Encode
        }
    }
}

/// What there is to tell when the journal of a set that landed could not be removed.
pub open spec fn unretired(fault: FaultView) -> OutcomeView {
    Err(
        Error::Torn {
            cause: "the set applied and was certified durable, but its journal could not be retired: ".spec_bytes()
                + fault.message,
            rollback: "the surviving journal will be replayed idempotently and cleared by the next recovery".spec_bytes(),
        },
    )
}

/// What there is to tell when a failure could not be undone because of another.
pub open spec fn torn(cause: FaultView, rollback: FaultView) -> OutcomeView {
    Err(Error::Torn { cause: cause.message, rollback: rollback.message })
}

/// The end that a failure of the storage brings.
pub open spec fn failed(fault: FaultView) -> PhaseView {
    Phase::Finished(Err(Error::Io(fault)))
}

impl JobView {
    /// The end that the expectation of number `i` brings when it does not hold.
    pub open spec fn drifted(self, i: int) -> PhaseView {
        Phase::Finished(Err(Error::Drifted(self.changes.expected[i].0)))
    }

    /// The paths that the set reads or changes, in the order in which they are judged.
    pub open spec fn judged(self) -> Seq<PathView> {
        change::all_paths(self.ops()) + Seq::new(
            self.changes.expected.len(),
            |i: int| self.changes.expected[i].0,
        )
    }

    /// Where the application begins: a set that stages nothing is done, one that names a path
    /// outside the root is refused.
    pub open spec fn begun(self) -> PhaseView {
        if self.ops().len() == 0 && self.changes.expected.len() == 0 {
            Phase::Finished(Ok(()))
        } else {
            match change::guarded(self.judged()) {
                Ok(()) => Phase::Stale,
                Err(e) => Phase::Finished(Err(e)),
            }
        }
    }

    /// The requests that make what was changed survive a power cut.
    pub open spec fn certifying(self, books: Books) -> Seq<RequestView> {
        flush::flushing(books.touched, self.site.root, Durability::Durable)
    }

    /// Where the application stands once the first `i` operations have been applied.
    pub open spec fn op_from(self, i: int, books: Books) -> PhaseView {
        if i < self.ops().len() {
            Phase::Op(i, exec::begun(self.site, self.ops()[i], books.touched))
        } else if self.certifying(books).len() > 0 {
            Phase::Certify(ScriptView::of(self.certifying(books)))
        } else {
            Phase::Retire
        }
    }

    /// Where the application stands once the only operation has been applied.
    pub open spec fn lone_landed(self, books: Books) -> PhaseView {
        if self.certifying(books).len() > 0 {
            Phase::LoneFlush(ScriptView::of(self.certifying(books)))
        } else {
            Phase::Finished(Ok(()))
        }
    }

    /// Where the application stands once everything has been reversed.
    pub open spec fn aborting(self, cause: FaultView, dirs: Seq<PathView>) -> PhaseView {
        Phase::Abort(
            cause,
            ScriptView::of(unwind::retirement(dirs, self.site.root, self.journal)),
        )
    }

    /// Where the application stands once the journal could not be written.
    pub open spec fn withdrawing(self, cause: FaultView) -> PhaseView {
        Phase::Withdraw(cause, ScriptView::of(unwind::withdrawal(self.journal)))
    }

    /// Where the application stands with the answer to what taking back the journal asked. That
    /// nothing is there to remove is no failure.
    pub open spec fn withdrawn(self, cause: FaultView, script: ScriptView, reply: ReplyView) -> PhaseView {
        match reply {
            Reply::Failed(fault) if !(script.current() is Remove && fault.kind is NotFound) =>
                Phase::Finished(torn(cause, fault)),
            _ => if script.advanced().pending() {
                Phase::Withdraw(cause, script.advanced())
            } else {
                failed(cause)
            },
        }
    }

    /// Where the application stands once what is left to reverse is `left`.
    pub open spec fn unwinding(self, cause: FaultView, left: UnwindView) -> PhaseView {
        if left.undo.len() > 0 {
            Phase::Unwind(cause, left)
        } else {
            match left.error {
                Some(fault) => Phase::Finished(torn(cause, fault)),
                None => self.aborting(cause, left.dirs),
            }
        }
    }

    /// Where the application stands once the journal has a home.
    pub open spec fn homed(self, made: Seq<PathView>) -> PhaseView {
        if made.len() > 0 {
            Phase::HomeFlush(ScriptView::of(flush::syncs(made, Durability::Durable)))
        } else {
            Phase::Encode
        }
    }

    /// Where the application stands once something failed, and what is then written down: what was
    /// applied is reversed.
    pub open spec fn failing(self, cause: FaultView, books: Books) -> (PhaseView, Books) {
        (self.unwinding(cause, UnwindView::of(books.undo)), books.reversed())
    }

    /// Where the application stands with the answer to what an expectation asked.
    pub open spec fn compared(self, phase: PhaseView, reply: ReplyView) -> PhaseView {
        match (phase, reply) {
            (Phase::ExpectBytes(i), Reply::Bytes(found)) => if self.changes.expected[i].1
                == Expected::Bytes(found) {
                self.expecting_from(i + 1)
            } else {
                self.drifted(i)
            },
            (Phase::ExpectBytes(i), Reply::Failed(fault)) => if fault.kind is NotFound {
                self.drifted(i)
            } else {
                failed(fault)
            },
            (Phase::ExpectNoLink(i), Reply::Link(Some(_))) => self.drifted(i),
            (Phase::ExpectNoLink(i), Reply::Link(None)) => Phase::ExpectNothing(i),
            (Phase::ExpectNoLink(i), Reply::Failed(fault)) => if fault.kind is NotFound
                || fault.kind is InvalidInput {
                Phase::ExpectNothing(i)
            } else {
                failed(fault)
            },
            (Phase::ExpectNothing(i), Reply::Found(found)) => if found {
                self.drifted(i)
            } else {
                self.expecting_from(i + 1)
            },
            (_, Reply::Failed(fault)) => failed(fault),
            _ => phase,
        }
    }

    /// Where the application stands with the answer to what the only operation asked, and what is
    /// then written down.
    pub open spec fn lone_step(self, phase: ExecPhaseView, reply: ReplyView, books: Books) -> (
        PhaseView,
        Books,
    ) {
        let (progress, books) = exec::resumed(self.site, self.ops()[0], phase, reply, books);
        match progress {
            Progress::Running(next) => (Phase::Lone(next), books),
            Progress::Landed => (self.lone_landed(books), books),
            Progress::Failed(fault) => (failed(fault), books),
        }
    }

    /// Where the application stands with the answer to what the operation of number `i` asked, and
    /// what is then written down.
    pub open spec fn op_step(
        self,
        i: int,
        phase: ExecPhaseView,
        reply: ReplyView,
        books: Books,
    ) -> (PhaseView, Books) {
        let (progress, books) = exec::resumed(self.site, self.ops()[i], phase, reply, books);
        match progress {
            Progress::Running(next) => (Phase::Op(i, next), books),
            Progress::Landed => (self.op_from(i + 1, books), books),
            Progress::Failed(fault) => self.failing(fault, books),
        }
    }

    /// Whether what `phase` speaks of is there.
    pub open spec fn sound(self, phase: PhaseView) -> bool {
        match phase {
            Phase::ExpectBytes(i) => 0 <= i < self.changes.expected.len(),
            Phase::ExpectNoLink(i) => 0 <= i < self.changes.expected.len(),
            Phase::ExpectNothing(i) => 0 <= i < self.changes.expected.len(),
            Phase::Lone(phase) => self.ops().len() > 0 && exec::live(phase),
            Phase::LoneFlush(script) => script.pending(),
            Phase::Home => self.home is Some,
            Phase::HomeFlush(script) => script.pending(),
            Phase::Withdraw(_, script) => script.pending(),
            Phase::Op(i, phase) => 0 <= i < self.ops().len() && exec::live(phase),
            Phase::Certify(script) => script.pending(),
            Phase::Unwind(_, unwind) => unwind.pending(),
            Phase::Abort(_, script) => script.pending(),
            _ => true,
        }
    }
}

impl Books {
    /// With nothing left to reverse.
    pub open spec fn reversed(self) -> Books {
        Books { undo: Seq::empty(), touched: self.touched }
    }
}

impl ApplyView {
    /// The application of `job`, of which nothing has been done.
    pub open spec fn of(job: JobView) -> ApplyView {
        ApplyView {
            job,
            phase: job.begun(),
            books: Books { undo: Seq::empty(), touched: Seq::empty() },
        }
    }

    /// The same application in another phase.
    pub open spec fn at(self, phase: PhaseView) -> ApplyView {
        ApplyView { job: self.job, phase, books: self.books }
    }

    /// The same application in another phase, with something else written down.
    pub open spec fn moved(self, to: (PhaseView, Books)) -> ApplyView {
        ApplyView { job: self.job, phase: to.0, books: to.1 }
    }

    /// What is asked of the storage next, if anything.
    pub open spec fn asked(self) -> Option<RequestView> {
        match self.phase {
            Phase::Stale => Some(Request::Exists(self.job.journal)),
            Phase::ExpectBytes(i) => Some(Request::Read(self.job.expected_at(i))),
            Phase::ExpectNoLink(i) => Some(Request::ReadLink(self.job.expected_at(i))),
            Phase::ExpectNothing(i) => Some(Request::Exists(self.job.expected_at(i))),
            Phase::Lone(phase) => Some(exec::requested(self.job.site, self.job.ops()[0], phase)),
            Phase::LoneFlush(script) => Some(script.current()),
            Phase::Home => match self.job.home {
                Some(home) => Some(Request::CreateDirs(home)),
                None => None,
            },
            Phase::HomeFlush(script) => Some(script.current()),
            Phase::Encode => Some(Request::Encode),
            Phase::Commit(bytes) => Some(Request::WriteAtomic(self.job.journal, bytes)),
            Phase::Withdraw(_, script) => Some(script.current()),
            Phase::Op(i, phase) => Some(exec::requested(self.job.site, self.job.ops()[i], phase)),
            Phase::Certify(script) => Some(script.current()),
            Phase::Retire => Some(Request::Remove(self.job.journal)),
            Phase::Unwind(_, unwind) => Some(unwind.current()),
            Phase::Abort(_, script) => Some(script.current()),
            Phase::Finished(_) => None,
        }
    }

    /// What the application ended in, if it did.
    pub open spec fn ended(self) -> Option<OutcomeView> {
        match self.phase {
            Phase::Finished(outcome) => Some(outcome),
            _ => None,
        }
    }

    /// The application with a reply that answers what was asked.
    pub open spec fn stepped(self, reply: ReplyView) -> ApplyView {
        let job = self.job;
        match (self.phase, reply) {
            (Phase::Stale, Reply::Found(found)) => if found {
                self.at(Phase::Finished(Err(Error::StaleJournal(job.journal))))
            } else {
                self.at(job.expecting_from(0))
            },
            (Phase::ExpectBytes(_), _) => self.at(job.compared(self.phase, reply)),
            (Phase::ExpectNoLink(_), _) => self.at(job.compared(self.phase, reply)),
            (Phase::ExpectNothing(_), _) => self.at(job.compared(self.phase, reply)),
            (Phase::Lone(phase), _) => self.moved(job.lone_step(phase, reply, self.books)),
            (Phase::LoneFlush(script), Reply::Done) => if script.advanced().pending() {
                self.at(Phase::LoneFlush(script.advanced()))
            } else {
                self.at(Phase::Finished(Ok(())))
            },
            (Phase::Home, Reply::Made(made)) => self.at(job.homed(made)),
            (Phase::HomeFlush(script), Reply::Done) => if script.advanced().pending() {
                self.at(Phase::HomeFlush(script.advanced()))
            } else {
                self.at(Phase::Encode)
            },
            (Phase::Encode, Reply::Bytes(bytes)) => self.at(Phase::Commit(bytes)),
            (Phase::Commit(_), Reply::Done) => self.at(job.op_from(0, self.books)),
            (Phase::Commit(_), Reply::Failed(fault)) => self.at(job.withdrawing(fault)),
            (Phase::Withdraw(cause, script), _) => self.at(job.withdrawn(cause, script, reply)),
            (Phase::Op(i, phase), _) => self.moved(job.op_step(i, phase, reply, self.books)),
            (Phase::Certify(script), Reply::Done) => if script.advanced().pending() {
                self.at(Phase::Certify(script.advanced()))
            } else {
                self.at(Phase::Retire)
            },
            (Phase::Certify(_), Reply::Failed(fault)) => self.moved(job.failing(fault, self.books)),
            (Phase::Retire, Reply::Done) => self.at(Phase::Finished(Ok(()))),
            (Phase::Retire, Reply::Failed(fault)) => self.at(Phase::Finished(unretired(fault))),
            (Phase::Unwind(cause, unwind), _) => self.at(
                job.unwinding(cause, unwind.resumed(reply)),
            ),
            (Phase::Abort(cause, script), Reply::Done) => if script.advanced().pending() {
                self.at(Phase::Abort(cause, script.advanced()))
            } else {
                self.at(failed(cause))
            },
            (Phase::Abort(cause, _), Reply::Failed(fault)) => self.at(
                Phase::Finished(torn(cause, fault)),
            ),
            (_, Reply::Failed(fault)) => self.at(failed(fault)),
            _ => self,
        }
    }

    /// The application with a reply. One that does not answer what was asked changes nothing.
    pub open spec fn resumed(self, reply: ReplyView) -> ApplyView {
        match self.asked() {
            Some(request) if port::answers(request, reply) => self.stepped(reply),
            _ => self,
        }
    }
}

/// What is to be applied, and where.
#[derive(Debug)]
struct Job<'a> {
    changes: &'a ChangeSet,
    site: Site,
    journal: TreePath,
    home: Option<TreePath>,
}

impl<'a> View for Job<'a> {
    type V = JobView;

    closed spec fn view(&self) -> JobView {
        JobView {
            changes: self.changes@,
            site: self.site@,
            journal: self.journal@,
            home: port::view_of(self.home),
        }
    }
}

impl<'a> Job<'a> {
    /// Refuses the first path of the set that leaves the root.
    fn judge(&self) -> (outcome: Outcome)
        ensures
            error::outcome_view(outcome) == change::guarded(self@.judged()),
    {
        let expected = self.changes.expected();
        let ghost ops = change::all_paths(self@.ops());
        let ghost paths = Seq::new(
            self@.changes.expected.len(),
            |i: int| self@.changes.expected[i].0,
        );
        assert(self@.judged() == ops + paths);
        proof {
            change::lemma_first_outside_of_sum(ops, paths);
        }
        change::guard_ops(self.changes.ops())?;
        let mut i: usize = 0;
        assert(paths.skip(0) =~= paths);
        while i < expected.len()
            invariant
                i <= expected.len(),
                path::views(expected@) == self@.changes.expected,
                paths == Seq::new(
                    self@.changes.expected.len(),
                    |i: int| self@.changes.expected[i].0,
                ),
                change::first_outside(self@.judged()) == change::first_outside(
                    paths.skip(i as int),
                ),
            decreases expected.len() - i,
        {
            assert(path::views(expected@)[i as int] == expected@[i as int]@);
            assert(paths.skip(i as int)[0] == expected@[i as int].0@);
            assert(paths.skip(i as int).skip(1) =~= paths.skip(i as int + 1));
            proof {
                reveal_with_fuel(change::first_outside, 2);
                assert(seq![expected@[i as int].0@].skip(1) =~= Seq::<PathView>::empty());
            }
            change::guard_in_root(&expected[i].0)?;
            i += 1;
        }
        Ok(())
    }

    /// Where the application begins.
    fn begin(&self) -> (phase: Phase)
        ensures
            phase@ == self@.begun(),
    {
        if self.changes.is_empty() {
            return Phase::Finished(Ok(()));
        }
        match self.judge() {
            Ok(()) => Phase::Stale,
            Err(e) => Phase::Finished(Err(e)),
        }
    }

    /// Where the application stands once the first `i` expectations have held.
    fn expecting_from(&self, i: usize) -> (phase: Phase)
        ensures
            phase@ == self@.expecting_from(i as int),
            self@.sound(phase@),
    {
        let expected = self.changes.expected();
        let ops = self.changes.ops();
        if i < expected.len() {
            assert(path::views(expected@)[i as int] == expected@[i as int]@);
            match &expected[i].1 {
                Expected::Bytes(_) => Phase::ExpectBytes(i),
                Expected::Absent => Phase::ExpectNoLink(i),
            }
        } else if ops.len() == 0 {
            Phase::Finished(Ok(()))
        } else {
            assert(path::views(ops@)[0] == ops@[0]@);
            if is_lone(ops, self.site.atomic) {
                Phase::Lone(exec::begin(&self.site, &ops[0], &PathSet::new()))
            } else if self.home.is_some() {
                Phase::Home
            } else {
                Phase::Encode
            }
        }
    }

    /// The end that the expectation of number `i` brings when it does not hold.
    fn drifted(&self, i: usize) -> (phase: Phase)
        requires
            i < self@.changes.expected.len(),
        ensures
            phase@ == self@.drifted(i as int),
    {
        let expected = self.changes.expected();
        assert(path::views(expected@)[i as int] == expected@[i as int]@);
        Phase::Finished(Err(Error::Drifted(expected[i].0.copy())))
    }

    /// The complete path of the expectation of number `i`.
    fn expected_at(&self, i: usize) -> (path: TreePath)
        requires
            i < self@.changes.expected.len(),
        ensures
            path@ == self@.expected_at(i as int),
    {
        let expected = self.changes.expected();
        assert(path::views(expected@)[i as int] == expected@[i as int]@);
        self.site.root.join(&expected[i].0)
    }

    /// The requests that make what was changed survive a power cut.
    fn certify(&self, ledger: &Ledger) -> (requests: Vec<Request>)
        ensures
            path::views(requests@) == self@.certifying(ledger@),
    {
        flush::flush_all(ledger.touched.paths(), &self.site.root, Durability::Durable)
    }

    /// Where the application stands once the first `i` operations have been applied.
    fn op_from(&self, i: usize, ledger: &Ledger) -> (phase: Phase)
        ensures
            phase@ == self@.op_from(i as int, ledger@),
            self@.sound(phase@),
    {
        let ops = self.changes.ops();
        if i < ops.len() {
            assert(path::views(ops@)[i as int] == ops@[i as int]@);
            Phase::Op(i, exec::begin(&self.site, &ops[i], &ledger.touched))
        } else {
            let script = Script::new(self.certify(ledger));
            if script.is_pending() {
                Phase::Certify(script)
            } else {
                Phase::Retire
            }
        }
    }

    /// Where the application stands once the only operation has been applied.
    fn lone_landed(&self, ledger: &Ledger) -> (phase: Phase)
        ensures
            phase@ == self@.lone_landed(ledger@),
            self@.sound(phase@),
    {
        let script = Script::new(self.certify(ledger));
        if script.is_pending() {
            Phase::LoneFlush(script)
        } else {
            Phase::Finished(Ok(()))
        }
    }

    /// Where the application stands once what is left to reverse is `left`.
    fn unwinding(&self, cause: Fault, left: Unwind) -> (phase: Phase)
        requires
            left@.undo.len() > 0 ==> left@.pending(),
        ensures
            phase@ == self@.unwinding(cause@, left@),
            self@.sound(phase@),
    {
        if left.is_pending() {
            Phase::Unwind(cause, left)
        } else {
            match left.finish(&self.site.root, &self.journal) {
                Ok(requests) => Phase::Abort(cause, Script::new(requests)),
                Err(fault) => Phase::Finished(Err(tear(cause, fault))),
            }
        }
    }

    /// Where the application stands once the journal has a home.
    fn homed(&self, made: Vec<TreePath>) -> (phase: Phase)
        ensures
            phase@ == self@.homed(path::views(made@)),
            self@.sound(phase@),
    {
        if made.len() > 0 {
            let mut requests: Vec<Request> = Vec::new();
            flush::sync_each(&mut requests, &made, Durability::Durable);
            assert(path::views(requests@) =~= flush::syncs(
                path::views(made@),
                Durability::Durable,
            ));
            Phase::HomeFlush(Script::new(requests))
        } else {
            Phase::Encode
        }
    }
}

/// Whether a set needs no journal.
fn is_lone(ops: &[FileOp], atomic: bool) -> (is: bool)
    ensures
        is == lone(path::views(ops@), atomic),
{
    if ops.len() == 1 && atomic {
        assert(path::views(ops@)[0] == ops@[0]@);
        match &ops[0] {
            FileOp::SetLink { .. } => false,
            _ => true,
        }
    } else {
        false
    }
}

/// What there is to tell when a failure could not be undone because of another.
fn tear(cause: Fault, rollback: Fault) -> (e: Error)
    ensures
        Err::<(), Error<PathView, Seq<u8>>>(e@) == torn(cause@, rollback@),
{
    Error::Torn { cause: cause.message, rollback: rollback.message }
}

/// What there is to tell when the journal of a set that landed could not be removed.
fn keep_journal(fault: Fault) -> (e: Error)
    ensures
        Err::<(), Error<PathView, Seq<u8>>>(e@) == unretired(fault@),
{
    let mut cause = path::copied(
        "the set applied and was certified durable, but its journal could not be retired: ".as_bytes(),
    );
    path::append(&mut cause, &fault.message);
    let rollback = path::copied(
        "the surviving journal will be replayed idempotently and cleared by the next recovery".as_bytes(),
    );
    Error::Torn { cause, rollback }
}

/// The application of a change set, on its way. It asks one thing of the storage at a time, and is
/// carried on with the answer.
#[derive(Debug)]
pub struct Apply<'a> {
    job: Job<'a>,
    phase: Phase,
    ledger: Ledger,
}

impl<'a> View for Apply<'a> {
    type V = ApplyView;

    closed spec fn view(&self) -> ApplyView {
        ApplyView { job: self.job@, phase: self.phase@, books: self.ledger@ }
    }
}

impl<'a> Apply<'a> {
    #[verifier::type_invariant]
    spec fn valid(&self) -> bool {
        self.job@.sound(self.phase@)
    }

    /// What is asked of the storage next. Nothing is once the application has ended.
    pub fn request(&self) -> (request: Option<Request>)
        ensures
            port::view_of(request) == self@.asked(),
    {
        proof {
            use_type_invariant(self);
        }
        let job = &self.job;
        let ops = job.changes.ops();
        match &self.phase {
            Phase::Stale => Some(Request::Exists(job.journal.copy())),
            Phase::ExpectBytes(i) => Some(Request::Read(job.expected_at(*i))),
            Phase::ExpectNoLink(i) => Some(Request::ReadLink(job.expected_at(*i))),
            Phase::ExpectNothing(i) => Some(Request::Exists(job.expected_at(*i))),
            Phase::Lone(phase) => {
                assert(path::views(ops@)[0] == ops@[0]@);
                Some(exec::request(&job.site, &ops[0], phase))
            },
            Phase::LoneFlush(script) => Some(script.current()),
            Phase::Home => match &job.home {
                Some(home) => Some(Request::CreateDirs(home.copy())),
                None => None,
            },
            Phase::HomeFlush(script) => Some(script.current()),
            Phase::Encode => Some(Request::Encode),
            Phase::Commit(bytes) => Some(
                Request::WriteAtomic(job.journal.copy(), path::copied(bytes)),
            ),
            Phase::Withdraw(_, script) => Some(script.current()),
            Phase::Op(i, phase) => {
                assert(path::views(ops@)[*i as int] == ops@[*i as int]@);
                Some(exec::request(&job.site, &ops[*i], phase))
            },
            Phase::Certify(script) => Some(script.current()),
            Phase::Retire => Some(Request::Remove(job.journal.copy())),
            Phase::Unwind(_, unwind) => Some(unwind.request()),
            Phase::Abort(_, script) => Some(script.current()),
            Phase::Finished(_) => None,
        }
    }

    /// What the application ended in, if it did.
    pub fn outcome(&self) -> (outcome: Option<&Outcome>)
        ensures
            match outcome {
                Some(o) => self@.ended() == Some(error::outcome_view(*o)),
                None => self@.ended() is None,
            },
    {
        match &self.phase {
            Phase::Finished(outcome) => Some(outcome),
            _ => None,
        }
    }

    /// Carries the application on with the answer to what it asked. A reply that does not answer
    /// that changes nothing.
    pub fn resume(self, reply: Reply) -> (apply: Apply<'a>)
        ensures
            apply@ == self@.resumed(reply@),
    {
        proof {
            use_type_invariant(&self);
        }
        match self.request() {
            None => self,
            Some(request) => if request.is_answered_by(&reply) {
                self.step(reply)
            } else {
                self
            },
        }
    }

    /// Carries the application on with a reply that answers what it asked.
    fn step(self, reply: Reply) -> (apply: Apply<'a>)
        requires
            self@.asked() matches Some(request) && port::answers(request, reply@),
        ensures
            apply@ == self@.stepped(reply@),
    {
        proof {
            use_type_invariant(&self);
        }
        let Apply { job, phase, mut ledger } = self;
        let phase = match (phase, reply) {
            (Phase::Stale, Reply::Found(found)) => if found {
                Phase::Finished(Err(Error::StaleJournal(job.journal.copy())))
            } else {
                job.expecting_from(0)
            },
            (Phase::Lone(phase), reply) => step_lone(&job, phase, reply, &mut ledger),
            (Phase::LoneFlush(script), Reply::Done) => {
                let script = script.advance();
                if script.is_pending() {
                    Phase::LoneFlush(script)
                } else {
                    Phase::Finished(Ok(()))
                }
            },
            (Phase::Home, Reply::Made(made)) => job.homed(made),
            (Phase::HomeFlush(script), Reply::Done) => {
                let script = script.advance();
                if script.is_pending() {
                    Phase::HomeFlush(script)
                } else {
                    Phase::Encode
                }
            },
            (Phase::Encode, Reply::Bytes(bytes)) => Phase::Commit(bytes),
            (Phase::Commit(_), Reply::Done) => job.op_from(0, &ledger),
            (Phase::Commit(_), Reply::Failed(fault)) => {
                let requests = unwind::withdraw(&job.journal);
                Phase::Withdraw(fault, Script::new(requests))
            },
            (Phase::Withdraw(cause, script), reply) => step_withdraw(&job, cause, script, reply),
            (Phase::Op(i, phase), reply) => step_op(&job, i, phase, reply, &mut ledger),
            (Phase::Certify(script), Reply::Done) => {
                let script = script.advance();
                if script.is_pending() {
                    Phase::Certify(script)
                } else {
                    Phase::Retire
                }
            },
            (Phase::Certify(_), Reply::Failed(fault)) => fail(&job, fault, &mut ledger),
            (Phase::Retire, Reply::Done) => Phase::Finished(Ok(())),
            (Phase::Retire, Reply::Failed(fault)) => Phase::Finished(Err(keep_journal(fault))),
            (Phase::Unwind(cause, unwind), reply) => job.unwinding(cause, unwind.resume(reply)),
            (Phase::Abort(cause, script), Reply::Done) => {
                let script = script.advance();
                if script.is_pending() {
                    Phase::Abort(cause, script)
                } else {
                    Phase::Finished(Err(Error::Io(cause)))
                }
            },
            (Phase::Abort(cause, _), Reply::Failed(fault)) => Phase::Finished(
                Err(tear(cause, fault)),
            ),
            (phase, reply) => check_expected(&job, phase, reply),
        };
        assert(job@.sound(phase@));
        Apply { job, phase, ledger }
    }
}

/// Carries the comparison with the tree on, and ends the application at any other failure.
fn check_expected(job: &Job<'_>, phase: Phase, reply: Reply) -> (next: Phase)
    requires
        job@.sound(phase@),
    ensures
        next@ == job@.compared(phase@, reply@),
        job@.sound(next@),
{
    let expected = job.changes.expected();
    match (phase, reply) {
        (Phase::ExpectBytes(i), Reply::Bytes(found)) => {
            assert(path::views(expected@)[i as int] == expected@[i as int]@);
            match &expected[i].1 {
                Expected::Bytes(bytes) => if path::same_bytes(bytes, &found) {
                    job.expecting_from(i + 1)
                } else {
                    job.drifted(i)
                },
                Expected::Absent => job.drifted(i),
            }
        },
        (Phase::ExpectBytes(i), Reply::Failed(fault)) => match fault.kind {
            FaultKind::NotFound => job.drifted(i),
            _ => Phase::Finished(Err(Error::Io(fault))),
        },
        (Phase::ExpectNoLink(i), Reply::Link(Some(_))) => job.drifted(i),
        (Phase::ExpectNoLink(i), Reply::Link(None)) => Phase::ExpectNothing(i),
        (Phase::ExpectNoLink(i), Reply::Failed(fault)) => match fault.kind {
            FaultKind::NotFound => Phase::ExpectNothing(i),
            FaultKind::InvalidInput => Phase::ExpectNothing(i),
            _ => Phase::Finished(Err(Error::Io(fault))),
        },
        (Phase::ExpectNothing(i), Reply::Found(found)) => if found {
            job.drifted(i)
        } else {
            job.expecting_from(i + 1)
        },
        (_, Reply::Failed(fault)) => Phase::Finished(Err(Error::Io(fault))),
        (phase, _) => phase,
    }
}

/// Carries on taking back the journal.
fn step_withdraw(job: &Job<'_>, cause: Fault, script: Script, reply: Reply) -> (next: Phase)
    requires
        script@.pending(),
    ensures
        next@ == job@.withdrawn(cause@, script@, reply@),
        job@.sound(next@),
{
    if let Reply::Failed(fault) = reply {
        match (script.current(), fault.kind) {
            (Request::Remove(_), FaultKind::NotFound) => {},
            _ => {
                return Phase::Finished(Err(tear(cause, fault)));
            },
        }
    }
    let script = script.advance();
    if script.is_pending() {
        Phase::Withdraw(cause, script)
    } else {
        Phase::Finished(Err(Error::Io(cause)))
    }
}

/// Carries the only operation on.
fn step_lone(job: &Job<'_>, phase: ExecPhase, reply: Reply, ledger: &mut Ledger) -> (next: Phase)
    requires
        job@.ops().len() > 0,
        exec::live(phase@),
    ensures
        (next@, final(ledger)@) == job@.lone_step(phase@, reply@, old(ledger)@),
        job@.sound(next@),
{
    let ops = job.changes.ops();
    assert(path::views(ops@)[0] == ops@[0]@);
    match exec::resume(&job.site, &ops[0], phase, reply, ledger) {
        Progress::Running(next) => Phase::Lone(next),
        Progress::Landed => job.lone_landed(ledger),
        Progress::Failed(fault) => Phase::Finished(Err(Error::Io(fault))),
    }
}

/// Carries the operation of number `i` on.
fn step_op(job: &Job<'_>, i: usize, phase: ExecPhase, reply: Reply, ledger: &mut Ledger) -> (next:
    Phase)
    requires
        i < job@.ops().len(),
        exec::live(phase@),
    ensures
        (next@, final(ledger)@) == job@.op_step(i as int, phase@, reply@, old(ledger)@),
        job@.sound(next@),
{
    let ops = job.changes.ops();
    assert(path::views(ops@)[i as int] == ops@[i as int]@);
    match exec::resume(&job.site, &ops[i], phase, reply, ledger) {
        Progress::Running(next) => Phase::Op(i, next),
        Progress::Landed => job.op_from(i + 1, ledger),
        Progress::Failed(fault) => fail(job, fault, ledger),
    }
}

/// Turns to reversing what was applied.
fn fail(job: &Job<'_>, cause: Fault, ledger: &mut Ledger) -> (next: Phase)
    ensures
        (next@, final(ledger)@) == job@.failing(cause@, old(ledger)@),
        job@.sound(next@),
{
    let mut undo: Vec<Undo> = Vec::new();
    assert(path::views(undo@) =~= Seq::empty());
    std::mem::swap(&mut undo, &mut ledger.undo);
    job.unwinding(cause, Unwind::new(undo))
}

/// The application of `changes` to the tree at `root`, behind the journal `journal`.
pub open spec fn job_of(
    changes: ChangeSetView,
    journal: JournalView,
    root: PathView,
    atomic: bool,
) -> JobView {
    JobView {
        changes,
        site: Site { root, atomic, recording: !lone(changes.ops, atomic) },
        journal: journal.place(root),
        home: journal.home,
    }
}

/// A set takes no journal, and records nothing to reverse, exactly if it is one operation that is not
/// a link, on a storage that replaces files in one step. It is applied at the root that was given,
/// behind the journal that was given.
pub proof fn law_job_is_what_was_asked_for(
    changes: ChangeSetView,
    journal: JournalView,
    root: PathView,
    atomic: bool,
)
    ensures
        ({
            let job = job_of(changes, journal, root, atomic);
            let single = changes.ops.len() == 1 && atomic && !(changes.ops[0] is SetLink);
            &&& lone(changes.ops, atomic) <==> single
            &&& job.site.recording <==> !single
            &&& job.changes == changes
            &&& job.site.root == root
            &&& job.site.atomic == atomic
            &&& job.journal == journal.place(root)
            &&& job.home == journal.home
        }),
{
}

impl Journal<TreePath> {
    /// Begins to apply `changes` to the tree at `root`, behind this journal. `atomic` says whether
    /// the storage replaces a file in one step.
    pub fn apply<'a>(&self, changes: &'a ChangeSet, root: &TreePath, atomic: bool) -> (apply: Apply<
        'a,
    >)
        ensures
            apply@ == ApplyView::of(job_of(changes@, self@, root@, atomic)),
    {
        let recording = !is_lone(changes.ops(), atomic);
        let home = match &self.home {
            Some(home) => Some(home.copy()),
            None => None,
        };
        let job = Job {
            changes,
            site: Site { root: root.copy(), atomic, recording },
            journal: self.path_in(root),
            home,
        };
        let phase = job.begin();
        let ledger = Ledger { undo: Vec::new(), touched: PathSet::new() };
        assert(ledger@.undo =~= Seq::empty());
        Apply { job, phase, ledger }
    }
}

impl ChangeSet {
    /// Begins to apply this set to the tree at `root`, behind the journal that was given no other
    /// name.
    pub fn apply(&self, root: &TreePath, atomic: bool) -> (apply: Apply<'_>)
        ensures
            apply@ == ApplyView::of(job_of(self@, JournalView::standard(), root@, atomic)),
    {
        Journal::default().apply(self, root, atomic)
    }
}

} // verus!
