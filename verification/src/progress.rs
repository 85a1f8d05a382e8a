//! Every answer brings an application nearer to its end, so that one that is answered comes to an
//! end.

use crate::apply::{self, ApplyView, JobView, Phase, PhaseView};
use crate::atomicity::Run;
use crate::change::{FileOp, OpView};
use crate::exec::{self, Books, ExecPhase, ExecPhaseView, Progress};
use crate::flush;
use crate::ordered::{BatchApplyView, BatchPhase, BatchView};
use crate::path::{self, PathView};
use crate::port::{self, Durability, FaultView, Reply, ReplyView, Request, RequestView};
use crate::script::ScriptView;
use crate::tiers;
use crate::tree::Store;
use crate::unwind::{self, UnwindView};
use vstd::prelude::*;

verus! {

/// How far from its end something is: by rounds, then by items of the round, then by steps of the
/// item.
pub struct Distance {
    /// The rounds that are left.
    pub rounds: int,
    /// The items that are left of the round.
    pub items: int,
    /// The steps that are left of the item.
    pub steps: int,
}

impl Distance {
    /// Whether this is nearer than `other`.
    pub open spec fn nearer(self, other: Distance) -> bool {
        &&& 0 <= self.rounds && 0 <= self.items && 0 <= self.steps
        &&& self.rounds < other.rounds || (self.rounds == other.rounds && (self.items < other.items
            || (self.items == other.items && self.steps < other.steps)))
    }
}

/// The most requests that an operation may still make while so many paths are to be flushed, and at
/// least one more than once it lands.
pub open spec fn exec_steps(phase: ExecPhaseView, touched: int) -> int {
    match phase {
        ExecPhase::Guarding => touched + 7,
        ExecPhase::Sourcing => touched + 7,
        ExecPhase::Linking(_) => touched + 6,
        ExecPhase::Reading(_) => touched + 5,
        ExecPhase::Probing => touched + 4,
        ExecPhase::Weighing(_) => touched + 4,
        ExecPhase::Landing(script, _) => script.requests.len() - script.at,
    }
}

/// Whether `request` is one to do something, and not one to say something.
pub open spec fn is_deed(request: RequestView) -> bool {
    match request {
        Request::Exists(_) | Request::Read(_) | Request::ReadLink(_) => false,
        Request::Executable(_) | Request::Encode => false,
        _ => true,
    }
}

/// Whether `script` asks for deeds only, and for no write that could be caught half done where it
/// need not be.
pub open spec fn deeds(script: ScriptView) -> bool {
    forall|i: int|
        0 <= i < script.requests.len() ==> is_deed(#[trigger] script.requests[i]) && !(
        script.requests[i] is Write)
}

/// Whether `script` asks for deeds only, and for no directory and no write.
pub open spec fn plain_deeds(script: ScriptView) -> bool {
    forall|i: int|
        0 <= i < script.requests.len() ==> is_deed(#[trigger] script.requests[i]) && !(
        script.requests[i] is CreateDirs) && !(script.requests[i] is Write)
}

/// Whether what is to be asked one after the other in this state are deeds.
pub open spec fn in_order(state: ApplyView) -> bool {
    &&& state.job.sound(state.phase)
    &&& match state.phase {
        Phase::Lone(ExecPhase::Landing(script, _)) => deeds(script),
        Phase::Op(_, ExecPhase::Landing(script, _)) => deeds(script),
        Phase::LoneFlush(script) => plain_deeds(script),
        Phase::HomeFlush(script) => plain_deeds(script),
        Phase::Certify(script) => plain_deeds(script),
        Phase::Withdraw(_, script) => plain_deeds(script),
        Phase::Abort(_, script) => plain_deeds(script),
        _ => true,
    }
}

/// How far the application of a change set is from its end.
pub open spec fn distance(state: ApplyView) -> Distance {
    let job = state.job;
    let expected = job.changes.expected.len();
    let touched = state.books.touched.len() as int;
    match state.phase {
        Phase::Stale => Distance { rounds: 10, items: 0, steps: 0 },
        Phase::ExpectBytes(i) => Distance { rounds: 9, items: expected - i, steps: 0 },
        Phase::ExpectNoLink(i) => Distance { rounds: 9, items: expected - i, steps: 1 },
        Phase::ExpectNothing(i) => Distance { rounds: 9, items: expected - i, steps: 0 },
        Phase::Home => Distance { rounds: 8, items: 0, steps: 0 },
        Phase::HomeFlush(script) => Distance {
            rounds: 7,
            items: 0,
            steps: script.requests.len() - script.at,
        },
        Phase::Encode => Distance { rounds: 6, items: 0, steps: 0 },
        Phase::Commit(_) => Distance { rounds: 5, items: 0, steps: 0 },
        Phase::Withdraw(_, script) => Distance {
            rounds: 4,
            items: 0,
            steps: script.requests.len() - script.at,
        },
        Phase::Lone(phase) => Distance { rounds: 4, items: 0, steps: exec_steps(phase, touched) },
        Phase::Op(i, phase) => Distance {
            rounds: 4,
            items: job.ops().len() - i,
            steps: exec_steps(phase, touched),
        },
        Phase::LoneFlush(script) => Distance {
            rounds: 3,
            items: 1,
            steps: script.requests.len() - script.at,
        },
        Phase::Certify(script) => Distance {
            rounds: 3,
            items: 1,
            steps: script.requests.len() - script.at,
        },
        Phase::Retire => Distance { rounds: 3, items: 0, steps: 0 },
        Phase::Unwind(_, left) => Distance {
            rounds: 2,
            items: left.undo.len() as int,
            steps: unwind::reversal(left.undo.last(), left.dirs).len() - left.at,
        },
        Phase::Abort(_, script) => Distance {
            rounds: 1,
            items: 0,
            steps: script.requests.len() - script.at,
        },
        Phase::Finished(_) => Distance { rounds: 0, items: 0, steps: 0 },
    }
}

/// Whether the application, with `reply`, is in order and nearer to its end.
spec fn leads_on(state: ApplyView, reply: ReplyView) -> bool {
    &&& in_order(state.resumed(reply))
    &&& distance(state.resumed(reply)).nearer(distance(state))
}

/// An answer brings the application of a change set nearer to its end.
pub proof fn law_answers_lead_to_an_end(state: ApplyView, reply: ReplyView)
    requires
        in_order(state),
        state.asked() matches Some(request) && port::answers(request, reply),
    ensures
        in_order(ApplyView::of(state.job)),
        in_order(state.resumed(reply)),
        distance(state.resumed(reply)).nearer(distance(state)),
{
    match state.phase {
        Phase::Lone(phase) => lemma_lone_leads_on(state, phase, reply),
        Phase::Op(i, phase) => lemma_op_leads_on(state, i, phase, reply),
        Phase::Certify(script) => lemma_certifying_leads_on(state, script, reply),
        Phase::Unwind(cause, left) => lemma_reversal_leads_on(state, cause, left, reply),
        Phase::HomeFlush(_) | Phase::LoneFlush(_) => lemma_flush_leads_on(state, reply),
        Phase::Withdraw(_, _) | Phase::Abort(_, _) => lemma_flush_leads_on(state, reply),
        _ => lemma_question_leads_on(state, reply),
    }
}

/// An answer to a question, or to a single request, brings the end nearer.
proof fn lemma_question_leads_on(state: ApplyView, reply: ReplyView)
    requires
        in_order(state),
        state.asked() matches Some(request) && port::answers(request, reply),
        match state.phase {
            Phase::Stale | Phase::ExpectBytes(_) | Phase::ExpectNoLink(_) => true,
            Phase::ExpectNothing(_) | Phase::Home | Phase::Encode => true,
            Phase::Commit(_) | Phase::Retire | Phase::Finished(_) => true,
            _ => false,
        },
    ensures
        leads_on(state, reply),
{
    let job = state.job;
    match state.phase {
        Phase::Stale => lemma_expecting(state, 0),
        Phase::ExpectBytes(i) => lemma_expecting(state, i + 1),
        Phase::ExpectNothing(i) => lemma_expecting(state, i + 1),
        Phase::Commit(_) => {
            if job.ops().len() > 0 {
                lemma_exec_begins(job, job.ops()[0], state.books.touched);
            }
        },
        _ => {},
    }
}

/// An answer to one of many flushes, or to one of the requests that take the journal back, brings
/// the end nearer.
proof fn lemma_flush_leads_on(state: ApplyView, reply: ReplyView)
    requires
        in_order(state),
        state.asked() matches Some(request) && port::answers(request, reply),
        match state.phase {
            Phase::HomeFlush(_) | Phase::LoneFlush(_) => true,
            Phase::Withdraw(_, _) | Phase::Abort(_, _) => true,
            _ => false,
        },
    ensures
        leads_on(state, reply),
{
    match state.phase {
        Phase::HomeFlush(script) => {
            assert(is_deed(script.requests[script.at]));
        },
        Phase::LoneFlush(script) => {
            assert(is_deed(script.requests[script.at]));
        },
        Phase::Withdraw(_, script) => {
            assert(is_deed(script.requests[script.at]));
        },
        Phase::Abort(_, script) => {
            assert(is_deed(script.requests[script.at]));
        },
        _ => {},
    }
}

/// What was applied is reversed in order.
proof fn lemma_unwinding(state: ApplyView, cause: FaultView, left: UnwindView)
    requires
        left.undo.len() > 0 ==> left.at == 0,
    ensures
        in_order(state.at(state.job.unwinding(cause, left))),
        ({
            let end = distance(state.at(state.job.unwinding(cause, left)));
            &&& 0 <= end.rounds && 0 <= end.items && 0 <= end.steps
            &&& left.undo.len() > 0 ==> end.rounds == 2 && end.items == left.undo.len()
            &&& left.undo.len() == 0 ==> end.rounds < 2
        }),
{
}

/// The reversal of what was applied begins in order, and nearer to the end than what failed.
proof fn lemma_failing(state: ApplyView, cause: FaultView, books: Books)
    ensures
        in_order(state.moved(state.job.failing(cause, books))),
        ({
            let end = distance(state.moved(state.job.failing(cause, books)));
            0 <= end.rounds <= 2 && 0 <= end.items && 0 <= end.steps
        }),
{
    lemma_unwinding(state, cause, UnwindView::of(books.undo));
}

/// An answer to what the only operation asked brings the end nearer.
proof fn lemma_lone_leads_on(state: ApplyView, phase: ExecPhaseView, reply: ReplyView)
    requires
        in_order(state),
        state.phase == PhaseView::Lone(phase),
        state.asked() matches Some(request) && port::answers(request, reply),
    ensures
        leads_on(state, reply),
{
    lemma_exec(state.job, state.job.ops()[0], phase, reply, state);
}

/// An answer to what an operation asked brings the end nearer.
proof fn lemma_op_leads_on(state: ApplyView, i: int, phase: ExecPhaseView, reply: ReplyView)
    requires
        in_order(state),
        state.phase == PhaseView::Op(i, phase),
        state.asked() matches Some(request) && port::answers(request, reply),
    ensures
        leads_on(state, reply),
{
    let job = state.job;
    let op = job.ops()[i];
    let (progress, noted) = exec::resumed(job.site, op, phase, reply, state.books);
    lemma_exec(job, op, phase, reply, state);
    match progress {
        Progress::Running(_) => {},
        Progress::Landed => {
            if i + 1 < job.ops().len() {
                lemma_exec_begins(job, job.ops()[i + 1], noted.touched);
            }
        },
        Progress::Failed(fault) => lemma_failing(state, fault, noted),
    }
}

/// An answer to one of the flushes of what the operations changed brings the end nearer.
proof fn lemma_certifying_leads_on(state: ApplyView, script: ScriptView, reply: ReplyView)
    requires
        in_order(state),
        state.phase == PhaseView::Certify(script),
        state.asked() matches Some(request) && port::answers(request, reply),
    ensures
        leads_on(state, reply),
{
    assert(is_deed(script.requests[script.at]));
    if let Reply::Failed(fault) = reply {
        lemma_failing(state, fault, state.books);
    }
}

/// An answer to what a reversal asked brings the end nearer.
proof fn lemma_reversal_leads_on(
    state: ApplyView,
    cause: FaultView,
    left: UnwindView,
    reply: ReplyView,
)
    requires
        in_order(state),
        state.phase == PhaseView::Unwind(cause, left),
        state.asked() matches Some(request) && port::answers(request, reply),
    ensures
        leads_on(state, reply),
{
    let rest = left.resumed(reply);
    if rest.undo.len() < left.undo.len() {
        lemma_unwinding(state, cause, rest);
    }
}

/// A document is never written as it comes but to put back what it held: it lands by being replaced.
pub proof fn law_documents_land_by_replacement(state: ApplyView)
    requires
        in_order(state),
    ensures
        state.asked() matches Some(Request::Write(_, _)) ==> state.phase is Unwind,
{
    match state.phase {
        Phase::Lone(ExecPhase::Landing(script, _)) => {
            assert(!(script.requests[script.at] is Write));
        },
        Phase::Op(_, ExecPhase::Landing(script, _)) => {
            assert(!(script.requests[script.at] is Write));
        },
        Phase::HomeFlush(script) => {
            assert(!(script.requests[script.at] is Write));
        },
        Phase::LoneFlush(script) => {
            assert(!(script.requests[script.at] is Write));
        },
        Phase::Certify(script) => {
            assert(!(script.requests[script.at] is Write));
        },
        Phase::Withdraw(_, script) => {
            assert(!(script.requests[script.at] is Write));
        },
        Phase::Abort(_, script) => {
            assert(!(script.requests[script.at] is Write));
        },
        _ => {},
    }
}

/// Once some expectations have held, what follows is in order.
proof fn lemma_expecting(state: ApplyView, i: int)
    requires
        i >= 0,
    ensures
        in_order(state.at(state.job.expecting_from(i))),
{
    if state.job.ops().len() > 0 {
        lemma_exec_begins(state.job, state.job.ops()[0], Seq::empty());
    }
}

/// A move flushes no more than there is to flush.
proof fn lemma_moving(paths: Seq<PathView>, from: PathView, to: PathView)
    ensures
        flush::moving(paths, from, to).len() <= paths.len(),
    decreases paths.len(),
{
    if paths.len() > 0 {
        lemma_moving(paths.drop_last(), from, to);
    }
}

/// An operation asks for deeds, three at most besides what a move flushes.
proof fn lemma_changes(job: JobView, op: OpView, payload: Seq<u8>, touched: Seq<PathView>)
    ensures
        1 <= exec::changes(job.site, op, payload, touched).len() <= touched.len() + 3,
        deeds(ScriptView::of(exec::changes(job.site, op, payload, touched))),
{
    let requests = exec::changes(job.site, op, payload, touched);
    if let FileOp::Rename { from, .. } = op {
        lemma_moving(touched, path::joined(job.site.root, from), exec::target(job.site, op));
    }
    assert forall|i: int| 0 <= i < requests.len() implies is_deed(#[trigger] requests[i]) && !(
    requests[i] is Write) by {}
}

/// An operation begins in order.
proof fn lemma_exec_begins(job: JobView, op: OpView, touched: Seq<PathView>)
    ensures
        exec::live(exec::begun(job.site, op, touched)),
        exec_steps(exec::begun(job.site, op, touched), touched.len() as int) >= 0,
        exec::begun(job.site, op, touched) matches ExecPhase::Landing(script, _) ==> deeds(script),
{
    lemma_changes(job, op, exec::payload_bytes(None), touched);
}

/// An answer brings an operation nearer to its end.
proof fn lemma_exec(
    job: JobView,
    op: OpView,
    phase: ExecPhaseView,
    reply: ReplyView,
    state: ApplyView,
)
    requires
        exec::live(phase),
        phase matches ExecPhase::Landing(script, _) ==> deeds(script),
        port::answers(exec::requested(job.site, op, phase), reply),
    ensures
        ({
            let (progress, noted) = exec::resumed(job.site, op, phase, reply, state.books);
            progress matches Progress::Running(next) ==> {
                &&& 0 <= exec_steps(next, noted.touched.len() as int) < exec_steps(
                    phase,
                    state.books.touched.len() as int,
                )
                &&& exec::live(next)
                &&& next matches ExecPhase::Landing(script, _) ==> deeds(script)
            }
        }),
{
    let touched = state.books.touched;
    match phase {
        ExecPhase::Landing(script, _) => {
            assert(is_deed(script.requests[script.at]));
        },
        ExecPhase::Linking(payload) => lemma_changes(
            job,
            op,
            exec::payload_bytes(payload),
            touched,
        ),
        ExecPhase::Reading(payload) => lemma_changes(
            job,
            op,
            exec::payload_bytes(payload),
            touched,
        ),
        ExecPhase::Sourcing => {
            if let Reply::Bytes(bytes) = reply {
                lemma_changes(job, op, exec::payload_bytes(Some(bytes)), touched);
            }
        },
        _ => lemma_changes(job, op, exec::payload_bytes(None), touched),
    }
}

/// How far the application of a batch is from its end.
pub open spec fn batch_distance(state: BatchApplyView) -> Distance {
    let tiers = state.job.tiers;
    match state.phase {
        BatchPhase::Making(t, i) => Distance {
            rounds: 2 * (tiers.len() - t),
            items: tiers[t].len() - i,
            steps: 1,
        },
        BatchPhase::Landing(t, i) => Distance {
            rounds: 2 * (tiers.len() - t),
            items: tiers[t].len() - i,
            steps: 0,
        },
        BatchPhase::Flushing(t, script) => Distance {
            rounds: 2 * (tiers.len() - t) - 1,
            items: 0,
            steps: script.requests.len() - script.at,
        },
        BatchPhase::Finished(_) => Distance { rounds: 0, items: 0, steps: 0 },
    }
}

/// Whether what is to be asked one after the other in this state are deeds.
pub open spec fn batch_in_order(state: BatchApplyView) -> bool {
    &&& state.job.sound(state.phase)
    &&& forall|t: int|
        0 <= t < state.job.tiers.len() ==> (#[trigger] state.job.tiers[t]).len() > 0
    &&& state.phase matches BatchPhase::Flushing(_, script) ==> plain_deeds(script)
}

/// The application of a batch begins in order.
pub proof fn law_batch_begins_in_order(
    tiers: BatchView,
    root: PathView,
    atomic: bool,
    finality: Durability,
)
    ensures
        batch_in_order(BatchApplyView::of(tiers, root, atomic, finality)),
{
    tiers::lemma_filled(tiers);
    let state = BatchApplyView::of(tiers, root, atomic, finality);
    if state.job.tiers.len() > 0 {
        assert(state.job.tiers[0].len() > 0);
    }
}

/// An answer brings the application of a batch nearer to its end.
pub proof fn law_answers_lead_a_batch_to_an_end(state: BatchApplyView, reply: ReplyView)
    requires
        batch_in_order(state),
        state.asked() matches Some(request) && port::answers(request, reply),
    ensures
        batch_in_order(state.resumed(reply)),
        batch_distance(state.resumed(reply)).nearer(batch_distance(state)),
{
    let tiers = state.job.tiers;
    match state.phase {
        BatchPhase::Flushing(t, script) => {
            assert(is_deed(script.requests[script.at]));
            if t + 1 < tiers.len() {
                assert(tiers[t + 1].len() > 0);
            }
        },
        BatchPhase::Landing(t, _) => {
            if t + 1 < tiers.len() {
                assert(tiers[t + 1].len() > 0);
            }
        },
        _ => {},
    }
}

/// A set that stages nothing is applied without asking anything.
pub proof fn law_empty_set_asks_nothing(job: JobView)
    requires
        job.ops().len() == 0,
        job.changes.expected.len() == 0,
    ensures
        ApplyView::of(job).asked() is None,
        ApplyView::of(job).ended() matches Some(Ok(())),
{
}

/// A single operation that the storage carries out in one step takes no journal: nothing is asked
/// of the journal but whether an earlier one is there, and only what the operation itself needs
/// besides.
pub proof fn law_lone_operation_takes_no_journal(store: Store, job: JobView, run: Run, i: int)
    requires
        apply::lone(job.ops(), job.site.atomic),
        run.of(store, job),
        0 <= i < run.states.len(),
    ensures
        unjournaled(run.states[i]),
        run.states[i].job == job,
    decreases i,
{
    if i > 0 {
        law_lone_operation_takes_no_journal(store, job, run, i - 1);
        assert(run.steps(store, i - 1));
    }
}

/// Whether the application has not come to where a journal is written, nor to where one is needed.
pub open spec fn unjournaled(state: ApplyView) -> bool {
    match state.phase {
        Phase::Home | Phase::HomeFlush(_) | Phase::Encode | Phase::Commit(_) => false,
        Phase::Withdraw(_, _) => false,
        Phase::Op(_, _) | Phase::Certify(_) | Phase::Retire => false,
        Phase::Unwind(_, _) | Phase::Abort(_, _) => false,
        _ => true,
    }
}

} // verus!
