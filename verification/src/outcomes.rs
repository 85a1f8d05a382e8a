//! What an application ends in, and why: every outcome is told apart by what the storage answered,
//! whatever that was.

use crate::apply::{self, ApplyView, JobView, Phase, PhaseView};
use crate::change::{self, Expected, ExpectedView, FileOp, OpView};
use crate::error::Error;
use crate::exec::{self, Books, ExecPhase, ExecPhaseView, Progress, SiteView};
use crate::path::{self, PathView};
use crate::port::{self, Fault, FaultKind, FaultView, Reply, ReplyView, Request, RequestView};
use crate::progress;
use vstd::prelude::*;
use vstd::string::StringSliceAdditionalSpecFns;

verus! {

/// The application of a change set from its beginning: the states it was in, and what was answered
/// from each to the next. Nothing is said of whether the answers are true.
pub struct Talk {
    /// The states.
    pub states: Seq<ApplyView>,
    /// What was answered.
    pub replies: Seq<ReplyView>,
}

impl Talk {
    /// Whether something was asked in state `i`, the answer is one to that, and the next state is
    /// what it makes of this one.
    pub open spec fn steps(self, i: int) -> bool {
        &&& self.states[i].asked() matches Some(request) && port::answers(request, self.replies[i])
        &&& self.states[i + 1] == self.states[i].resumed(self.replies[i])
    }

    /// Whether this is an application of `job`, as far as it has come.
    pub open spec fn of(self, job: JobView) -> bool {
        &&& self.states.len() == self.replies.len() + 1
        &&& self.states[0] == ApplyView::of(job)
        &&& forall|i: int| 0 <= i < self.replies.len() ==> #[trigger] self.steps(i)
    }

    /// Whether `request` was asked in state `j`, before state `i`, and answered by `reply`.
    pub open spec fn hears(self, i: int, j: int, request: RequestView, reply: ReplyView) -> bool {
        &&& 0 <= j < i
        &&& self.states[j].asked() == Some(request)
        &&& self.replies[j] == reply
    }

    /// Whether, before state `i`, `request` was answered by `reply`.
    pub open spec fn heard(self, i: int, request: RequestView, reply: ReplyView) -> bool {
        exists|j: int| #[trigger] self.hears(i, j, request, reply)
    }

    /// Whether, before state `i`, it was asked where the link at `path` points, and none was found.
    pub open spec fn heard_no_link(self, i: int, path: PathView) -> bool {
        exists|reply: ReplyView| #[trigger]
            self.heard(i, Request::ReadLink(path), reply) && !(reply matches Reply::Link(Some(_)))
    }

    /// Whether, before state `i`, the storage confirmed what is expected of `path`.
    pub open spec fn confirmed(self, i: int, path: PathView, want: ExpectedView) -> bool {
        match want {
            Expected::Bytes(bytes) => self.heard(i, Request::Read(path), Reply::Bytes(bytes)),
            Expected::Absent => self.heard_no_link(i, path) && self.heard(
                i,
                Request::Exists(path),
                Reply::Found(false),
            ),
        }
    }

    /// Whether the storage confirmed the first `n` expectations of `job` before state `i`.
    pub open spec fn confirmed_first(self, i: int, job: JobView, n: int) -> bool {
        forall|k: int|
            0 <= k < n ==> self.confirmed(
                i,
                path::joined(job.site.root, (#[trigger] job.changes.expected[k]).0),
                job.changes.expected[k].1,
            )
    }
}

/// Whether `reply` to `request` contradicts what is expected of `path`.
pub open spec fn contradicts(
    path: PathView,
    want: ExpectedView,
    request: RequestView,
    reply: ReplyView,
) -> bool {
    match want {
        Expected::Bytes(bytes) => request == RequestView::Read(path) && match reply {
            Reply::Bytes(found) => found != bytes,
            Reply::Failed(fault) => fault.kind is NotFound,
            _ => false,
        },
        Expected::Absent => {
            ||| request == RequestView::ReadLink(path) && reply matches Reply::Link(Some(_))
            ||| request == RequestView::Exists(path) && reply == ReplyView::Found(true)
        },
    }
}

/// Whether every path that `op` reads or changes stays inside the root.
pub open spec fn op_inside(op: OpView) -> bool {
    match op {
        FileOp::Write { path, .. } => path::stays_inside(path),
        FileOp::Rename { from, to } => path::stays_inside(from) && path::stays_inside(to),
        FileOp::Remove { path } => path::stays_inside(path),
        FileOp::CopyFrom { path, source } => path::stays_inside(path) && path::stays_inside(source),
        FileOp::SetExecutable { path, .. } => path::stays_inside(path),
        FileOp::SetLink { path, .. } => path::stays_inside(path),
    }
}

/// Whether every path that `job` reads or changes stays inside the root.
pub open spec fn contained(job: JobView) -> bool {
    &&& forall|i: int| 0 <= i < job.changes.ops.len() ==> op_inside(#[trigger] job.changes.ops[i])
    &&& forall|i: int|
        0 <= i < job.changes.expected.len() ==> path::stays_inside(
            (#[trigger] job.changes.expected[i]).0,
        )
}

/// Whether `job` stages anything.
pub open spec fn stages(job: JobView) -> bool {
    job.changes.ops.len() > 0 || job.changes.expected.len() > 0
}

/// The first of some paths that leaves the root is one of them, and there is one if one does.
proof fn lemma_outside(paths: Seq<PathView>)
    ensures
        change::first_outside(paths) is None <==> forall|i: int|
            0 <= i < paths.len() ==> path::stays_inside(#[trigger] paths[i]),
    decreases paths.len(),
{
    if paths.len() > 0 {
        let rest = paths.skip(1);
        lemma_outside(rest);
        assert forall|i: int| 0 < i < paths.len() implies paths[i] == #[trigger] rest[i - 1] by {}
        if change::first_outside(paths) is None {
            assert forall|i: int| 0 <= i < paths.len() implies path::stays_inside(
                #[trigger] paths[i],
            ) by {
                if i > 0 {
                    assert(paths[i] == rest[i - 1]);
                }
            }
        } else if path::stays_inside(paths[0]) {
            let k = choose|i: int| 0 <= i < rest.len() && !path::stays_inside(#[trigger] rest[i]);
            assert(!path::stays_inside(paths[k + 1]));
        }
    }
}

/// None of the paths of some operations leaves the root exactly if none of any of them does.
proof fn lemma_ops_outside(ops: Seq<OpView>)
    ensures
        change::first_outside(change::all_paths(ops)) is None <==> forall|i: int|
            0 <= i < ops.len() ==> op_inside(#[trigger] ops[i]),
    decreases ops.len(),
{
    if ops.len() > 0 {
        let rest = ops.skip(1);
        let here = change::paths_of(ops[0]);
        lemma_ops_outside(rest);
        change::lemma_first_outside_of_sum(here, change::all_paths(rest));
        lemma_outside(here);
        assert(change::first_outside(here) is None <==> op_inside(ops[0])) by {
            if here.len() == 2 {
                assert(path::stays_inside(here[0]) && path::stays_inside(here[1]) <==> op_inside(
                    ops[0],
                ));
            } else {
                assert(path::stays_inside(here[0]) <==> op_inside(ops[0]));
            }
        }
        assert forall|i: int| 0 < i < ops.len() implies ops[i] == #[trigger] rest[i - 1] by {}
        if forall|i: int| 0 <= i < ops.len() ==> op_inside(#[trigger] ops[i]) {
            assert forall|i: int| 0 <= i < rest.len() implies op_inside(#[trigger] rest[i]) by {
                assert(op_inside(ops[i + 1]));
            }
        }
        if op_inside(ops[0]) && forall|i: int| 0 <= i < rest.len() ==> op_inside(
            #[trigger] rest[i],
        ) {
            assert forall|i: int| 0 <= i < ops.len() implies op_inside(#[trigger] ops[i]) by {
                if i > 0 {
                    assert(op_inside(rest[i - 1]));
                }
            }
        }
    }
}

/// Operations are let through exactly if no path that one of them reads or changes leaves the root.
pub proof fn law_operations_are_judged(ops: Seq<OpView>)
    ensures
        change::guarded(change::all_paths(ops)) is Ok <==> forall|i: int|
            0 <= i < ops.len() ==> op_inside(#[trigger] ops[i]),
        change::guarded(change::all_paths(ops)) matches Err(e) ==> (e matches Error::Escape(path)
            && !path::stays_inside(path)),
{
    lemma_ops_outside(ops);
    change::law_guard_is_exact(change::all_paths(ops));
}

/// A set is refused for a path exactly if some path that it reads or changes leaves the root: of every
/// operation both paths where it names two, but for the target of a link, and of every expectation.
/// The path that is named leaves the root. Anything else that stages something begins by asking
/// whether there is a journal.
pub proof fn law_every_path_is_judged(job: JobView)
    requires
        stages(job),
    ensures
        ApplyView::of(job).ended() is Some <==> !contained(job),
        match ApplyView::of(job).ended() {
            Some(Err(Error::Escape(path))) => !path::stays_inside(path),
            Some(_) => false,
            None => ApplyView::of(job).asked() == Some(RequestView::Exists(job.journal)),
        },
{
    let ops = change::all_paths(job.ops());
    let rest = Seq::new(job.changes.expected.len(), |i: int| job.changes.expected[i].0);
    lemma_ops_outside(job.ops());
    change::lemma_first_outside_of_sum(ops, rest);
    lemma_outside(rest);
    assert(job.judged() == ops + rest);
    change::law_guard_is_exact(job.judged());
    if forall|i: int| 0 <= i < rest.len() ==> path::stays_inside(#[trigger] rest[i]) {
        assert forall|i: int| 0 <= i < job.changes.expected.len() implies path::stays_inside(
            (#[trigger] job.changes.expected[i]).0,
        ) by {
            assert(path::stays_inside(rest[i]));
        }
    }
    if contained(job) {
        assert forall|i: int| 0 <= i < rest.len() implies path::stays_inside(
            #[trigger] rest[i],
        ) by {
            assert(path::stays_inside(job.changes.expected[i].0));
        }
    }
}

/// What was heard before some state was heard before any later one.
proof fn lemma_heard_later(talk: Talk, i: int, n: int, request: RequestView, reply: ReplyView)
    requires
        talk.heard(i, request, reply),
        i <= n,
    ensures
        talk.heard(n, request, reply),
{
    let j = choose|j: int| #[trigger] talk.hears(i, j, request, reply);
    assert(talk.hears(n, j, request, reply));
}

/// What was confirmed before some state was confirmed before any later one.
proof fn lemma_confirmed_later(talk: Talk, i: int, m: int, job: JobView, n: int)
    requires
        talk.confirmed_first(i, job, n),
        i <= m,
    ensures
        talk.confirmed_first(m, job, n),
{
    assert forall|k: int| 0 <= k < n implies talk.confirmed(
        m,
        path::joined(job.site.root, (#[trigger] job.changes.expected[k]).0),
        job.changes.expected[k].1,
    ) by {
        let path = path::joined(job.site.root, job.changes.expected[k].0);
        let want = job.changes.expected[k].1;
        assert(talk.confirmed(i, path, want));
        match want {
            Expected::Bytes(bytes) => lemma_heard_later(
                talk,
                i,
                m,
                Request::Read(path),
                Reply::Bytes(bytes),
            ),
            Expected::Absent => {
                lemma_heard_later(talk, i, m, Request::Exists(path), Reply::Found(false));
                lemma_no_link_later(talk, i, m, path);
            },
        }
    }
}

/// That no link was found before some state was found before any later one.
proof fn lemma_no_link_later(talk: Talk, i: int, m: int, path: PathView)
    requires
        talk.heard_no_link(i, path),
        i <= m,
    ensures
        talk.heard_no_link(m, path),
{
    let reply = choose|reply: ReplyView| #[trigger]
        talk.heard(i, Request::ReadLink(path), reply) && !(reply matches Reply::Link(Some(_)));
    lemma_heard_later(talk, i, m, Request::ReadLink(path), reply);
}

/// Whether the last thing that was heard before state `i` contradicts an expectation of `path`, and
/// those before it were confirmed.
pub open spec fn drifted_by(talk: Talk, job: JobView, i: int, path: PathView, n: int) -> bool {
    &&& i > 0
    &&& 0 <= n < job.changes.expected.len()
    &&& path == job.changes.expected[n].0
    &&& talk.confirmed_first(i, job, n)
    &&& talk.states[i - 1].asked() matches Some(request) && contradicts(
        path::joined(job.site.root, path),
        job.changes.expected[n].1,
        request,
        talk.replies[i - 1],
    )
}

/// Whether an expectation of `path` was contradicted.
pub open spec fn drifts(talk: Talk, job: JobView, i: int, path: PathView) -> bool {
    exists|n: int| #[trigger] drifted_by(talk, job, i, path, n)
}

/// What is known of the journal and of the expectations in state `i`.
spec fn compared(talk: Talk, job: JobView, i: int) -> bool {
    let n = job.changes.expected.len() as int;
    let fresh = talk.heard(i, Request::Exists(job.journal), Reply::Found(false));
    &&& talk.states[i].job == job
    &&& match talk.states[i].phase {
        Phase::Stale => i == 0 && stages(job),
        Phase::ExpectBytes(k) => {
            &&& fresh
            &&& 0 <= k < n
            &&& job.changes.expected[k].1 is Bytes
            &&& talk.confirmed_first(i, job, k)
        },
        Phase::ExpectNoLink(k) => {
            &&& fresh
            &&& 0 <= k < n
            &&& job.changes.expected[k].1 is Absent
            &&& talk.confirmed_first(i, job, k)
        },
        Phase::ExpectNothing(k) => {
            &&& fresh
            &&& 0 <= k < n
            &&& job.changes.expected[k].1 is Absent
            &&& talk.confirmed_first(i, job, k)
            &&& talk.heard_no_link(i, job.expected_at(k))
        },
        Phase::Finished(Err(Error::Escape(_))) => i == 0 && stages(job),
        Phase::Finished(Err(Error::StaleJournal(path))) => {
            &&& i == 1
            &&& path == job.journal
            &&& talk.hears(i, 0, Request::Exists(job.journal), Reply::Found(true))
        },
        Phase::Finished(Err(Error::Drifted(path))) => fresh && drifts(talk, job, i, path),
        Phase::Finished(Err(Error::Io(_))) => fresh || (i == 1 && talk.replies[0] is Failed),
        Phase::Finished(Ok(())) => stages(job) ==> fresh && talk.confirmed_first(i, job, n),
        _ => stages(job) && fresh && talk.confirmed_first(i, job, n),
    }
}

/// What is known of the journal and of the expectations after one more answer.
proof fn lemma_compared(talk: Talk, job: JobView, i: int)
    requires
        talk.of(job),
        0 <= i < talk.replies.len(),
        compared(talk, job, i),
    ensures
        compared(talk, job, i + 1),
{
    assert(talk.steps(i));
    let state = talk.states[i];
    let reply = talk.replies[i];
    let asked = state.asked()->0;
    let n = job.changes.expected.len() as int;
    assert(talk.hears(i + 1, i, asked, reply));
    assert(talk.heard(i + 1, asked, reply));
    let journal = RequestView::Exists(job.journal);
    if talk.heard(i, journal, Reply::Found(false)) {
        lemma_heard_later(talk, i, i + 1, journal, Reply::Found(false));
    }
    match state.phase {
        Phase::Stale => {
            assert(talk.confirmed_first(i + 1, job, 0));
            if let Reply::Found(found) = reply {
                if found {
                    assert(talk.hears(i + 1, 0, journal, Reply::Found(true)));
                } else {
                    assert(talk.heard(i + 1, journal, Reply::Found(false)));
                    assert(talk.states[i + 1].phase == job.expecting_from(0));
                }
            }
        },
        Phase::ExpectBytes(k) => {
            lemma_confirmed_later(talk, i, i + 1, job, k);
            lemma_one_more(talk, job, i, k);
            if contradicts(job.expected_at(k), job.changes.expected[k].1, asked, reply) {
                assert(drifted_by(talk, job, i + 1, job.changes.expected[k].0, k));
            }
        },
        Phase::ExpectNoLink(k) => {
            lemma_confirmed_later(talk, i, i + 1, job, k);
            if reply matches Reply::Link(Some(_)) {
                assert(drifted_by(talk, job, i + 1, job.changes.expected[k].0, k));
            } else {
                assert(talk.heard_no_link(i + 1, job.expected_at(k)));
            }
        },
        Phase::ExpectNothing(k) => {
            lemma_confirmed_later(talk, i, i + 1, job, k);
            lemma_no_link_later(talk, i, i + 1, job.expected_at(k));
            lemma_one_more(talk, job, i, k);
            if contradicts(job.expected_at(k), job.changes.expected[k].1, asked, reply) {
                assert(drifted_by(talk, job, i + 1, job.changes.expected[k].0, k));
            }
        },
        Phase::Finished(_) => {},
        _ => {
            lemma_confirmed_later(talk, i, i + 1, job, n);
        },
    }
}

/// One more expectation is confirmed by the answer that confirms it.
proof fn lemma_one_more(talk: Talk, job: JobView, i: int, k: int)
    requires
        0 <= k < job.changes.expected.len(),
        talk.confirmed_first(i + 1, job, k),
    ensures
        talk.confirmed(i + 1, job.expected_at(k), job.changes.expected[k].1)
            ==> talk.confirmed_first(i + 1, job, k + 1),
{
}

/// What is known of the journal and of the expectations in every state.
proof fn lemma_compared_throughout(talk: Talk, job: JobView, i: int)
    requires
        talk.of(job),
        0 <= i < talk.states.len(),
    ensures
        compared(talk, job, i),
    decreases i,
{
    if i > 0 {
        lemma_compared_throughout(talk, job, i - 1);
        lemma_compared(talk, job, i - 1);
    } else if stages(job) {
        law_every_path_is_judged(job);
    }
}

/// An earlier journal is not run over. A set that stages something, and none of whose paths leaves
/// the root, first asks whether there is anything where its journal belongs. If there is, it is
/// refused for that, and asks nothing more. It is refused for that only if there is, and neither
/// goes on nor ends well unless it was told that there is not.
pub proof fn law_stale_journal_is_refused(job: JobView, talk: Talk)
    requires
        talk.of(job),
        stages(job),
        contained(job),
    ensures
        talk.states[0].asked() == Some(RequestView::Exists(job.journal)),
        talk.replies.len() > 0 && talk.replies[0] == ReplyView::Found(true) ==> {
            &&& talk.replies.len() == 1
            &&& talk.states.last().asked() is None
            &&& talk.states.last().ended() matches Some(Err(Error::StaleJournal(path))) && path
                == job.journal
        },
        talk.states.last().ended() matches Some(Err(Error::StaleJournal(path))) ==> {
            &&& path == job.journal
            &&& talk.replies.len() == 1
            &&& talk.replies[0] == ReplyView::Found(true)
        },
        talk.replies.len() > 1 || (talk.states.last().ended() matches Some(Ok(()))) ==> {
            &&& talk.replies.len() > 0
            &&& talk.replies[0] == ReplyView::Found(false)
        },
{
    let n = talk.states.len() - 1;
    law_every_path_is_judged(job);
    lemma_compared_throughout(talk, job, n);
    if talk.replies.len() > 0 {
        assert(talk.steps(0));
        lemma_compared_throughout(talk, job, 1);
        if talk.replies.len() > 1 {
            assert(talk.steps(1));
        }
    }
}

/// A set is refused as drifted only if an answer contradicted an expectation, the first that was
/// contradicted, and by that answer: other bytes or none where bytes are expected, and a link or
/// anything else where nothing is. The path is named as it was given.
pub proof fn law_drift_is_what_was_answered(job: JobView, talk: Talk)
    requires
        talk.of(job),
    ensures
        talk.states.last().ended() matches Some(Err(Error::Drifted(path))) ==> exists|n: int|
            #[trigger] drifted_by(talk, job, talk.states.len() - 1, path, n),
{
    lemma_compared_throughout(talk, job, talk.states.len() - 1);
}

/// Whether nothing but questions has been asked.
pub open spec fn only_asks(state: ApplyView) -> bool {
    match state.asked() {
        Some(Request::Exists(_)) | Some(Request::Read(_)) | Some(Request::ReadLink(_)) => true,
        _ => false,
    }
}

/// A set asks for nothing but answers, and does not end well, before the storage has confirmed every
/// one of its expectations.
pub proof fn law_expectations_are_confirmed(job: JobView, talk: Talk, i: int)
    requires
        talk.of(job),
        0 <= i < talk.states.len(),
    ensures
        (talk.states[i].asked() is Some && !only_asks(talk.states[i])) || (
        talk.states[i].ended() matches Some(Ok(()))) ==> talk.confirmed_first(
            i,
            job,
            job.changes.expected.len() as int,
        ),
{
    lemma_compared_throughout(talk, job, i);
}

/// An answer that contradicts an expectation when that is asked about ends the application as
/// drifted, and one that does not contradict it does not.
pub proof fn law_contradiction_is_refused(job: JobView, talk: Talk, i: int, n: int)
    requires
        talk.of(job),
        0 <= i < talk.replies.len(),
        talk.states[i].phase == PhaseView::ExpectBytes(n) || talk.states[i].phase
            == PhaseView::ExpectNoLink(n) || talk.states[i].phase == PhaseView::ExpectNothing(n),
    ensures
        0 <= n < job.changes.expected.len(),
        contradicts(
            path::joined(job.site.root, job.changes.expected[n].0),
            job.changes.expected[n].1,
            talk.states[i].asked()->0,
            talk.replies[i],
        ) <==> (talk.states[i + 1].ended() matches Some(Err(Error::Drifted(path)))),
        !(talk.replies[i] is Failed) && !contradicts(
            path::joined(job.site.root, job.changes.expected[n].0),
            job.changes.expected[n].1,
            talk.states[i].asked()->0,
            talk.replies[i],
        ) ==> !(talk.states[i + 1].ended() matches Some(Err(_))),
{
    lemma_compared_throughout(talk, job, i);
    assert(talk.steps(i));
}

/// Whether the failure of `request` with `fault` is one of `op`. A question about a link is none,
/// whatever the answer; a question about the execute bit is one only where that is to be set; and
/// that nothing is there to be read is one only where something is copied, removed, or gives way to a
/// link. Anything else that is asked for has to be done.
pub open spec fn op_minds(
    site: SiteView,
    op: OpView,
    phase: ExecPhaseView,
    request: RequestView,
    fault: FaultView,
) -> bool {
    match request {
        Request::ReadLink(_) => false,
        Request::Executable(_) => op is SetExecutable,
        Request::Read(path) => {
            ||| !(fault.kind is NotFound)
            ||| op is Remove
            ||| op is SetLink
            ||| op matches FileOp::CopyFrom { source, .. } && phase is Sourcing && path
                == path::joined(site.root, source)
        },
        _ => true,
    }
}

/// Whether a failure with `fault` of what `state` asks for is one of the application: not where an
/// expectation can do with it, and not once the application is being undone.
pub open spec fn minds(state: ApplyView, fault: FaultView) -> bool {
    let job = state.job;
    match (state.phase, state.asked()) {
        (Phase::ExpectBytes(_), _) => !(fault.kind is NotFound),
        (Phase::ExpectNoLink(_), _) => !(fault.kind is NotFound) && !(fault.kind is InvalidInput),
        (Phase::Lone(phase), Some(request)) => op_minds(
            job.site,
            job.changes.ops[0],
            phase,
            request,
            fault,
        ),
        (Phase::Op(n, phase), Some(request)) => op_minds(
            job.site,
            job.changes.ops[n],
            phase,
            request,
            fault,
        ),
        (Phase::Retire, _) | (Phase::Withdraw(_, _), _) => false,
        (Phase::Unwind(_, _), _) | (Phase::Abort(_, _), _) => false,
        (_, request) => request is Some,
    }
}

/// Whether `reply` shows a link where `op` is to set the execute bit.
pub open spec fn meets_link(
    site: SiteView,
    op: OpView,
    request: Option<RequestView>,
    reply: ReplyView,
) -> bool {
    &&& op matches FileOp::SetExecutable { path, .. } && request == Some(
        RequestView::ReadLink(path::joined(site.root, path)),
    )
    &&& reply matches Reply::Link(Some(_))
}

/// The failure that the execute bit is not set through a link at `path`.
pub open spec fn refusal_at(path: PathView) -> FaultView {
    Fault {
        kind: FaultKind::InvalidInput,
        message: "refusing to set the execute bit through the symbolic link at ".spec_bytes()
            + path,
    }
}

/// Whether the application fails with `fault` by `reply` to what `state` asks.
pub open spec fn fails_by(state: ApplyView, reply: ReplyView, fault: FaultView) -> bool {
    let job = state.job;
    ||| reply == ReplyView::Failed(fault) && minds(state, fault)
    ||| state.phase is Lone && meets_link(job.site, job.changes.ops[0], state.asked(), reply)
        && fault == refusal_at(path::joined(job.site.root, change::affected(job.changes.ops[0])))
    ||| state.phase matches Phase::Op(n, _) && meets_link(
        job.site,
        job.changes.ops[n],
        state.asked(),
        reply,
    ) && fault == refusal_at(path::joined(job.site.root, change::affected(job.changes.ops[n])))
}

/// Whether undoing the application, or retiring its journal, fails with `fault` by `reply` to what
/// `state` asks. That nothing is there to be taken back is no failure.
pub open spec fn trips_by(state: ApplyView, reply: ReplyView, fault: FaultView) -> bool {
    &&& reply == ReplyView::Failed(fault)
    &&& match state.phase {
        Phase::Unwind(_, _) | Phase::Withdraw(_, _) => !(fault.kind is NotFound
            && state.asked() matches Some(Request::Remove(_))),
        Phase::Abort(_, _) | Phase::Retire => true,
        _ => false,
    }
}

impl Talk {
    /// Whether the application failed with `fault` in state `j`, before state `i`.
    pub open spec fn fails(self, i: int, j: int, fault: FaultView) -> bool {
        0 <= j < i && fails_by(self.states[j], self.replies[j], fault)
    }

    /// Whether the application failed before state `i`, and first with `fault`.
    pub open spec fn failed(self, i: int, fault: FaultView) -> bool {
        exists|j: int| #[trigger] self.fails(i, j, fault) && self.unfailed(j)
    }

    /// Whether undoing the application, or retiring its journal, failed with `fault` in state `j`,
    /// before state `i`.
    pub open spec fn trips(self, i: int, j: int, fault: FaultView) -> bool {
        0 <= j < i && trips_by(self.states[j], self.replies[j], fault)
    }

    /// Whether undoing the application, or retiring its journal, failed before state `i`, and first
    /// with `fault`.
    pub open spec fn tripped(self, i: int, fault: FaultView) -> bool {
        exists|j: int| #[trigger] self.trips(i, j, fault) && self.untripped(j)
    }

    /// Whether nothing failed before state `i`.
    pub open spec fn unfailed(self, i: int) -> bool {
        forall|j: int, fault: FaultView| !(#[trigger] self.fails(i, j, fault))
    }

    /// Whether nothing failed before state `i` while the application was undone or the journal
    /// retired.
    pub open spec fn untripped(self, i: int) -> bool {
        forall|j: int, fault: FaultView| !(#[trigger] self.trips(i, j, fault))
    }

    /// Whether these are the texts of what the application first failed with before state `i`, and of
    /// what undoing that first failed with.
    pub open spec fn tore(self, i: int, cause: Seq<u8>, rollback: Seq<u8>) -> bool {
        exists|first: FaultView, second: FaultView| #[trigger]
            self.failed(i, first) && #[trigger] self.tripped(i, second) && cause == first.message
                && rollback == second.message
    }

    /// Whether `cause` and `rollback` tell that the journal of a set that landed could not be removed,
    /// and nothing else failed.
    pub open spec fn stuck(self, i: int, cause: Seq<u8>, rollback: Seq<u8>) -> bool {
        &&& rollback
            == "the surviving journal will be replayed idempotently and cleared by the next recovery".spec_bytes()
        &&& exists|fault: FaultView| #[trigger]
            self.tripped(i, fault) && self.unfailed(i) && cause
                == "the set applied and was certified durable, but its journal could not be retired: ".spec_bytes()
                + fault.message
    }
}

/// What is known of what failed before state `i`.
spec fn blamed(talk: Talk, job: JobView, i: int) -> bool {
    &&& talk.states[i].job == job
    &&& match talk.states[i].phase {
        Phase::Withdraw(cause, _) => talk.failed(i, cause) && talk.untripped(i),
        Phase::Unwind(cause, left) => {
            &&& talk.failed(i, cause)
            &&& match left.error {
                Some(fault) => talk.tripped(i, fault),
                None => talk.untripped(i),
            }
        },
        Phase::Abort(cause, _) => talk.failed(i, cause) && talk.untripped(i),
        Phase::Finished(Err(Error::Io(fault))) => talk.failed(i, fault) && talk.untripped(i),
        Phase::Finished(Err(Error::Torn { cause, rollback })) => talk.tore(i, cause, rollback)
            || talk.stuck(i, cause, rollback),
        _ => talk.unfailed(i) && talk.untripped(i),
    }
}

/// What failed and what did not up to one more state.
proof fn lemma_failed_later(talk: Talk, i: int)
    requires
        0 <= i,
    ensures
        forall|fault: FaultView| #[trigger] talk.failed(i, fault) ==> talk.failed(i + 1, fault),
        forall|fault: FaultView|
            talk.unfailed(i) && #[trigger] fails_by(talk.states[i], talk.replies[i], fault)
                ==> talk.failed(i + 1, fault),
        forall|fault: FaultView| #[trigger] talk.tripped(i, fault) ==> talk.tripped(i + 1, fault),
        forall|fault: FaultView|
            talk.untripped(i) && #[trigger] trips_by(talk.states[i], talk.replies[i], fault)
                ==> talk.tripped(i + 1, fault),
        talk.unfailed(i) && (forall|fault: FaultView|
            !fails_by(talk.states[i], talk.replies[i], fault)) ==> talk.unfailed(i + 1),
        talk.untripped(i) && (forall|fault: FaultView|
            !trips_by(talk.states[i], talk.replies[i], fault)) ==> talk.untripped(i + 1),
{
    let (state, reply) = (talk.states[i], talk.replies[i]);
    assert forall|fault: FaultView| #[trigger] talk.failed(i, fault) implies talk.failed(
        i + 1,
        fault,
    ) by {
        let j = choose|j: int| #[trigger] talk.fails(i, j, fault) && talk.unfailed(j);
        assert(talk.fails(i + 1, j, fault));
    }
    assert forall|fault: FaultView|
        talk.unfailed(i) && #[trigger] fails_by(state, reply, fault) implies talk.failed(
        i + 1,
        fault,
    ) by {
        assert(talk.fails(i + 1, i, fault));
    }
    assert forall|fault: FaultView| #[trigger] talk.tripped(i, fault) implies talk.tripped(
        i + 1,
        fault,
    ) by {
        let j = choose|j: int| #[trigger] talk.trips(i, j, fault) && talk.untripped(j);
        assert(talk.trips(i + 1, j, fault));
    }
    assert forall|fault: FaultView|
        talk.untripped(i) && #[trigger] trips_by(state, reply, fault) implies talk.tripped(
        i + 1,
        fault,
    ) by {
        assert(talk.trips(i + 1, i, fault));
    }
    if talk.unfailed(i) && (forall|fault: FaultView| !fails_by(state, reply, fault)) {
        assert forall|j: int, fault: FaultView| !(#[trigger] talk.fails(i + 1, j, fault)) by {
            assert(!talk.fails(i, j, fault));
        }
    }
    if talk.untripped(i) && (forall|fault: FaultView| !trips_by(state, reply, fault)) {
        assert forall|j: int, fault: FaultView| !(#[trigger] talk.trips(i + 1, j, fault)) by {
            assert(!talk.trips(i, j, fault));
        }
    }
}

/// Whether `phase` is one that an operation of this kind comes to.
spec fn fits_op(op: OpView, phase: ExecPhaseView) -> bool {
    match phase {
        ExecPhase::Guarding | ExecPhase::Probing => op is SetExecutable,
        ExecPhase::Sourcing => op is CopyFrom,
        ExecPhase::Linking(_) | ExecPhase::Reading(_) => !(op is SetExecutable),
        ExecPhase::Weighing(_) => op is Remove || op is Rename || op is SetLink,
        ExecPhase::Landing(script, _) => script.pending() && forall|i: int|
            0 <= i < script.requests.len() ==> !(#[trigger] script.requests[i] is ReadLink) && !(
            script.requests[i] is Read) && !(script.requests[i] is Executable),
    }
}

/// The requests that change the tree are no questions.
proof fn lemma_changes_fit(site: SiteView, op: OpView, payload: Seq<u8>, touched: Seq<PathView>)
    ensures
        ({
            let requests = exec::changes(site, op, payload, touched);
            &&& requests.len() > 0
            &&& forall|i: int|
                0 <= i < requests.len() ==> !(#[trigger] requests[i] is ReadLink) && !(
                requests[i] is Read) && !(requests[i] is Executable)
        }),
{
    let requests = exec::changes(site, op, payload, touched);
    assert forall|i: int| 0 <= i < requests.len() implies !(#[trigger] requests[i] is ReadLink) && !(
    requests[i] is Read) && !(requests[i] is Executable) by {}
}

/// An operation fails exactly by a failure that is one of it, or by a link where it is to set the
/// execute bit.
proof fn lemma_op_fails(
    site: SiteView,
    op: OpView,
    phase: ExecPhaseView,
    reply: ReplyView,
    books: Books,
)
    requires
        fits_op(op, phase),
        port::answers(exec::requested(site, op, phase), reply),
    ensures
        ({
            let request = exec::requested(site, op, phase);
            let link = meets_link(site, op, Some(request), reply);
            match exec::resumed(site, op, phase, reply, books).0 {
                Progress::Failed(fault) => {
                    ||| reply == ReplyView::Failed(fault) && op_minds(site, op, phase, request, fault)
                    ||| link && fault == refusal_at(exec::target(site, op))
                },
                Progress::Running(next) => {
                    &&& fits_op(op, next)
                    &&& !link
                    &&& reply matches Reply::Failed(fault) ==> !op_minds(site, op, phase, request, fault)
                },
                Progress::Landed => {
                    &&& !link
                    &&& reply matches Reply::Failed(fault) ==> !op_minds(site, op, phase, request, fault)
                },
            }
        }),
{
    match phase {
        ExecPhase::Guarding => lemma_changes_fit(site, op, Seq::empty(), books.touched),
        ExecPhase::Probing => lemma_changes_fit(site, op, Seq::empty(), books.touched),
        ExecPhase::Sourcing => {
            if let Reply::Bytes(bytes) = reply {
                lemma_changes_fit(site, op, bytes, books.touched);
            }
        },
        ExecPhase::Linking(payload) => lemma_changes_fit(
            site,
            op,
            exec::payload_bytes(payload),
            books.touched,
        ),
        ExecPhase::Reading(payload) => lemma_changes_fit(
            site,
            op,
            exec::payload_bytes(payload),
            books.touched,
        ),
        ExecPhase::Weighing(_) => lemma_changes_fit(site, op, Seq::empty(), books.touched),
        ExecPhase::Landing(script, _) => {
            assert(!(script.requests[script.at] is ReadLink));
        },
    }
}

/// An operation begins in a phase that it comes to.
proof fn lemma_op_begins(site: SiteView, op: OpView, touched: Seq<PathView>)
    ensures
        fits_op(op, exec::begun(site, op, touched)),
{
    lemma_changes_fit(site, op, Seq::empty(), touched);
}

/// What is known of the operation that is on its way in `state`.
spec fn at_work(state: ApplyView) -> bool {
    match state.phase {
        Phase::Lone(phase) => state.job.ops().len() > 0 && fits_op(state.job.ops()[0], phase),
        Phase::Op(n, phase) => 0 <= n < state.job.ops().len() && fits_op(
            state.job.ops()[n],
            phase,
        ),
        Phase::Unwind(_, left) => left.pending(),
        _ => true,
    }
}

/// What is known of the operation that is on its way stays known.
proof fn lemma_at_work(state: ApplyView, reply: ReplyView)
    requires
        at_work(state),
        state.asked() matches Some(request) && port::answers(request, reply),
    ensures
        at_work(state.resumed(reply)),
{
    let job = state.job;
    if job.ops().len() > 0 {
        lemma_op_begins(job.site, job.ops()[0], Seq::empty());
        lemma_op_begins(job.site, job.ops()[0], state.books.touched);
    }
    match state.phase {
        Phase::Lone(phase) => lemma_op_fails(
            job.site,
            job.ops()[0],
            phase,
            reply,
            state.books,
        ),
        Phase::Op(n, phase) => {
            lemma_op_fails(job.site, job.ops()[n], phase, reply, state.books);
            let noted = exec::resumed(job.site, job.ops()[n], phase, reply, state.books).1;
            if n + 1 < job.ops().len() {
                lemma_op_begins(job.site, job.ops()[n + 1], noted.touched);
            }
        },
        _ => {},
    }
}

/// What is known of what failed after one more answer, while an operation is on its way.
proof fn lemma_blamed_op(talk: Talk, job: JobView, i: int)
    requires
        talk.of(job),
        0 <= i < talk.replies.len(),
        blamed(talk, job, i),
        at_work(talk.states[i]),
        talk.states[i].phase is Lone || talk.states[i].phase is Op,
    ensures
        blamed(talk, job, i + 1),
{
    assert(talk.steps(i));
    let (state, reply) = (talk.states[i], talk.replies[i]);
    lemma_failed_later(talk, i);
    match state.phase {
        Phase::Lone(phase) => {
            lemma_op_fails(job.site, job.ops()[0], phase, reply, state.books);
            let (progress, noted) = exec::resumed(
                job.site,
                job.ops()[0],
                phase,
                reply,
                state.books,
            );
            if let Progress::Failed(fault) = progress {
                assert(fails_by(state, reply, fault));
            }
        },
        Phase::Op(n, phase) => {
            lemma_op_fails(job.site, job.ops()[n], phase, reply, state.books);
            let (progress, noted) = exec::resumed(
                job.site,
                job.ops()[n],
                phase,
                reply,
                state.books,
            );
            if let Progress::Failed(fault) = progress {
                assert(fails_by(state, reply, fault));
                assert(talk.failed(i + 1, fault));
            }
        },
        _ => {},
    }
}

/// What is known of what failed after one more answer, while the application is undone, or its
/// journal retired.
proof fn lemma_blamed_undoing(talk: Talk, job: JobView, i: int)
    requires
        talk.of(job),
        0 <= i < talk.replies.len(),
        blamed(talk, job, i),
        match talk.states[i].phase {
            Phase::Unwind(_, _) | Phase::Withdraw(_, _) => true,
            Phase::Abort(_, _) | Phase::Retire => true,
            _ => false,
        },
    ensures
        blamed(talk, job, i + 1),
{
    assert(talk.steps(i));
    let (state, reply) = (talk.states[i], talk.replies[i]);
    lemma_failed_later(talk, i);
    if let Reply::Failed(fault) = reply {
        match state.phase {
            Phase::Unwind(cause, left) => {
                if left.error is None && trips_by(state, reply, fault) {
                    assert(talk.tripped(i + 1, fault));
                }
                if let Some(first) = left.resumed(reply).error {
                    assert(talk.failed(i + 1, cause) && talk.tripped(i + 1, first));
                }
            },
            Phase::Withdraw(cause, _) => {
                assert(trips_by(state, reply, fault) ==> talk.failed(i + 1, cause)
                    && talk.tripped(i + 1, fault));
            },
            Phase::Abort(cause, _) => {
                assert(trips_by(state, reply, fault));
                assert(talk.failed(i + 1, cause) && talk.tripped(i + 1, fault));
            },
            Phase::Retire => {
                assert(trips_by(state, reply, fault));
                assert(talk.tripped(i + 1, fault));
                assert(talk.unfailed(i + 1));
            },
            _ => {},
        }
    } else if let Phase::Unwind(cause, left) = state.phase {
        if let Some(first) = left.error {
            assert(talk.failed(i + 1, cause) && talk.tripped(i + 1, first));
        }
    }
}

/// What is known of what failed after one more answer.
proof fn lemma_blamed(talk: Talk, job: JobView, i: int)
    requires
        talk.of(job),
        0 <= i < talk.replies.len(),
        blamed(talk, job, i),
        at_work(talk.states[i]),
    ensures
        blamed(talk, job, i + 1),
{
    assert(talk.steps(i));
    let (state, reply) = (talk.states[i], talk.replies[i]);
    match state.phase {
        Phase::Lone(_) | Phase::Op(_, _) => lemma_blamed_op(talk, job, i),
        Phase::Unwind(_, _) | Phase::Withdraw(_, _) => lemma_blamed_undoing(talk, job, i),
        Phase::Abort(_, _) | Phase::Retire => lemma_blamed_undoing(talk, job, i),
        _ => {
            lemma_failed_later(talk, i);
            if let Reply::Failed(fault) = reply {
                assert(fails_by(state, reply, fault) <==> minds(state, fault));
            }
        },
    }
}

/// What is known of what failed in every state.
proof fn lemma_blamed_throughout(talk: Talk, job: JobView, i: int)
    requires
        talk.of(job),
        0 <= i < talk.states.len(),
    ensures
        blamed(talk, job, i),
        at_work(talk.states[i]),
    decreases i,
{
    if i > 0 {
        lemma_blamed_throughout(talk, job, i - 1);
        assert(talk.steps(i - 1));
        lemma_blamed(talk, job, i - 1);
        lemma_at_work(talk.states[i - 1], talk.replies[i - 1]);
    }
}

/// A set that ends as failed says what failed first: some answer was that failure, of something that had to
/// be done, or the set sets an execute bit where there is a link. A set that ends well, or is refused,
/// had no such answer. A tear tells both what failed first and what failed while that was undone, or
/// that the journal of a set that landed could not be removed.
pub proof fn law_failure_is_what_was_answered(job: JobView, talk: Talk)
    requires
        talk.of(job),
    ensures
        ({
            let end = talk.states.len() - 1;
            match talk.states[end].ended() {
                Some(Ok(())) => talk.unfailed(end) && talk.untripped(end),
                Some(Err(Error::Io(fault))) => talk.failed(end, fault) && talk.untripped(end),
                Some(Err(Error::Torn { cause, rollback })) => talk.tore(end, cause, rollback)
                    || talk.stuck(end, cause, rollback),
                Some(Err(_)) => talk.unfailed(end) && talk.untripped(end),
                None => true,
            }
        }),
{
    lemma_blamed_throughout(talk, job, talk.states.len() - 1);
}

/// A set that nothing stands against is applied. If none of its paths leaves the root, no journal is
/// where its own belongs, no answer contradicts an expectation, nothing that has to be done fails,
/// and no execute bit is set where there is a link, then it does not end but well.
pub proof fn law_what_nothing_stands_against_is_applied(job: JobView, talk: Talk)
    requires
        talk.of(job),
        contained(job),
        talk.replies.len() > 0 ==> talk.replies[0] != ReplyView::Found(true),
        forall|n: int, i: int|
            0 <= n < job.changes.expected.len() && 0 <= i < talk.replies.len() ==> !contradicts(
                path::joined(job.site.root, (#[trigger] job.changes.expected[n]).0),
                job.changes.expected[n].1,
                (#[trigger] talk.states[i]).asked()->0,
                talk.replies[i],
            ),
        talk.unfailed(talk.states.len() - 1),
        talk.untripped(talk.states.len() - 1),
    ensures
        talk.states.last().ended() matches Some(outcome) ==> outcome is Ok,
{
    let end = talk.states.len() - 1;
    lemma_blamed_throughout(talk, job, end);
    lemma_compared_throughout(talk, job, end);
    if stages(job) {
        law_every_path_is_judged(job);
    }
    if let Some(Err(Error::Drifted(path))) = talk.states[end].ended() {
        let n = choose|n: int| #[trigger] drifted_by(talk, job, end, path, n);
        assert(drifted_by(talk, job, end, path, n));
        assert(job.changes.expected[n].0 == path);
        assert(talk.states[end - 1].asked() is Some);
    }
    if let Some(Err(Error::Torn { cause, rollback })) = talk.states[end].ended() {
        if talk.tore(end, cause, rollback) {
            let (first, second) = choose|first: FaultView, second: FaultView| #[trigger]
                talk.failed(end, first) && #[trigger] talk.tripped(end, second) && cause
                    == first.message && rollback == second.message;
            let j = choose|j: int| #[trigger] talk.fails(end, j, first) && talk.unfailed(j);
            assert(talk.fails(end, j, first));
        } else {
            let fault = choose|fault: FaultView| #[trigger]
                talk.tripped(end, fault) && talk.unfailed(end) && cause
                    == "the set applied and was certified durable, but its journal could not be retired: ".spec_bytes()
                    + fault.message;
            let j = choose|j: int| #[trigger] talk.trips(end, j, fault) && talk.untripped(j);
            assert(talk.trips(end, j, fault));
        }
    }
    if let Some(Err(Error::Io(fault))) = talk.states[end].ended() {
        let j = choose|j: int| #[trigger] talk.fails(end, j, fault) && talk.unfailed(j);
        assert(talk.fails(end, j, fault));
    }
}

/// What is to be asked in every state is in order.
proof fn lemma_in_order(talk: Talk, job: JobView, i: int)
    requires
        talk.of(job),
        0 <= i < talk.states.len(),
    ensures
        progress::in_order(talk.states[i]),
    decreases i,
{
    if i > 0 {
        lemma_in_order(talk, job, i - 1);
        assert(talk.steps(i - 1));
        progress::law_answers_lead_to_an_end(talk.states[i - 1], talk.replies[i - 1]);
    }
}

/// An application that has not ended asks for something, and one that has asks for nothing more.
pub proof fn law_asks_until_it_ends(job: JobView, talk: Talk)
    requires
        talk.of(job),
    ensures
        talk.states.last().asked() is None <==> talk.states.last().ended() is Some,
{
    lemma_in_order(talk, job, talk.states.len() - 1);
}

/// A reply that does not answer what was asked changes nothing, and neither does any reply once the
/// application has ended.
pub proof fn law_idle_reply_changes_nothing(state: ApplyView, reply: ReplyView)
    ensures
        state.asked() is None ==> state.resumed(reply) == state,
        state.asked() matches Some(request) ==> (!port::answers(request, reply) ==> state.resumed(
            reply,
        ) == state),
{
}

} // verus!
