//! How an application goes about its work: what it sees to before it changes anything, and how often
//! it waits for the device.

use crate::apply::{JobView, Phase, PhaseView};
use crate::atomicity;
use crate::change::{FileOp, OpView};
use crate::exec::{self, ExecPhase, ExecPhaseView, Progress, SiteView};
use crate::flush;
use crate::outcomes::Talk;
use crate::path::{self, PathView};
use crate::port::{self, Durability, Reply, ReplyView, Request, RequestView};
use crate::script::ScriptView;
use crate::undo::{Undo, UndoView};
use crate::unwind;
use vstd::prelude::*;

verus! {

/// Whether both phases are ones of the same operation.
pub open spec fn same_work(a: PhaseView, b: PhaseView) -> bool {
    match (a, b) {
        (Phase::Lone(_), Phase::Lone(_)) => true,
        (Phase::Op(n, _), Phase::Op(m, _)) => n == m,
        _ => false,
    }
}

impl Talk {
    /// Whether `dir` was made, with whatever it lacked above it, in state `j`, for the operation that
    /// is on its way in state `i`.
    pub open spec fn readies(self, i: int, j: int, dir: PathView) -> bool {
        &&& 0 <= j < i
        &&& same_work(self.states[j].phase, self.states[i].phase)
        &&& self.states[j].asked() == Some(RequestView::CreateDirs(dir))
        &&& self.replies[j] is Made
    }

    /// Whether `dir` was made, with whatever it lacked above it, for the operation that is on its way
    /// in state `i`.
    pub open spec fn readied(self, i: int, dir: PathView) -> bool {
        exists|j: int| #[trigger] self.readies(i, j, dir)
    }

    /// Whether `home` was made before state `i`, with whatever it lacked above it, and each of the
    /// directories that were made for that then survived a power cut.
    pub open spec fn housed(self, i: int, home: PathView) -> bool {
        exists|made: Seq<PathView>| #[trigger]
            self.heard(i, Request::CreateDirs(home), Reply::Made(made)) && self.drained(i, made)
    }

    /// Whether each of `paths` was made to survive a power cut before state `i`.
    pub open spec fn drained(self, i: int, paths: Seq<PathView>) -> bool {
        forall|k: int|
            0 <= k < paths.len() ==> self.heard(
                i,
                Request::Sync(#[trigger] paths[k], Durability::Durable),
                Reply::Done,
            )
    }
}

/// Whether `requests` put something at `full`: the directory that holds it is made first, nothing is
/// flushed but by a barrier, and nothing else is moved, put or linked.
spec fn prepared(requests: Seq<RequestView>, full: PathView) -> bool {
    &&& forall|m: int|
        0 <= m < requests.len() ==> match #[trigger] requests[m] {
            Request::Sync(_, need) => need == Durability::Ordered,
            Request::CreateDirs(_) => m == 0,
            Request::Replace(path, _) | Request::SetLink(path, _) => path == full && led(
                requests,
                full,
                m,
            ),
            Request::Rename(_, path) => path == full && led(requests, full, m),
            Request::Remove(_) | Request::SetExecutable(_, _) => true,
            _ => false,
        }
}

/// Whether request `m` comes after the one that makes the directory which holds `full`, if the path
/// says which.
spec fn led(requests: Seq<RequestView>, full: PathView, m: int) -> bool {
    path::parent_of(full) matches Some(dir) ==> m > 0 && requests[0] == RequestView::CreateDirs(dir)
}

/// The requests that change the tree prepare what they put.
proof fn lemma_prepared(site: SiteView, op: OpView, payload: Seq<u8>, touched: Seq<PathView>)
    ensures
        prepared(exec::changes(site, op, payload, touched), exec::target(site, op)),
        exec::changes(site, op, payload, touched).len() > 0,
{
    let full = exec::target(site, op);
    let requests = exec::changes(site, op, payload, touched);
    if let FileOp::Rename { from, .. } = op {
        let dirs = exec::making_dirs(full);
        let calming = flush::calming(touched, path::joined(site.root, from), full);
        assert forall|m: int| 0 <= m < requests.len() implies match #[trigger] requests[m] {
            Request::Sync(_, need) => need == Durability::Ordered,
            Request::CreateDirs(_) => m == 0,
            Request::Replace(path, _) | Request::SetLink(path, _) => false,
            Request::Rename(_, path) => path == full && led(requests, full, m),
            Request::Remove(_) | Request::SetExecutable(_, _) => true,
            _ => false,
        } by {
            if m < dirs.len() {
                assert(requests[m] == dirs[m]);
            } else if m < requests.len() - 1 {
                assert(requests[m] == calming[m - dirs.len()]);
            } else if dirs.len() > 0 {
                assert(requests[0] == dirs[0]);
            }
        }
    }
}

/// What is known of the requests that are left of an operation in state `i`.
spec fn laid(talk: Talk, i: int, site: SiteView, op: OpView, phase: ExecPhaseView) -> bool {
    phase matches ExecPhase::Landing(script, _) ==> {
        &&& script.pending()
        &&& prepared(script.requests, exec::target(site, op))
        &&& script.at > 0 ==> (script.requests[0] matches Request::CreateDirs(dir) ==> talk.readied(
            i,
            dir,
        ))
    }
}

/// Whether `script` hands paths over, and ends with one drain of `root`.
spec fn drains_once(script: ScriptView, root: PathView) -> bool {
    &&& script.pending()
    &&& forall|m: int|
        0 <= m < script.requests.len() ==> (#[trigger] script.requests[m] matches Request::Sync(
            path,
            need,
        ) && if m == script.requests.len() - 1 {
            path == root && need == Durability::Durable
        } else {
            need == Durability::Pushed
        })
}

/// A flush of many paths drains once.
proof fn lemma_drains_once(paths: Seq<PathView>, root: PathView)
    requires
        paths.len() > 0,
    ensures
        drains_once(ScriptView::of(flush::flushing(paths, root, Durability::Durable)), root),
{
}

/// Whether `script` flushes, and removes nothing but the journal.
spec fn clears(script: ScriptView, journal: PathView) -> bool {
    &&& script.pending()
    &&& forall|m: int|
        0 <= m < script.requests.len() ==> (#[trigger] script.requests[m]) is Sync
            || script.requests[m] == RequestView::Remove(journal)
}

/// Retiring a journal, or taking it back, clears it away.
proof fn lemma_clears(root: PathView, journal: PathView)
    ensures
        clears(ScriptView::of(unwind::withdrawal(journal)), journal),
        forall|dirs: Seq<PathView>|
            clears(ScriptView::of(#[trigger] unwind::retirement(dirs, root, journal)), journal),
{
    assert forall|dirs: Seq<PathView>| clears(
        ScriptView::of(#[trigger] unwind::retirement(dirs, root, journal)),
        journal,
    ) by {
        atomicity::lemma_retirement(dirs, root, journal);
    }
}

/// A reversal puts things back in no other way than these.
proof fn lemma_reversal(undo: UndoView, dirs: Seq<PathView>)
    ensures
        unwind::reversal(undo, dirs).len() > 0,
        forall|m: int|
            0 <= m < unwind::reversal(undo, dirs).len() ==> match #[trigger] unwind::reversal(
                undo,
                dirs,
            )[m] {
                Request::Write(_, _) | Request::Remove(_) | Request::Rename(_, _) => true,
                Request::SetExecutable(_, _) | Request::SetLink(_, _) => true,
                Request::Sync(_, need) => need == Durability::Ordered,
                _ => false,
            },
{
    let requests = unwind::reversal(undo, dirs);
    if let Undo::Rename { from, to } = undo {
        let calming = flush::calming(dirs, from, to);
        assert forall|m: int| 0 <= m < requests.len() - 1 implies requests[m]
            == #[trigger] calming[m] by {}
        assert forall|m: int| 0 <= m < requests.len() implies match #[trigger] requests[m] {
            Request::Write(_, _) | Request::Remove(_) | Request::Rename(_, _) => true,
            Request::SetExecutable(_, _) | Request::SetLink(_, _) => true,
            Request::Sync(_, need) => need == Durability::Ordered,
            _ => false,
        } by {
            if m < requests.len() - 1 {
                assert(requests[m] == calming[m]);
            }
        }
    }
}

/// What is known of how the work goes in state `i`.
spec fn conducted(talk: Talk, job: JobView, i: int) -> bool {
    let ops = job.ops();
    &&& talk.states[i].job == job
    &&& match talk.states[i].phase {
        Phase::Lone(phase) => ops.len() > 0 && laid(talk, i, job.site, ops[0], phase),
        Phase::Op(n, phase) => 0 <= n < ops.len() && laid(talk, i, job.site, ops[n], phase),
        Phase::LoneFlush(script) => drains_once(script, job.site.root),
        Phase::Certify(script) => drains_once(script, job.site.root),
        Phase::Home => job.home is Some,
        Phase::HomeFlush(script) => homing(talk, job, i, script),
        Phase::Encode => job.home matches Some(home) ==> talk.housed(i, home),
        Phase::Commit(bytes) => {
            &&& job.home matches Some(home) ==> talk.housed(i, home)
            &&& talk.heard(i, Request::Encode, Reply::Bytes(bytes))
        },
        Phase::Withdraw(_, script) => clears(script, job.journal),
        Phase::Abort(_, script) => clears(script, job.journal),
        Phase::Unwind(_, left) => left.pending(),
        _ => true,
    }
}

/// What is known while the directories that were made for the journal are flushed.
spec fn homing(talk: Talk, job: JobView, i: int, script: ScriptView) -> bool {
    exists|made: Seq<PathView>| #[trigger] homing_of(talk, job, i, script, made)
}

/// What is known while `made`, the directories that were made for the journal, are flushed.
spec fn homing_of(
    talk: Talk,
    job: JobView,
    i: int,
    script: ScriptView,
    made: Seq<PathView>,
) -> bool {
    &&& script.pending()
    &&& job.home matches Some(home) && talk.heard(i, Request::CreateDirs(home), Reply::Made(made))
    &&& script.requests == flush::syncs(made, Durability::Durable)
    &&& talk.drained(i, made.take(script.at))
}

/// What was heard before some state was heard before any later one.
proof fn lemma_heard_later(talk: Talk, i: int, n: int)
    requires
        i <= n,
    ensures
        forall|request: RequestView, reply: ReplyView| #[trigger]
            talk.heard(i, request, reply) ==> talk.heard(n, request, reply),
{
    assert forall|request: RequestView, reply: ReplyView| #[trigger]
        talk.heard(i, request, reply) implies talk.heard(n, request, reply) by {
        let j = choose|j: int| #[trigger] talk.hears(i, j, request, reply);
        assert(talk.hears(n, j, request, reply));
    }
}

/// What is known of how an operation goes after one more answer.
proof fn lemma_laid(
    talk: Talk,
    job: JobView,
    i: int,
    op: OpView,
    phase: ExecPhaseView,
    next: ExecPhaseView,
)
    requires
        0 <= i < talk.replies.len(),
        laid(talk, i, job.site, op, phase),
        talk.states[i].asked() == Some(exec::requested(job.site, op, phase)),
        port::answers(exec::requested(job.site, op, phase), talk.replies[i]),
        exec::resumed(job.site, op, phase, talk.replies[i], talk.states[i].books).0
            == Progress::<PathView, Seq<u8>, ScriptView>::Running(next),
        same_work(talk.states[i].phase, talk.states[i + 1].phase),
    ensures
        laid(talk, i + 1, job.site, op, next),
{
    let touched = talk.states[i].books.touched;
    let reply = talk.replies[i];
    match phase {
        ExecPhase::Landing(script, later) => {
            if let Request::CreateDirs(dir) = script.requests[0] {
                if script.at == 0 {
                    assert(talk.readies(i + 1, i, dir));
                } else {
                    let j = choose|j: int| #[trigger] talk.readies(i, j, dir);
                    assert(talk.readies(i + 1, j, dir));
                }
            }
        },
        ExecPhase::Sourcing => {
            if let Reply::Bytes(bytes) = reply {
                lemma_prepared(job.site, op, bytes, touched);
            }
        },
        ExecPhase::Linking(payload) => lemma_prepared(
            job.site,
            op,
            exec::payload_bytes(payload),
            touched,
        ),
        ExecPhase::Reading(payload) => lemma_prepared(
            job.site,
            op,
            exec::payload_bytes(payload),
            touched,
        ),
        _ => lemma_prepared(job.site, op, Seq::empty(), touched),
    }
}

/// An operation begins with everything laid out.
proof fn lemma_begins(talk: Talk, i: int, site: SiteView, op: OpView, touched: Seq<PathView>)
    ensures
        laid(talk, i, site, op, exec::begun(site, op, touched)),
{
    lemma_prepared(site, op, Seq::empty(), touched);
}

/// What is known of how the work goes after one more answer.
proof fn lemma_conducted(talk: Talk, job: JobView, i: int)
    requires
        talk.of(job),
        0 <= i < talk.replies.len(),
        conducted(talk, job, i),
    ensures
        conducted(talk, job, i + 1),
{
    assert(talk.steps(i));
    let (state, reply) = (talk.states[i], talk.replies[i]);
    let next = talk.states[i + 1];
    let asked = state.asked()->0;
    let ops = job.ops();
    let root = job.site.root;
    lemma_heard_later(talk, i, i + 1);
    lemma_clears(root, job.journal);
    assert(talk.hears(i + 1, i, asked, reply));
    assert(talk.heard(i + 1, asked, reply));
    match state.phase {
        Phase::Stale | Phase::ExpectBytes(_) | Phase::ExpectNothing(_) => {
            if ops.len() > 0 {
                lemma_begins(talk, i + 1, job.site, ops[0], Seq::empty());
            }
        },
        Phase::Lone(phase) => {
            let (progress, noted) = exec::resumed(job.site, ops[0], phase, reply, state.books);
            match progress {
                Progress::Running(after) => lemma_laid(talk, job, i, ops[0], phase, after),
                Progress::Landed => {
                    if noted.touched.len() > 0 {
                        lemma_drains_once(noted.touched, root);
                    }
                },
                Progress::Failed(_) => {},
            }
        },
        Phase::Op(n, phase) => {
            let (progress, noted) = exec::resumed(job.site, ops[n], phase, reply, state.books);
            match progress {
                Progress::Running(after) => lemma_laid(talk, job, i, ops[n], phase, after),
                Progress::Landed => {
                    if n + 1 < ops.len() {
                        lemma_begins(talk, i + 1, job.site, ops[n + 1], noted.touched);
                    } else if noted.touched.len() > 0 {
                        lemma_drains_once(noted.touched, root);
                    }
                },
                Progress::Failed(_) => {},
            }
        },
        Phase::Home => {
            if let Reply::Made(made) = reply {
                assert(made.take(0) =~= Seq::empty());
                assert(talk.drained(i + 1, made.take(0)));
                if made.len() > 0 {
                    let script = ScriptView::of(flush::syncs(made, Durability::Durable));
                    assert(homing_of(talk, job, i + 1, script, made));
                } else {
                    assert(talk.drained(i + 1, made));
                }
            }
        },
        Phase::HomeFlush(script) => {
            let made = choose|made: Seq<PathView>| #[trigger]
                homing_of(talk, job, i, script, made);
            if reply is Done {
                let more = made.take(script.at + 1);
                assert forall|k: int| 0 <= k < more.len() implies talk.heard(
                    i + 1,
                    Request::Sync(#[trigger] more[k], Durability::Durable),
                    Reply::Done,
                ) by {
                    if k < script.at {
                        assert(more[k] == made.take(script.at)[k]);
                    } else {
                        assert(script.requests[k] == RequestView::Sync(more[k], Durability::Durable));
                    }
                }
                if script.advanced().pending() {
                    assert(homing_of(talk, job, i + 1, script.advanced(), made));
                } else {
                    assert(more =~= made);
                    assert(talk.drained(i + 1, made));
                }
            }
        },
        Phase::Encode => {
            lemma_housed_later(talk, job, i);
        },
        Phase::Commit(_) => {
            if ops.len() > 0 {
                lemma_begins(talk, i + 1, job.site, ops[0], state.books.touched);
            } else if state.books.touched.len() > 0 {
                lemma_drains_once(state.books.touched, root);
            }
        },
        _ => {},
    }
}

/// A journal that was housed stays housed.
proof fn lemma_housed_later(talk: Talk, job: JobView, i: int)
    requires
        job.home matches Some(home) ==> talk.housed(i, home),
    ensures
        job.home matches Some(home) ==> talk.housed(i + 1, home),
{
    lemma_heard_later(talk, i, i + 1);
    if let Some(home) = job.home {
        let made = choose|made: Seq<PathView>| #[trigger]
            talk.heard(i, Request::CreateDirs(home), Reply::Made(made)) && talk.drained(i, made);
        assert(talk.heard(i + 1, Request::CreateDirs(home), Reply::Made(made)));
        assert forall|k: int| 0 <= k < made.len() implies talk.heard(
            i + 1,
            Request::Sync(#[trigger] made[k], Durability::Durable),
            Reply::Done,
        ) by {
            assert(talk.heard(i, Request::Sync(made[k], Durability::Durable), Reply::Done));
        }
        assert(talk.drained(i + 1, made));
    }
}

/// What is known of how the work goes in every state.
proof fn lemma_conducted_throughout(talk: Talk, job: JobView, i: int)
    requires
        talk.of(job),
        0 <= i < talk.states.len(),
    ensures
        conducted(talk, job, i),
    decreases i,
{
    if i > 0 {
        lemma_conducted_throughout(talk, job, i - 1);
        lemma_conducted(talk, job, i - 1);
    }
}

/// Nothing is put, linked or moved to a path before the directory that holds it, and whatever that
/// lacks above it, was made for the same operation.
pub proof fn law_directories_are_made_first(job: JobView, talk: Talk, i: int)
    requires
        talk.of(job),
        0 <= i < talk.states.len(),
        talk.states[i].phase is Lone || talk.states[i].phase is Op,
    ensures
        match talk.states[i].asked() {
            Some(Request::Replace(path, _)) => path::parent_of(path) matches Some(dir)
                ==> talk.readied(i, dir),
            Some(Request::SetLink(path, _)) => path::parent_of(path) matches Some(dir)
                ==> talk.readied(i, dir),
            Some(Request::Rename(_, path)) => path::parent_of(path) matches Some(dir)
                ==> talk.readied(i, dir),
            Some(Request::Write(_, _)) | Some(Request::CreateNew(_, _)) => false,
            _ => true,
        },
{
    lemma_conducted_throughout(talk, job, i);
    match talk.states[i].phase {
        Phase::Lone(ExecPhase::Landing(script, _)) => {
            assert(script.requests[script.at] == script.current());
        },
        Phase::Op(_, ExecPhase::Landing(script, _)) => {
            assert(script.requests[script.at] == script.current());
        },
        _ => {},
    }
}

/// A journal is written where it belongs, as the operations were spelled, and not before its home was
/// made, if it has one, and every directory that was made for that survives a power cut.
pub proof fn law_journal_is_written_at_home(job: JobView, talk: Talk, i: int)
    requires
        talk.of(job),
        0 <= i < talk.states.len(),
    ensures
        talk.states[i].asked() matches Some(Request::WriteAtomic(path, bytes)) ==> {
            &&& path == job.journal
            &&& talk.heard(i, Request::Encode, Reply::Bytes(bytes))
            &&& job.home matches Some(home) ==> talk.housed(i, home)
        },
{
    lemma_conducted_throughout(talk, job, i);
    match talk.states[i].phase {
        Phase::Lone(ExecPhase::Landing(script, _)) => {
            assert(script.requests[script.at] == script.current());
        },
        Phase::Op(_, ExecPhase::Landing(script, _)) => {
            assert(script.requests[script.at] == script.current());
        },
        Phase::LoneFlush(script) => {
            assert(script.requests[script.at] is Sync);
        },
        Phase::Certify(script) => {
            assert(script.requests[script.at] is Sync);
        },
        Phase::HomeFlush(script) => {
            let made = choose|made: Seq<PathView>| #[trigger]
                homing_of(talk, job, i, script, made);
            assert(script.requests[script.at] is Sync);
        },
        Phase::Unwind(_, left) => {
            lemma_reversal(left.undo.last(), left.dirs);
            assert(unwind::reversal(left.undo.last(), left.dirs)[left.at] == left.current());
        },
        Phase::Withdraw(_, script) => {
            assert(script.requests[script.at] == script.current());
        },
        Phase::Abort(_, script) => {
            assert(script.requests[script.at] == script.current());
        },
        _ => {},
    }
}

/// A set waits for the device once when it has landed. While its operations land, and while they are
/// reversed, nothing is flushed but by barriers; what is left is handed over, and one drain of the
/// root comes last: once that is done, the set has ended well, or its journal goes.
pub proof fn law_set_drains_once(job: JobView, talk: Talk, i: int)
    requires
        talk.of(job),
        0 <= i < talk.states.len(),
    ensures
        talk.states[i].asked() matches Some(Request::Sync(path, need)) ==> match talk.states[i].phase {
            Phase::Lone(_) | Phase::Op(_, _) | Phase::Unwind(_, _) => need == Durability::Ordered,
            Phase::LoneFlush(_) | Phase::Certify(_) => {
                &&& need == Durability::Pushed || need == Durability::Durable
                &&& need == Durability::Durable ==> path == job.site.root
                &&& i < talk.replies.len() && need == Durability::Durable && talk.replies[i] is Done
                    ==> (talk.states[i + 1].ended() matches Some(Ok(()))) || talk.states[i
                    + 1].asked() == Some(RequestView::Remove(job.journal))
            },
            _ => true,
        },
{
    lemma_conducted_throughout(talk, job, i);
    if i < talk.replies.len() {
        assert(talk.steps(i));
    }
    match talk.states[i].phase {
        Phase::Lone(ExecPhase::Landing(script, _)) => {
            assert(script.requests[script.at] == script.current());
        },
        Phase::Op(_, ExecPhase::Landing(script, _)) => {
            assert(script.requests[script.at] == script.current());
        },
        Phase::LoneFlush(script) => {
            assert(script.requests[script.at] is Sync);
        },
        Phase::Certify(script) => {
            assert(script.requests[script.at] is Sync);
        },
        Phase::Unwind(_, left) => {
            lemma_reversal(left.undo.last(), left.dirs);
            assert(unwind::reversal(left.undo.last(), left.dirs)[left.at] == left.current());
        },
        _ => {},
    }
}

/// An operation that needs no journal is not preceded by a look at what it replaces: it reads nothing
/// but what it copies, and asks about a link only where it sets an execute bit.
pub proof fn law_lone_operation_asks_no_more(job: JobView, talk: Talk, i: int)
    requires
        talk.of(job),
        !job.site.recording,
        0 <= i < talk.states.len(),
        talk.states[i].phase is Lone,
    ensures
        match talk.states[i].asked() {
            Some(Request::Read(path)) => job.changes.ops[0] matches FileOp::CopyFrom { source, .. }
                && path == path::joined(job.site.root, source),
            Some(Request::ReadLink(path)) => job.changes.ops[0] matches FileOp::SetExecutable {
                path: set,
                ..
            } && path == path::joined(job.site.root, set),
            Some(Request::Executable(_)) | Some(Request::Exists(_)) | Some(Request::Encode) => false,
            _ => true,
        },
{
    lemma_direct(talk, job, i);
    lemma_conducted_throughout(talk, job, i);
    if let Phase::Lone(ExecPhase::Landing(script, _)) = talk.states[i].phase {
        assert(script.requests[script.at] == script.current());
    }
}

/// An operation of which nothing is recorded goes straight to its work.
spec fn direct(op: OpView, phase: ExecPhaseView) -> bool {
    match phase {
        ExecPhase::Guarding => op is SetExecutable,
        ExecPhase::Sourcing => op is CopyFrom,
        ExecPhase::Landing(_, _) => true,
        _ => false,
    }
}

/// An operation of which nothing is recorded goes straight to its work, in every state.
proof fn lemma_direct(talk: Talk, job: JobView, i: int)
    requires
        talk.of(job),
        !job.site.recording,
        0 <= i < talk.states.len(),
    ensures
        talk.states[i].job == job,
        talk.states[i].phase matches Phase::Lone(phase) ==> direct(job.ops()[0], phase),
    decreases i,
{
    if i > 0 {
        lemma_direct(talk, job, i - 1);
        assert(talk.steps(i - 1));
    }
}

/// What cannot be reversed does not keep the rest from being reversed: the next to reverse is always
/// the one before, and as long as there is one the application goes on with it.
pub proof fn law_failed_reversal_spares_the_rest(
    job: JobView,
    talk: Talk,
    i: int,
    left: unwind::UnwindView,
)
    requires
        talk.of(job),
        0 <= i < talk.replies.len(),
        talk.states[i].phase matches Phase::Unwind(_, now) && now == left,
        left.undo.len() > 1,
    ensures
        talk.states[i + 1].phase matches Phase::Unwind(_, rest) && (rest.undo == left.undo
            || rest.undo == left.undo.drop_last()),
{
    lemma_conducted_throughout(talk, job, i);
    assert(talk.steps(i));
}

} // verus!
