//! What the application of a batch ends in and why, how it goes about its work, and what staging one
//! comes to.

use crate::change;
use crate::error::Error;
use crate::flush;
use crate::ordered::{self, BatchApplyView, BatchOpView, BatchPhase, BatchView};
use crate::path::{self, PathView};
use crate::port::{self, Durability, ReplyView, Request, RequestView};
use crate::script::ScriptView;
use crate::tiers;
use vstd::prelude::*;

verus! {

/// The application of a batch from its beginning: the states it was in, and what was answered from
/// each to the next. Nothing is said of whether the answers are true.
pub struct BatchTalk {
    /// The states.
    pub states: Seq<BatchApplyView>,
    /// What was answered.
    pub replies: Seq<ReplyView>,
}

impl BatchTalk {
    /// Whether something was asked in state `i`, the answer is one to that, and the next state is
    /// what it makes of this one.
    pub open spec fn steps(self, i: int) -> bool {
        &&& self.states[i].asked() matches Some(request) && port::answers(request, self.replies[i])
        &&& self.states[i + 1] == self.states[i].resumed(self.replies[i])
    }

    /// Whether this is an application of the batch `tiers`, as far as it has come.
    pub open spec fn of(
        self,
        tiers: BatchView,
        root: PathView,
        atomic: bool,
        finality: Durability,
    ) -> bool {
        &&& self.states.len() == self.replies.len() + 1
        &&& self.states[0] == BatchApplyView::of(tiers, root, atomic, finality)
        &&& forall|i: int| 0 <= i < self.replies.len() ==> #[trigger] self.steps(i)
    }

    /// Whether no answer before state `i` was a failure.
    pub open spec fn unfailed(self, i: int) -> bool {
        forall|j: int| 0 <= j < i ==> !(#[trigger] self.replies[j] is Failed)
    }
}

/// Whether every file of a batch lands inside the root.
pub open spec fn batch_inside(tiers: BatchView) -> bool {
    forall|t: int, i: int|
        0 <= t < tiers.len() && 0 <= i < tiers[t].len() ==> path::stays_inside(
            ordered::lands_at(#[trigger] tiers[t][i]),
        )
}

/// A path that leaves the root is found among those of a tier exactly if one does.
proof fn lemma_tier_outside(tier: Seq<BatchOpView>)
    ensures
        change::first_outside(ordered::tier_paths(tier)) is None <==> forall|i: int|
            0 <= i < tier.len() ==> path::stays_inside(ordered::lands_at(#[trigger] tier[i])),
{
    let paths = ordered::tier_paths(tier);
    change::law_guard_is_exact(paths);
    if change::first_outside(paths) is None {
        assert forall|i: int| 0 <= i < tier.len() implies path::stays_inside(
            ordered::lands_at(#[trigger] tier[i]),
        ) by {
            assert(path::stays_inside(paths[i]));
        }
    } else if forall|i: int|
        0 <= i < tier.len() ==> path::stays_inside(ordered::lands_at(#[trigger] tier[i])) {
        assert forall|i: int| 0 <= i < paths.len() implies path::stays_inside(#[trigger] paths[i]) by {
            assert(path::stays_inside(ordered::lands_at(tier[i])));
        }
    }
}

/// A path that leaves the root is found among those of a batch exactly if one does.
proof fn lemma_batch_outside(tiers: BatchView)
    ensures
        change::first_outside(ordered::batch_paths(tiers)) is None <==> batch_inside(tiers),
    decreases tiers.len(),
{
    if tiers.len() > 0 {
        let rest = tiers.skip(1);
        lemma_batch_outside(rest);
        lemma_tier_outside(tiers[0]);
        change::lemma_first_outside_of_sum(
            ordered::tier_paths(tiers[0]),
            ordered::batch_paths(rest),
        );
        if batch_inside(tiers) {
            assert forall|i: int| 0 <= i < tiers[0].len() implies path::stays_inside(
                ordered::lands_at(#[trigger] tiers[0][i]),
            ) by {}
            assert forall|t: int, i: int|
                0 <= t < rest.len() && 0 <= i < rest[t].len() implies path::stays_inside(
                ordered::lands_at(#[trigger] rest[t][i]),
            ) by {
                assert(rest[t][i] == tiers[t + 1][i]);
            }
        }
        if batch_inside(rest) && change::first_outside(ordered::tier_paths(tiers[0])) is None {
            assert forall|t: int, i: int|
                0 <= t < tiers.len() && 0 <= i < tiers[t].len() implies path::stays_inside(
                ordered::lands_at(#[trigger] tiers[t][i]),
            ) by {
                if t > 0 {
                    assert(tiers[t][i] == rest[t - 1][i]);
                }
            }
        }
    }
}

/// Whether `script` hands paths over, and carries `root` as far as `need` last, if more than handing
/// over is asked for.
spec fn bars_once(script: ScriptView, root: PathView, need: Durability) -> bool {
    &&& script.pending()
    &&& forall|m: int|
        0 <= m < script.requests.len() ==> (#[trigger] script.requests[m] matches Request::Sync(
            path,
            far,
        ) && (far == Durability::Pushed || (m == script.requests.len() - 1 && path == root && far
            == need)))
}

/// What is known in state `i`.
spec fn led(talk: BatchTalk, i: int) -> bool {
    let state = talk.states[i];
    let job = state.job;
    &&& job == talk.states[0].job
    &&& job.sound(state.phase)
    &&& match state.phase {
        BatchPhase::Making(_, _) => talk.unfailed(i),
        BatchPhase::Landing(t, k) => {
            &&& talk.unfailed(i)
            &&& path::parent_of(job.full(t, k)) matches Some(dir) ==> {
                &&& i > 0
                &&& talk.states[i - 1].asked() == Some(RequestView::CreateDirs(dir))
                &&& talk.replies[i - 1] is Made
            }
        },
        BatchPhase::Flushing(t, script) => talk.unfailed(i) && bars_once(
            script,
            job.root,
            job.need(t),
        ),
        BatchPhase::Finished(Ok(())) => talk.unfailed(i),
        BatchPhase::Finished(Err(Error::Io(fault))) => {
            &&& i > 0
            &&& talk.replies[i - 1] == ReplyView::Failed(fault)
            &&& talk.unfailed(i - 1)
        },
        BatchPhase::Finished(Err(Error::Escape(path))) => i == 0 && !path::stays_inside(path),
        BatchPhase::Finished(Err(_)) => false,
    }
}

/// A flush of many paths bars once.
proof fn lemma_bars_once(paths: Seq<PathView>, root: PathView, need: Durability)
    requires
        paths.len() > 0,
    ensures
        bars_once(ScriptView::of(flush::flushing(paths, root, need)), root, need),
{
}

/// What is known in every state.
proof fn lemma_led(
    talk: BatchTalk,
    tiers: BatchView,
    root: PathView,
    atomic: bool,
    finality: Durability,
    i: int,
)
    requires
        talk.of(tiers, root, atomic, finality),
        0 <= i < talk.states.len(),
    ensures
        led(talk, i),
    decreases i,
{
    tiers::lemma_filled(tiers);
    let job = talk.states[0].job;
    assert(forall|t: int| 0 <= t < job.tiers.len() ==> (#[trigger] job.tiers[t]).len() > 0);
    if i == 0 {
        change::law_guard_is_exact(ordered::batch_paths(tiers));
        if job.tiers.len() > 0 {
            assert(job.tiers[0].len() > 0);
        }
    } else {
        lemma_led(talk, tiers, root, atomic, finality, i - 1);
        assert(talk.steps(i - 1));
        let (state, reply) = (talk.states[i - 1], talk.replies[i - 1]);
        match state.phase {
            BatchPhase::Landing(t, k) => {
                let debts = state.debts.landing(job.full(t, k), job.owes(t, k));
                if debts.all().len() > 0 {
                    lemma_bars_once(debts.all(), job.root, job.need(t));
                }
                if t + 1 < job.tiers.len() {
                    assert(job.tiers[t + 1].len() > 0);
                }
            },
            BatchPhase::Flushing(t, script) => {
                assert(script.requests[script.at] is Sync);
                if t + 1 < job.tiers.len() {
                    assert(job.tiers[t + 1].len() > 0);
                }
            },
            _ => {},
        }
    }
}

/// A batch is refused exactly if a file of it would land outside the root, and names one that would.
pub proof fn law_every_batch_path_is_judged(
    tiers: BatchView,
    root: PathView,
    atomic: bool,
    finality: Durability,
)
    ensures
        ({
            let ended = BatchApplyView::of(tiers, root, atomic, finality).ended();
            &&& (ended matches Some(Err(_))) <==> !batch_inside(tiers)
            &&& ended matches Some(Err(e)) ==> (e matches Error::Escape(path)
                && !path::stays_inside(path))
        }),
{
    lemma_batch_outside(tiers);
    change::law_guard_is_exact(ordered::batch_paths(tiers));
}

/// A batch that ends as failed ends by the first answer that is a failure, and tells it. As long as no
/// answer is a failure it goes on or ends well; nothing else ends it but a path outside the root,
/// before anything is asked.
pub proof fn law_batch_failure_is_what_was_answered(
    talk: BatchTalk,
    tiers: BatchView,
    root: PathView,
    atomic: bool,
    finality: Durability,
)
    requires
        talk.of(tiers, root, atomic, finality),
    ensures
        ({
            let n = talk.replies.len() as int;
            match talk.states.last().ended() {
                None => talk.unfailed(n) && talk.states.last().asked() is Some,
                Some(Ok(())) => talk.unfailed(n) && talk.states.last().asked() is None,
                Some(Err(Error::Io(fault))) => {
                    &&& n > 0
                    &&& talk.replies[n - 1] == ReplyView::Failed(fault)
                    &&& talk.unfailed(n - 1)
                    &&& talk.states.last().asked() is None
                },
                Some(Err(Error::Escape(path))) => n == 0 && !path::stays_inside(path),
                Some(Err(_)) => false,
            }
        }),
{
    lemma_led(talk, tiers, root, atomic, finality, talk.states.len() - 1);
}

/// A batch that nothing stands against is applied: if every file lands inside the root and no answer
/// is a failure, it does not end but well.
pub proof fn law_batch_that_nothing_stands_against_is_applied(
    talk: BatchTalk,
    tiers: BatchView,
    root: PathView,
    atomic: bool,
    finality: Durability,
)
    requires
        talk.of(tiers, root, atomic, finality),
        batch_inside(tiers),
        forall|i: int| 0 <= i < talk.replies.len() ==> !(#[trigger] talk.replies[i] is Failed),
    ensures
        talk.states.last().ended() matches Some(outcome) ==> outcome is Ok,
{
    law_batch_failure_is_what_was_answered(talk, tiers, root, atomic, finality);
    law_every_batch_path_is_judged(tiers, root, atomic, finality);
}

/// A file of a batch lands right after the directory that holds it, and whatever that lacks above it,
/// was made.
pub proof fn law_batch_directories_are_made_first(
    talk: BatchTalk,
    tiers: BatchView,
    root: PathView,
    atomic: bool,
    finality: Durability,
    i: int,
)
    requires
        talk.of(tiers, root, atomic, finality),
        0 <= i < talk.states.len(),
    ensures
        match talk.states[i].asked() {
            Some(Request::Replace(path, _)) | Some(Request::CreateNew(path, _)) => path::parent_of(
                path,
            ) matches Some(dir) ==> {
                &&& i > 0
                &&& talk.states[i - 1].asked() == Some(RequestView::CreateDirs(dir))
                &&& talk.replies[i - 1] is Made
            },
            Some(Request::CreateDirs(_)) | Some(Request::Sync(_, _)) | None => true,
            _ => false,
        },
{
    lemma_led(talk, tiers, root, atomic, finality, i);
    if let BatchPhase::Flushing(_, script) = talk.states[i].phase {
        assert(script.requests[script.at] is Sync);
    }
}

/// A tier takes one barrier at most, of the root, and nothing of the tier is asked after it.
pub proof fn law_tier_takes_one_barrier(
    talk: BatchTalk,
    tiers: BatchView,
    root: PathView,
    atomic: bool,
    finality: Durability,
    i: int,
    t: int,
)
    requires
        talk.of(tiers, root, atomic, finality),
        0 <= i < talk.replies.len(),
        talk.states[i].phase matches BatchPhase::Flushing(k, _) && k == t,
    ensures
        talk.states[i].asked() matches Some(Request::Sync(path, need)) && (need != Durability::Pushed
            ==> path == root && !(talk.states[i + 1].phase matches BatchPhase::Flushing(k, _) && k
            == t)),
{
    lemma_led(talk, tiers, root, atomic, finality, i);
    assert(talk.steps(i));
    if let BatchPhase::Flushing(_, script) = talk.states[i].phase {
        assert(script.requests[script.at] is Sync);
    }
}

/// Leaving out the tiers in which there is nothing loses no operation, changes no order, and leaves
/// each tier as it was.
pub proof fn law_filled_tiers_are_kept(tiers: BatchView)
    ensures
        tiers::flat(ordered::filled(tiers)) == tiers::flat(tiers),
        forall|t: int|
            0 <= t < ordered::filled(tiers).len() ==> (#[trigger] ordered::filled(tiers)[t]).len()
                > 0 && tiers.contains(ordered::filled(tiers)[t]),
    decreases tiers.len(),
{
    tiers::lemma_filled(tiers);
    if tiers.len() > 0 {
        let before = tiers.drop_last();
        law_filled_tiers_are_kept(before);
        assert forall|t: int| 0 <= t < ordered::filled(tiers).len() implies tiers.contains(
            #[trigger] ordered::filled(tiers)[t],
        ) by {
            if t < ordered::filled(before).len() {
                assert(ordered::filled(tiers)[t] == ordered::filled(before)[t]);
                let k = choose|k: int|
                    0 <= k < before.len() && before[k] == ordered::filled(before)[t];
                assert(tiers[k] == ordered::filled(tiers)[t]);
            } else {
                assert(tiers[tiers.len() - 1] == ordered::filled(tiers)[t]);
            }
        }
    }
}

/// The number of operations of a batch is that of its operations in a row.
proof fn lemma_count(tiers: BatchView)
    ensures
        ordered::count(tiers) == tiers::flat(tiers).len(),
    decreases tiers.len(),
{
    if tiers.len() > 0 {
        lemma_count(tiers.drop_last());
    }
}

/// What is staged in a batch comes behind everything that was staged before, and a barrier adds
/// nothing. The number of operations grows by one with each, and is that of those staged.
pub proof fn law_batch_staging_appends(tiers: BatchView, op: BatchOpView)
    ensures
        tiers::flat(ordered::staging(tiers, op)) == tiers::flat(tiers).push(op),
        tiers::flat(ordered::barring(tiers)) == tiers::flat(tiers),
        ordered::count(tiers) == tiers::flat(tiers).len(),
        ordered::count(ordered::staging(tiers, op)) == ordered::count(tiers) + 1,
        ordered::count(ordered::barring(tiers)) == ordered::count(tiers),
{
    let staged = ordered::staging(tiers, op);
    let barred = ordered::barring(tiers);
    lemma_count(tiers);
    lemma_count(staged);
    lemma_count(barred);
    if tiers.len() == 0 {
        assert(staged.drop_last() =~= Seq::empty());
        assert(tiers =~= Seq::empty());
        assert(tiers::flat(staged) =~= tiers::flat(tiers).push(op));
    } else {
        assert(staged.drop_last() =~= tiers.drop_last());
        assert(tiers::flat(staged) =~= tiers::flat(tiers).push(op));
        assert(tiers.push(Seq::empty()).drop_last() =~= tiers);
        assert(tiers::flat(tiers) + Seq::empty() =~= tiers::flat(tiers));
    }
}

/// An operation that is staged behind a barrier opens a tier of its own; one that is not joins the
/// last tier.
pub proof fn law_barrier_parts_tiers(tiers: BatchView, op: BatchOpView)
    ensures
        ordered::filled(ordered::staging(ordered::barring(tiers), op)) == ordered::filled(
            tiers,
        ).push(seq![op]),
        tiers.len() == 0 ==> ordered::filled(ordered::staging(tiers, op)) == seq![seq![op]],
        tiers.len() > 0 && tiers.last().len() > 0 ==> ordered::filled(
            ordered::staging(tiers, op),
        ) == ordered::filled(tiers).drop_last().push(ordered::filled(tiers).last().push(op)),
{
    let barred = ordered::barring(tiers);
    let behind = ordered::staging(barred, op);
    let beside = ordered::staging(tiers, op);
    assert(Seq::<BatchOpView>::empty().push(op) =~= seq![op]);
    if tiers.len() == 0 {
        assert(behind.drop_last() =~= Seq::empty());
        assert(tiers =~= Seq::empty());
        assert(behind.last() == seq![op]);
        assert(ordered::filled(behind.drop_last()) =~= Seq::empty());
        assert(ordered::filled(behind) =~= seq![seq![op]]);
        assert(ordered::filled(tiers).push(seq![op]) =~= seq![seq![op]]);
    } else if tiers.last().len() == 0 {
        assert(tiers.last() =~= Seq::empty());
        assert(behind.drop_last() =~= tiers.drop_last());
    } else {
        assert(behind.drop_last() =~= tiers);
        assert(beside.drop_last() =~= tiers.drop_last());
        assert(ordered::filled(tiers).drop_last() =~= ordered::filled(tiers.drop_last()));
    }
}

/// A reply that does not answer what was asked changes nothing, and neither does any reply once the
/// application has ended.
pub proof fn law_idle_reply_leaves_a_batch(state: BatchApplyView, reply: ReplyView)
    ensures
        state.asked() is None ==> state.resumed(reply) == state,
        state.asked() matches Some(request) ==> (!port::answers(request, reply) ==> state.resumed(
            reply,
        ) == state),
{
}

/// A file of a batch lands at the path that was staged for it.
pub proof fn law_batch_file_lands_where_it_was_staged(path: PathView, bytes: Seq<u8>)
    ensures
        ordered::lands_at(BatchOpView::Write { path, bytes }) == path,
        ordered::lands_at(BatchOpView::CreateNew { path, bytes }) == path,
{
}

} // verus!
