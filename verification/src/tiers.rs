//! What the application of a batch does to the tree, and what of it survives a power cut: tier by
//! tier, each before the next.

use crate::debts::{self, Unsettled};
use crate::error::Error;
use crate::exec;
use crate::flush;
use crate::ordered::{self, BatchApplyView, BatchJobView, BatchOp, BatchOpView, BatchPhase, BatchView, Debts};
use crate::path::{self, PathView};
use crate::path_set;
use crate::port::{Durability, Reply, ReplyView, Request, RequestView};
use crate::script::ScriptView;
use crate::tree::{self, Place, Store, Tree};
use vstd::prelude::*;

verus! {

/// The operations of `tiers`, in order.
pub open spec fn flat(tiers: BatchView) -> Seq<BatchOpView>
    decreases tiers.len(),
{
    if tiers.len() == 0 {
        Seq::empty()
    } else {
        flat(tiers.drop_last()) + tiers.last()
    }
}

/// What `op` puts into its file.
pub open spec fn contents_of(op: BatchOpView) -> Seq<u8> {
    match op {
        BatchOp::Write { bytes, .. } => bytes,
        BatchOp::CreateNew { bytes, .. } => bytes,
    }
}

impl Store {
    /// The place of the file that `op`, run from `root`, puts down.
    pub open spec fn place_of(self, root: PathView, op: BatchOpView) -> Place {
        self.place(path::joined(root, ordered::lands_at(op)))
    }

    /// The tree with the files of `ops`, run in order from `root`, put down.
    pub open spec fn filed(self, root: PathView, tree: Tree, ops: Seq<BatchOpView>) -> Tree
        decreases ops.len(),
    {
        if ops.len() == 0 {
            tree
        } else {
            tree::with_file(
                self.filed(root, tree, ops.drop_last()),
                self.place_of(root, ops.last()),
                contents_of(ops.last()),
            )
        }
    }

    /// Whether every file that `ops` are to create was not there when its turn came.
    pub open spec fn creates(self, root: PathView, tree: Tree, ops: Seq<BatchOpView>) -> bool {
        forall|n: int|
            0 <= n < ops.len() && (#[trigger] ops[n]) is CreateNew ==> tree::node(
                self.filed(root, tree, ops.take(n)),
                self.place_of(root, ops[n]),
            ) is None
    }
}

impl Store {
    /// Whether the first `n` of `ops` have landed, and at most the next was begun.
    pub open spec fn first_landed(
        self,
        root: PathView,
        before: Tree,
        after: Tree,
        ops: Seq<BatchOpView>,
        n: int,
    ) -> bool {
        let whole = self.filed(root, before, ops.take(n));
        &&& 0 <= n <= ops.len()
        &&& self.creates(root, before, ops.take(n))
        &&& after == whole || (n < ops.len() && tree::same_but(
            whole,
            after,
            self.place_of(root, ops[n]),
        ))
    }

    /// Whether some first operations among `ops` have landed, and at most the next was begun.
    pub open spec fn some_landed(
        self,
        root: PathView,
        before: Tree,
        after: Tree,
        ops: Seq<BatchOpView>,
    ) -> bool {
        exists|n: int| #[trigger] self.first_landed(root, before, after, ops, n)
    }

    /// Whether some first operations among `ops` have landed, and nothing else was begun.
    pub open spec fn just_landed(
        self,
        root: PathView,
        before: Tree,
        after: Tree,
        ops: Seq<BatchOpView>,
    ) -> bool {
        exists|n: int| #[trigger]
            self.first_landed(root, before, after, ops, n) && after == self.filed(
                root,
                before,
                ops.take(n),
            )
    }
}

/// The application of a batch from its beginning: the states it was in, what the storage held in
/// each, and what it answered from each to the next.
pub struct BatchRun {
    /// The states.
    pub states: Seq<BatchApplyView>,
    /// What the storage held.
    pub trees: Seq<Tree>,
    /// What the storage answered.
    pub replies: Seq<ReplyView>,
}

impl BatchRun {
    /// Whether the storage did what was asked in state `i`, and the next state is what its answer
    /// makes of that.
    pub open spec fn steps(self, store: Store, i: int) -> bool {
        &&& self.states[i].asked() matches Some(request) && store.does(
            self.trees[i],
            request,
            self.replies[i],
            self.trees[i + 1],
        )
        &&& self.states[i + 1] == self.states[i].resumed(self.replies[i])
    }

    /// Whether this is an application of the batch `tiers` by `store`, as far as it has come.
    pub open spec fn of(
        self,
        store: Store,
        tiers: BatchView,
        root: PathView,
        finality: Durability,
    ) -> bool {
        &&& self.states.len() == self.replies.len() + 1
        &&& self.trees.len() == self.states.len()
        &&& self.states[0] == BatchApplyView::of(tiers, root, store.atomic, finality)
        &&& forall|i: int| 0 <= i < self.replies.len() ==> #[trigger] self.steps(store, i)
    }
}

/// Leaving out the empty tiers leaves out no operation, and no empty tier is left.
pub(crate) proof fn lemma_filled(tiers: BatchView)
    ensures
        flat(ordered::filled(tiers)) == flat(tiers),
        forall|t: int|
            0 <= t < ordered::filled(tiers).len() ==> (#[trigger] ordered::filled(tiers)[t]).len()
                > 0,
    decreases tiers.len(),
{
    if tiers.len() > 0 {
        let before = tiers.drop_last();
        lemma_filled(before);
        let rest = ordered::filled(before);
        if tiers.last().len() == 0 {
            assert(flat(before) + tiers.last() =~= flat(before));
        } else {
            assert(rest.push(tiers.last()).drop_last() =~= rest);
        }
    }
}

/// The first tiers hold the first operations.
proof fn lemma_flat_prefix(tiers: BatchView, t: int, i: int)
    requires
        0 <= t < tiers.len(),
        0 <= i <= tiers[t].len(),
    ensures
        ({
            let before = flat(tiers.take(t));
            let n = before.len() as int + i;
            &&& n <= flat(tiers).len()
            &&& flat(tiers).take(n) == before + tiers[t].take(i)
            &&& i < tiers[t].len() ==> n < flat(tiers).len() && flat(tiers)[n] == tiers[t][i]
            &&& before + tiers[t] == flat(tiers.take(t + 1))
        }),
    decreases tiers.len() - t,
{
    let before = flat(tiers.take(t));
    let more = tiers.take(t + 1);
    assert(more.drop_last() =~= tiers.take(t));
    assert(more.last() == tiers[t]);
    assert(flat(more) == before + tiers[t]);
    let n = before.len() as int + i;
    if t == tiers.len() - 1 {
        assert(more =~= tiers);
        assert(flat(tiers).take(n) =~= before + tiers[t].take(i));
    } else {
        lemma_flat_prefix(tiers, t + 1, 0);
        let next = flat(more);
        assert(flat(tiers).take(next.len() as int) == next + tiers[t + 1].take(0));
        assert(tiers[t + 1].take(0) =~= Seq::empty());
        assert(next + tiers[t + 1].take(0) =~= next);
        assert(flat(tiers).take(n) =~= flat(tiers).take(next.len() as int).take(n));
        assert(next.take(n) =~= before + tiers[t].take(i));
        if i < tiers[t].len() {
            assert(flat(tiers)[n] == flat(tiers).take(next.len() as int)[n]);
        }
    }
}

/// Whether exactly the first `n` operations of `job` have landed on `first`.
spec fn landed(store: Store, job: BatchJobView, first: Tree, now: Tree, n: int) -> bool {
    &&& 0 <= n <= flat(job.tiers).len()
    &&& now == store.filed(job.root, first, flat(job.tiers).take(n))
    &&& store.creates(job.root, first, flat(job.tiers).take(n))
}

/// The number of the operation that `phase` is at.
spec fn turn(job: BatchJobView, t: int, i: int) -> int {
    flat(job.tiers.take(t)).len() as int + i
}

/// What is known of the application of a batch.
spec fn known(store: Store, job: BatchJobView, first: Tree, state: BatchApplyView, now: Tree) -> bool {
    let all = flat(job.tiers);
    &&& state.job == job
    &&& job.sound(state.phase)
    &&& match state.phase {
        BatchPhase::Making(t, i) => landed(store, job, first, now, turn(job, t, i)),
        BatchPhase::Landing(t, i) => landed(store, job, first, now, turn(job, t, i)),
        BatchPhase::Flushing(t, script) => {
            &&& landed(store, job, first, now, turn(job, t + 1, 0))
            &&& forall|j: int|
                0 <= j < script.requests.len() ==> (#[trigger] script.requests[j]) is Sync
        },
        BatchPhase::Finished(Ok(())) => landed(store, job, first, now, all.len() as int),
        BatchPhase::Finished(Err(Error::Io(_))) => store.some_landed(job.root, first, now, all),
        BatchPhase::Finished(Err(_)) => now == first,
    }
}

/// One more operation lands.
proof fn lemma_one_more(
    store: Store,
    job: BatchJobView,
    first: Tree,
    now: Tree,
    after: Tree,
    t: int,
    i: int,
)
    requires
        0 <= t < job.tiers.len(),
        0 <= i < job.tiers[t].len(),
        landed(store, job, first, now, turn(job, t, i)),
        after == tree::with_file(
            now,
            store.place_of(job.root, job.tiers[t][i]),
            contents_of(job.tiers[t][i]),
        ),
        job.tiers[t][i] is CreateNew ==> tree::node(
            now,
            store.place_of(job.root, job.tiers[t][i]),
        ) is None,
    ensures
        landed(store, job, first, after, turn(job, t, i + 1)),
{
    let all = flat(job.tiers);
    let n = turn(job, t, i);
    lemma_flat_prefix(job.tiers, t, i);
    let ops = all.take(n + 1);
    assert(ops.drop_last() =~= all.take(n));
    assert(ops.last() == job.tiers[t][i]);
    assert forall|m: int| 0 <= m < ops.len() && (#[trigger] ops[m]) is CreateNew implies tree::node(
        store.filed(job.root, first, ops.take(m)),
        store.place_of(job.root, ops[m]),
    ) is None by {
        assert(ops.take(m) =~= all.take(n).take(m));
        if m < n {
            assert(all.take(n)[m] == ops[m]);
        } else {
            assert(all.take(n).take(m) =~= all.take(n));
        }
    }
}

/// A file that failed to land has changed nothing elsewhere.
proof fn lemma_begun_at_most(
    store: Store,
    job: BatchJobView,
    t: int,
    i: int,
    now: Tree,
    reply: ReplyView,
    after: Tree,
)
    requires
        store.does(now, job.landing(t, i), reply, after),
        reply is Failed,
    ensures
        after == now || tree::same_but(now, after, store.place_of(job.root, job.tiers[t][i])),
{
    let place = store.place_of(job.root, job.tiers[t][i]);
    assert forall|bytes: Seq<u8>| tree::same_but(
        now,
        #[trigger] tree::with_file(now, place, bytes),
        place,
    ) by {
        assert(tree::with_file(now, place, bytes).remove(place) =~= now.remove(place));
    }
}

/// What is known when a tier begins.
proof fn lemma_tier_begins(
    store: Store,
    job: BatchJobView,
    first: Tree,
    state: BatchApplyView,
    t: int,
    now: Tree,
)
    requires
        forall|k: int| 0 <= k < job.tiers.len() ==> (#[trigger] job.tiers[k]).len() > 0,
        0 <= t <= job.tiers.len(),
        state.job == job,
        state.phase == job.tier_begun(t).0,
        landed(store, job, first, now, turn(job, t, 0)),
    ensures
        known(store, job, first, state, now),
{
    if t == job.tiers.len() {
        assert(job.tiers.take(t) =~= job.tiers);
    } else {
        assert(job.tiers[t].len() > 0);
    }
}

/// What is known after one more answer.
proof fn lemma_known(
    store: Store,
    job: BatchJobView,
    first: Tree,
    state: BatchApplyView,
    reply: ReplyView,
    now: Tree,
    after: Tree,
)
    requires
        forall|k: int| 0 <= k < job.tiers.len() ==> (#[trigger] job.tiers[k]).len() > 0,
        known(store, job, first, state, now),
        state.asked() matches Some(request) && store.does(now, request, reply, after),
    ensures
        known(store, job, first, state.resumed(reply), after),
{
    let next = state.resumed(reply);
    let all = flat(job.tiers);
    match state.phase {
        BatchPhase::Making(t, i) => {
            if reply is Failed {
                assert(store.first_landed(job.root, first, after, all, turn(job, t, i)));
            }
        },
        BatchPhase::Landing(t, i) => {
            lemma_flat_prefix(job.tiers, t, i);
            if reply is Done {
                lemma_one_more(store, job, first, now, after, t, i);
                let debts = state.debts.landing(job.full(t, i), job.owes(t, i));
                let requests = flush::flushing(debts.all(), job.root, job.need(t));
                if i + 1 >= job.tiers[t].len() {
                    assert(flat(job.tiers.take(t)) + job.tiers[t] == flat(job.tiers.take(t + 1)));
                    assert(turn(job, t, i + 1) == turn(job, t + 1, 0));
                    if requests.len() == 0 {
                        lemma_tier_begins(store, job, first, next, t + 1, after);
                    }
                }
            } else {
                lemma_begun_at_most(store, job, t, i, now, reply, after);
                assert(store.first_landed(job.root, first, after, all, turn(job, t, i)));
            }
        },
        BatchPhase::Flushing(t, script) => {
            assert(script.requests[script.at] is Sync);
            if reply is Done {
                if !script.advanced().pending() {
                    lemma_tier_begins(store, job, first, next, t + 1, after);
                }
            } else {
                assert(store.first_landed(job.root, first, after, all, turn(job, t + 1, 0)));
            }
        },
        BatchPhase::Finished(_) => {},
    }
}

/// What is known of every state of a run.
proof fn lemma_known_throughout(
    store: Store,
    tiers: BatchView,
    root: PathView,
    finality: Durability,
    run: BatchRun,
    i: int,
)
    requires
        run.of(store, tiers, root, finality),
        0 <= i < run.states.len(),
    ensures
        run.states[0].job.tiers == ordered::filled(tiers),
        run.states[0].job.root == root,
        known(store, run.states[0].job, run.trees[0], run.states[i], run.trees[i]),
    decreases i,
{
    let job = run.states[0].job;
    let first = run.trees[0];
    lemma_filled(tiers);
    if i == 0 {
        assert(job.tiers.take(0) =~= Seq::empty());
        assert(flat(job.tiers).take(0) =~= Seq::empty());
        assert(landed(store, job, first, first, 0));
        if run.states[0].phase == job.tier_begun(0).0 {
            lemma_tier_begins(store, job, first, run.states[0], 0, first);
        }
    } else {
        lemma_known_throughout(store, tiers, root, finality, run, i - 1);
        assert(run.steps(store, i - 1));
        lemma_known(
            store,
            job,
            first,
            run.states[i - 1],
            run.replies[i - 1],
            run.trees[i - 1],
            run.trees[i],
        );
    }
}

/// A batch lands in the order in which it was staged. If its application ends well, every file is
/// there; if it stops at a failure, the files before some operation are there, that of this
/// operation may have been begun, and nothing else has changed. Wherever it is cut off on its way,
/// between two requests, the files before some operation are there and nothing else has changed. A
/// file that is to be created is never put over another.
pub proof fn law_batch_lands_in_order(
    store: Store,
    tiers: BatchView,
    root: PathView,
    finality: Durability,
    run: BatchRun,
)
    requires
        run.of(store, tiers, root, finality),
    ensures
        ({
            let (first, now, ops) = (run.trees[0], run.trees.last(), flat(tiers));
            match run.states.last().ended() {
                Some(Ok(())) => now == store.filed(root, first, ops) && store.creates(
                    root,
                    first,
                    ops,
                ),
                Some(Err(Error::Io(_))) => store.some_landed(root, first, now, ops),
                Some(Err(_)) => now == first,
                None => store.just_landed(root, first, now, ops),
            }
        }),
{
    lemma_known_throughout(store, tiers, root, finality, run, run.states.len() - 1);
    lemma_filled(tiers);
    let ops = flat(tiers);
    assert(ops.take(ops.len() as int) =~= ops);
    let job = run.states[0].job;
    let n = match run.states.last().phase {
        BatchPhase::Making(t, i) => turn(job, t, i),
        BatchPhase::Landing(t, i) => turn(job, t, i),
        BatchPhase::Flushing(t, _) => turn(job, t + 1, 0),
        BatchPhase::Finished(_) => 0,
    };
    if run.states.last().ended() is None {
        assert(store.first_landed(root, run.trees[0], run.trees.last(), ops, n));
    }
}

/// No tier is begun before every file of the tiers before it is there: neither is a directory made
/// for its first file, nor that file landed.
pub proof fn law_tier_follows_whole_tiers(
    store: Store,
    tiers: BatchView,
    root: PathView,
    finality: Durability,
    run: BatchRun,
    i: int,
    t: int,
)
    requires
        run.of(store, tiers, root, finality),
        0 <= i < run.states.len(),
        run.states[i].phase == BatchPhase::<PathView, Seq<u8>, int, ScriptView>::Making(t, 0)
            || run.states[i].phase == BatchPhase::<PathView, Seq<u8>, int, ScriptView>::Landing(
            t,
            0,
        ),
    ensures
        run.trees[i] == store.filed(root, run.trees[0], flat(ordered::filled(tiers).take(t))),
{
    lemma_known_throughout(store, tiers, root, finality, run, i);
    let job = run.states[0].job;
    lemma_flat_prefix(job.tiers, t, 0);
    assert(job.tiers[t].take(0) =~= Seq::empty());
    assert(flat(job.tiers.take(t)) + job.tiers[t].take(0) =~= flat(job.tiers.take(t)));
}

/// A batch with a path outside the root is refused before anything is asked of the storage.
pub proof fn law_batch_escape_asks_nothing(
    tiers: BatchView,
    root: PathView,
    atomic: bool,
    finality: Durability,
)
    requires
        crate::change::first_outside(ordered::batch_paths(tiers)) is Some,
    ensures
        ({
            let state = BatchApplyView::of(tiers, root, atomic, finality);
            &&& state.asked() is None
            &&& state.ended() matches Some(Err(Error::Escape(path))) && Some(path)
                == crate::change::first_outside(ordered::batch_paths(tiers))
        }),
{
}

/// A barrier with nothing to order costs nothing: not a second one behind another, and not one
/// before the first operation or behind the last.
pub proof fn law_idle_barriers_cost_nothing(tiers: BatchView)
    ensures
        ordered::barring(ordered::barring(tiers)) == ordered::barring(tiers),
        ordered::barring(Seq::empty()) == Seq::<Seq<BatchOpView>>::empty(),
        ordered::filled(ordered::barring(tiers)) == ordered::filled(tiers),
{
    assert(tiers.push(Seq::empty()).drop_last() =~= tiers);
}

/// The tiers that a batch shows are the tiers that are applied.
pub proof fn law_shown_tiers_are_applied(tiers: BatchView)
    requires
        forall|i: int| 0 <= i < tiers.len() - 1 ==> (#[trigger] tiers[i]).len() > 0,
    ensures
        ordered::filled(tiers) == ordered::closed(tiers),
{
    if tiers.len() > 0 {
        lemma_all_filled(tiers.drop_last());
        if tiers.last().len() > 0 {
            assert(tiers.drop_last().push(tiers.last()) =~= tiers);
        }
    }
}

/// Where no tier is empty none is left out.
proof fn lemma_all_filled(tiers: BatchView)
    requires
        forall|i: int| 0 <= i < tiers.len() ==> (#[trigger] tiers[i]).len() > 0,
    ensures
        ordered::filled(tiers) == tiers,
    decreases tiers.len(),
{
    if tiers.len() > 0 {
        assert forall|i: int| 0 <= i < tiers.drop_last().len() implies (
        #[trigger] tiers.drop_last()[i]).len() > 0 by {
            assert(tiers.drop_last()[i] == tiers[i]);
        }
        lemma_all_filled(tiers.drop_last());
        assert(tiers[tiers.len() - 1].len() > 0);
        assert(tiers.drop_last().push(tiers.last()) =~= tiers);
    }
}

/// The application of a batch from its beginning: the states it was in, what the storage owed in
/// each, and what it answered from each to the next.
pub struct BatchCourse {
    /// The states.
    pub states: Seq<BatchApplyView>,
    /// What the storage owed.
    pub owed: Seq<Unsettled>,
    /// What the storage answered.
    pub replies: Seq<ReplyView>,
}

impl BatchCourse {
    /// Whether the storage did what was asked in state `i`, and the next state is what its answer
    /// makes of that.
    pub open spec fn steps(self, store: Store, i: int) -> bool {
        &&& self.states[i].asked() matches Some(request) && store.defers(
            self.owed[i],
            request,
            self.replies[i],
            self.owed[i + 1],
        )
        &&& self.states[i + 1] == self.states[i].resumed(self.replies[i])
    }

    /// Whether this is an application of the batch `tiers` by `store`, which owed nothing at first.
    pub open spec fn of(
        self,
        store: Store,
        tiers: BatchView,
        root: PathView,
        finality: Durability,
    ) -> bool {
        &&& self.states.len() == self.replies.len() + 1
        &&& self.owed.len() == self.states.len()
        &&& self.states[0] == BatchApplyView::of(tiers, root, store.atomic, finality)
        &&& self.owed[0].nothing()
        &&& forall|i: int| 0 <= i < self.replies.len() ==> #[trigger] self.steps(store, i)
    }
}

/// Whether every operation of `job` says which directory its entry is in. A lone name below an
/// empty root does not.
pub open spec fn rooted(root: PathView, tiers: BatchView) -> bool {
    forall|t: int, i: int|
        0 <= t < tiers.len() && 0 <= i < tiers[t].len() ==> path::parent_of(
            path::joined(root, ordered::lands_at(#[trigger] tiers[t][i])),
        ) is Some
}

impl Unsettled {
    /// Whether everything that was asked for is flushed as far as `need`.
    pub open spec fn reached(self, need: Durability) -> bool {
        &&& self.loose == Set::<Place>::empty()
        &&& self.fresh == Set::<Place>::empty()
        &&& need != Durability::Pushed ==> !self.handed
        &&& need == Durability::Durable ==> !self.undrained
    }
}

/// Whether everything that is owed is among what the tier has to flush.
spec fn on_the_books(store: Store, debts: Debts, owed: Unsettled) -> bool {
    &&& owed.loose.subset_of(store.places(debts.all()))
    &&& owed.fresh.subset_of(store.places(debts.all()))
}

/// What is known of what is owed while a batch is applied.
spec fn settled(store: Store, job: BatchJobView, state: BatchApplyView, owed: Unsettled) -> bool {
    &&& state.job == job
    &&& job.sound(state.phase)
    &&& match state.phase {
        BatchPhase::Making(t, i) => {
            &&& on_the_books(store, state.debts, owed)
            &&& i == 0 && t > 0 ==> owed.reached(Durability::Ordered)
            &&& path_set::has(state.debts.dirs, path::parent_of(job.full(t, i))->0)
        },
        BatchPhase::Landing(t, i) => {
            &&& on_the_books(store, state.debts, owed)
            &&& path_set::has(state.debts.dirs, path::parent_of(job.full(t, i))->0)
        },
        BatchPhase::Flushing(t, script) => {
            let end = script.requests.len() as int;
            &&& owed.loose.subset_of(
                debts::left_to_flush(store, script.requests, script.at, end),
            )
            &&& owed.fresh.subset_of(
                debts::left_to_flush(store, script.requests, script.at, end),
            )
            &&& forall|j: int|
                0 <= j < script.requests.len() ==> (#[trigger] script.requests[j]) is Sync
            &&& job.need(t) != Durability::Pushed ==> script.requests.last() == RequestView::Sync(
                job.root,
                job.need(t),
            )
        },
        BatchPhase::Finished(Ok(())) => job.tiers.len() == 0 && owed.nothing() || owed.reached(
            job.finality,
        ),
        BatchPhase::Finished(Err(_)) => true,
    }
}

/// The directory that an operation lands in is among what the tier has to flush.
proof fn lemma_entry_on_the_books(store: Store, debts: Debts, path: PathView)
    requires
        path::parent_of(path) is Some ==> path_set::has(debts.dirs, path::parent_of(path)->0),
    ensures
        store.entry_of(path).subset_of(store.places(debts.all())),
{
    if let Some(dir) = path::parent_of(path) {
        let k = choose|k: int| 0 <= k < debts.dirs.len() && path::same(
            #[trigger] debts.dirs[k],
            dir,
        );
        let n = debts.files.len() as int + k;
        assert(debts.all()[n] == debts.dirs[k]);
        assert(store.place(debts.all()[n]) == store.place(dir));
    }
}

/// With more directories to flush, their places are on the books besides.
proof fn lemma_more_dirs(store: Store, debts: Debts, dirs: Seq<PathView>)
    ensures
        store.places(debts.in_dirs(dirs).all()) == store.places(debts.all()).union(
            store.places(dirs),
        ),
        forall|dir: PathView|
            path_set::has(debts.dirs, dir) || dirs.contains(dir) ==> #[trigger] path_set::has(
                debts.in_dirs(dirs).dirs,
                dir,
            ),
{
    path_set::lemma_with_paths(debts.dirs, dirs);
    let all = debts.in_dirs(dirs).dirs;
    assert forall|dir: PathView|
        path_set::has(debts.dirs, dir) || dirs.contains(dir) implies #[trigger] path_set::has(
        all,
        dir,
    ) by {
        if dirs.contains(dir) {
            let i = choose|i: int| 0 <= i < dirs.len() && dirs[i] == dir;
            assert(path_set::has(all, dirs[i]));
        } else {
            let i = choose|i: int| 0 <= i < debts.dirs.len() && path::same(
                #[trigger] debts.dirs[i],
                dir,
            );
            assert(debts.dirs.contains(debts.dirs[i]));
            let j = choose|j: int| 0 <= j < all.len() && all[j] == debts.dirs[i];
            assert(path::same(all[j], dir));
        }
    }
    debts::lemma_places_grow(store, debts.dirs, dirs);
    debts::lemma_places_of_both(store, debts.files, debts.dirs);
    debts::lemma_places_of_both(store, debts.files, debts.in_dirs(dirs).dirs);
    assert(store.places(debts.in_dirs(dirs).all()) =~= store.places(debts.all()).union(
        store.places(dirs),
    ));
}

/// What is known when operation `i` of tier `t` begins.
proof fn lemma_op_begins(
    store: Store,
    job: BatchJobView,
    state: BatchApplyView,
    t: int,
    i: int,
    debts: Debts,
    owed: Unsettled,
)
    requires
        rooted(job.root, job.tiers),
        0 <= t < job.tiers.len(),
        0 <= i < job.tiers[t].len(),
        state.job == job,
        (state.phase, state.debts) == job.op_begun(t, i, debts),
        on_the_books(store, debts, owed),
        i == 0 && t > 0 ==> owed.reached(Durability::Ordered),
    ensures
        settled(store, job, state, owed),
{
    let full = job.full(t, i);
    assert(path::parent_of(
        path::joined(job.root, ordered::lands_at(job.tiers[t][i])),
    ) is Some);
    let dirs = exec::dir_of(full);
    lemma_more_dirs(store, debts, dirs);
    assert(dirs[0] == path::parent_of(full)->0);
    assert(dirs.contains(path::parent_of(full)->0));
    assert(path_set::has(debts.in_dirs(dirs).dirs, path::parent_of(full)->0));
}

/// What is known when tier `t` begins.
proof fn lemma_settled_tier(
    store: Store,
    job: BatchJobView,
    state: BatchApplyView,
    t: int,
    owed: Unsettled,
)
    requires
        rooted(job.root, job.tiers),
        forall|k: int| 0 <= k < job.tiers.len() ==> (#[trigger] job.tiers[k]).len() > 0,
        0 <= t <= job.tiers.len(),
        state.job == job,
        (state.phase, state.debts) == job.tier_begun(t),
        if t == 0 {
            owed.nothing()
        } else {
            owed.reached(job.need(t - 1))
        },
    ensures
        settled(store, job, state, owed),
{
    if t < job.tiers.len() {
        assert(job.tiers[t].len() > 0);
        lemma_op_begins(store, job, state, t, 0, Debts::none(), owed);
    }
}

/// What is known once operation `i` of tier `t` has landed.
proof fn lemma_settled_landing(
    store: Store,
    job: BatchJobView,
    state: BatchApplyView,
    t: int,
    i: int,
    owed: Unsettled,
    after: Unsettled,
)
    requires
        rooted(job.root, job.tiers),
        forall|k: int| 0 <= k < job.tiers.len() ==> (#[trigger] job.tiers[k]).len() > 0,
        job.atomic == store.atomic,
        settled(store, job, state, owed),
        state.phase == BatchPhase::<PathView, Seq<u8>, int, ScriptView>::Landing(t, i),
        store.defers(owed, job.landing(t, i), ReplyView::Done, after),
    ensures
        settled(store, job, state.resumed(ReplyView::Done), after),
{
    let next = state.resumed(ReplyView::Done);
    let full = job.full(t, i);
    let debts = state.debts.landing(full, job.owes(t, i));
    lemma_entry_on_the_books(store, state.debts, full);
    debts::lemma_places_of_both(store, state.debts.files, state.debts.dirs);
    debts::lemma_places_of_both(store, debts.files, debts.dirs);
    let one = seq![full];
    if job.owes(t, i) {
        assert(debts.files =~= state.debts.files + one);
        debts::lemma_places_of_both(store, state.debts.files, one);
        assert(one[0] == full);
        assert(store.place(one[0]) == store.place(full));
        assert(store.places(one).contains(store.place(full)));
    }
    assert(on_the_books(store, debts, after));
    if i + 1 < job.tiers[t].len() {
        lemma_op_begins(store, job, next, t, i + 1, debts, after);
    } else {
        assert(path_set::has(debts.dirs, path::parent_of(full)->0));
        assert(debts.all().len() > 0);
        debts::lemma_flushing(store, debts.all(), job.root, job.need(t));
    }
}

/// What is known after one more answer.
proof fn lemma_settled(
    store: Store,
    job: BatchJobView,
    state: BatchApplyView,
    reply: ReplyView,
    owed: Unsettled,
    after: Unsettled,
)
    requires
        rooted(job.root, job.tiers),
        forall|k: int| 0 <= k < job.tiers.len() ==> (#[trigger] job.tiers[k]).len() > 0,
        job.atomic == store.atomic,
        settled(store, job, state, owed),
        state.asked() matches Some(request) && store.defers(owed, request, reply, after),
    ensures
        settled(store, job, state.resumed(reply), after),
{
    let next = state.resumed(reply);
    match state.phase {
        BatchPhase::Making(t, i) => {
            if let Reply::Made(made) = reply {
                lemma_more_dirs(store, state.debts, made);
                assert(path_set::has(
                    state.debts.in_dirs(made).dirs,
                    path::parent_of(job.full(t, i))->0,
                ));
            }
        },
        BatchPhase::Landing(t, i) => {
            if reply is Done {
                lemma_settled_landing(store, job, state, t, i, owed, after);
            }
        },
        BatchPhase::Flushing(t, script) => {
            let end = script.requests.len() as int;
            assert(script.requests[script.at] is Sync);
            debts::lemma_one_flush(store, script.requests, script.at, end, owed.loose);
            debts::lemma_one_flush(store, script.requests, script.at, end, owed.fresh);
            debts::lemma_none_left(store, script.requests, end);
            if reply is Done && !script.advanced().pending() {
                assert(after.loose =~= Set::empty());
                assert(after.fresh =~= Set::empty());
                assert(after.reached(job.need(t)));
                lemma_settled_tier(store, job, next, t + 1, after);
            }
        },
        BatchPhase::Finished(_) => {},
    }
}

/// Leaving out the empty tiers leaves every operation under its root.
proof fn lemma_still_rooted(root: PathView, tiers: BatchView)
    requires
        rooted(root, tiers),
    ensures
        rooted(root, ordered::filled(tiers)),
    decreases tiers.len(),
{
    if tiers.len() > 0 {
        let before = tiers.drop_last();
        assert(rooted(root, before)) by {
            assert forall|t: int, i: int|
                0 <= t < before.len() && 0 <= i < before[t].len() implies path::parent_of(
                path::joined(root, ordered::lands_at(#[trigger] before[t][i])),
            ) is Some by {
                assert(before[t][i] == tiers[t][i]);
            }
        }
        lemma_still_rooted(root, before);
        let rest = ordered::filled(before);
        let all = ordered::filled(tiers);
        assert forall|t: int, i: int|
            0 <= t < all.len() && 0 <= i < all[t].len() implies path::parent_of(
            path::joined(root, ordered::lands_at(#[trigger] all[t][i])),
        ) is Some by {
            if t < rest.len() {
                assert(all[t][i] == rest[t][i]);
            } else {
                assert(all[t][i] == tiers[tiers.len() - 1][i]);
            }
        }
    }
}

/// What is known of every state of a course.
proof fn lemma_settled_throughout(
    store: Store,
    tiers: BatchView,
    root: PathView,
    finality: Durability,
    course: BatchCourse,
    i: int,
)
    requires
        rooted(root, tiers),
        course.of(store, tiers, root, finality),
        0 <= i < course.states.len(),
    ensures
        course.states[0].job.tiers == ordered::filled(tiers),
        course.states[0].job.finality == finality,
        settled(store, course.states[0].job, course.states[i], course.owed[i]),
    decreases i,
{
    let job = course.states[0].job;
    lemma_filled(tiers);
    lemma_still_rooted(root, tiers);
    if i == 0 {
        if course.states[0].phase == job.tier_begun(0).0 {
            lemma_settled_tier(store, job, course.states[0], 0, course.owed[0]);
        }
    } else {
        lemma_settled_throughout(store, tiers, root, finality, course, i - 1);
        assert(course.steps(store, i - 1));
        lemma_settled(
            store,
            job,
            course.states[i - 1],
            course.replies[i - 1],
            course.owed[i - 1],
            course.owed[i],
        );
    }
}

/// Nothing that is durable names anything that is not: no tier is begun before everything in the
/// tiers before it has been flushed and ordered.
pub proof fn law_tiers_are_ordered(
    store: Store,
    tiers: BatchView,
    root: PathView,
    finality: Durability,
    course: BatchCourse,
    i: int,
    t: int,
)
    requires
        rooted(root, tiers),
        course.of(store, tiers, root, finality),
        0 <= i < course.states.len(),
        t > 0,
        course.states[i].phase == BatchPhase::<PathView, Seq<u8>, int, ScriptView>::Making(t, 0),
    ensures
        course.owed[i].reached(Durability::Ordered),
{
    lemma_settled_throughout(store, tiers, root, finality, course, i);
}

impl Store {
    /// Whether putting a file at `path`, or making the directories that it lacks, touches `place`.
    pub open spec fn touches(self, path: PathView, place: Place) -> bool {
        self.put_at(path).contains(place) || (path::parent_of(path) matches Some(dir) && self.over(
            dir,
            place,
        ))
    }

    /// Whether whatever is owed a flush was touched by one of the first `n` operations of tier `t`.
    pub open spec fn owes_to(self, job: BatchJobView, t: int, n: int, owed: Unsettled) -> bool {
        forall|place: Place| #[trigger]
            owed.loose.union(owed.fresh).contains(place) ==> exists|j: int|
                0 <= j < n && #[trigger] self.touches(job.full(t, j), place)
    }
}

/// What is known of which tier something is owed to.
spec fn tiered(store: Store, state: BatchApplyView, owed: Unsettled) -> bool {
    match state.phase {
        BatchPhase::Making(t, i) => store.owes_to(state.job, t, i + 1, owed) && !owed.handed,
        BatchPhase::Landing(t, i) => store.owes_to(state.job, t, i + 1, owed) && !owed.handed,
        BatchPhase::Flushing(t, _) => store.owes_to(
            state.job,
            t,
            state.job.tiers[t].len() as int,
            owed,
        ),
        BatchPhase::Finished(_) => true,
    }
}

/// What more is owed is owed to one operation more.
proof fn lemma_owes_to(
    store: Store,
    job: BatchJobView,
    t: int,
    n: int,
    owed: Unsettled,
    m: int,
    after: Unsettled,
)
    requires
        store.owes_to(job, t, n, owed),
        n <= m,
        forall|place: Place| #[trigger]
            after.loose.union(after.fresh).contains(place) ==> owed.loose.union(
                owed.fresh,
            ).contains(place) || (n > 0 && store.touches(job.full(t, n - 1), place)),
    ensures
        store.owes_to(job, t, m, after),
{
    assert forall|place: Place| #[trigger]
        after.loose.union(after.fresh).contains(place) implies exists|j: int|
        0 <= j < m && #[trigger] store.touches(job.full(t, j), place) by {
        if owed.loose.union(owed.fresh).contains(place) {
            let j = choose|j: int|
                0 <= j < n && #[trigger] store.touches(job.full(t, j), place);
            assert(store.touches(job.full(t, j), place));
        } else {
            assert(store.touches(job.full(t, n - 1), place));
        }
    }
}

/// What is known of which tier something is owed to, after one more answer.
proof fn lemma_tiered(
    store: Store,
    state: BatchApplyView,
    reply: ReplyView,
    owed: Unsettled,
    after: Unsettled,
)
    requires
        state.job.sound(state.phase),
        tiered(store, state, owed),
        state.phase matches BatchPhase::Flushing(_, script) ==> script.current() is Sync,
        state.asked() matches Some(request) && store.defers(owed, request, reply, after),
    ensures
        match state.resumed(reply).phase {
            BatchPhase::Making(t, i) => i > 0 ==> tiered(store, state.resumed(reply), after),
            BatchPhase::Landing(t, i) => path::parent_of(state.job.full(t, i)) is Some ==> tiered(
                store,
                state.resumed(reply),
                after,
            ),
            _ => tiered(store, state.resumed(reply), after),
        },
{
    let job = state.job;
    let all = after.loose.union(after.fresh);
    match state.phase {
        BatchPhase::Making(t, i) => {
            if let Reply::Made(made) = reply {
                assert forall|place: Place| #[trigger] all.contains(place) implies owed.loose.union(
                    owed.fresh,
                ).contains(place) || store.touches(job.full(t, i), place) by {
                    if store.places(made).contains(place) {
                        let k = choose|k: int|
                            0 <= k < made.len() && store.place(#[trigger] made[k]) == place;
                        assert(store.place(made[k]) == place);
                    }
                }
                lemma_owes_to(store, job, t, i + 1, owed, i + 1, after);
            }
        },
        BatchPhase::Landing(t, i) => {
            if reply is Done {
                lemma_owes_to(store, job, t, i + 1, owed, i + 1, after);
                lemma_owes_to(store, job, t, i + 1, owed, i + 2, after);
            }
        },
        BatchPhase::Flushing(t, script) => {
            let n = job.tiers[t].len() as int;
            lemma_owes_to(store, job, t, n, owed, n, after);
        },
        BatchPhase::Finished(_) => {},
    }
}

/// Wherever a batch is cut off, nothing is owed a flush but what its current tier touched. While the
/// files of that tier land, whatever the tiers before it changed is ordered before them.
pub proof fn law_only_its_tier_is_owed(
    store: Store,
    tiers: BatchView,
    root: PathView,
    finality: Durability,
    course: BatchCourse,
    i: int,
)
    requires
        rooted(root, tiers),
        course.of(store, tiers, root, finality),
        0 <= i < course.states.len(),
    ensures
        match course.states[i].phase {
            BatchPhase::Making(t, n) => store.owes_to(
                course.states[i].job,
                t,
                n + 1,
                course.owed[i],
            ) && !course.owed[i].handed,
            BatchPhase::Landing(t, n) => store.owes_to(
                course.states[i].job,
                t,
                n + 1,
                course.owed[i],
            ) && !course.owed[i].handed,
            BatchPhase::Flushing(t, _) => store.owes_to(
                course.states[i].job,
                t,
                course.states[i].job.tiers[t].len() as int,
                course.owed[i],
            ),
            BatchPhase::Finished(_) => true,
        },
    decreases i,
{
    let job = course.states[0].job;
    lemma_settled_throughout(store, tiers, root, finality, course, i);
    if i > 0 {
        law_only_its_tier_is_owed(store, tiers, root, finality, course, i - 1);
        lemma_settled_throughout(store, tiers, root, finality, course, i - 1);
        lemma_still_rooted(root, tiers);
        assert(course.steps(store, i - 1));
        if let BatchPhase::Flushing(_, script) = course.states[i - 1].phase {
            assert(script.requests[script.at] is Sync);
        }
        lemma_tiered(
            store,
            course.states[i - 1],
            course.replies[i - 1],
            course.owed[i - 1],
            course.owed[i],
        );
        if let BatchPhase::Landing(t, n) = course.states[i].phase {
            assert(path::parent_of(
                path::joined(job.root, ordered::lands_at(job.tiers[t][n])),
            ) is Some);
        }
    }
}

/// A batch that was applied is carried as far as was asked: all of it survives a power cut, or is
/// ordered before whatever comes later, or is handed to the device.
pub proof fn law_batch_reaches_finality(
    store: Store,
    tiers: BatchView,
    root: PathView,
    finality: Durability,
    course: BatchCourse,
)
    requires
        rooted(root, tiers),
        course.of(store, tiers, root, finality),
    ensures
        course.states.last().ended() matches Some(Ok(())) ==> course.owed.last().reached(finality),
{
    lemma_settled_throughout(store, tiers, root, finality, course, course.states.len() - 1);
}

/// A flush of many paths hands each of them over, but for the one that the barrier is at, and takes
/// one barrier, which comes last.
pub proof fn law_flush_takes_one_barrier(paths: Seq<PathView>, anchor: PathView, need: Durability)
    requires
        paths.len() > 0,
        need != Durability::Pushed,
    ensures
        flush::flushing(paths, anchor, need) == flush::syncs(
            paths.filter(|path: PathView| !path::same(path, anchor)),
            Durability::Pushed,
        ).push(Request::Sync(anchor, need)),
        !path_set::has(paths, anchor) ==> flush::flushing(paths, anchor, need).len() == paths.len()
            + 1,
{
    lemma_without(paths, anchor);
}

/// Leaving a path out keeps the others.
proof fn lemma_without(paths: Seq<PathView>, out: PathView)
    ensures
        flush::without(paths, out) == paths.filter(|path: PathView| !path::same(path, out)),
        !path_set::has(paths, out) ==> flush::without(paths, out) == paths,
    decreases paths.len(),
{
    reveal(Seq::filter);
    if paths.len() > 0 {
        let before = paths.drop_last();
        lemma_without(before, out);
        if !path_set::has(paths, out) {
            assert(!path::same(paths[paths.len() - 1], out));
            if path_set::has(before, out) {
                let i = choose|i: int| 0 <= i < before.len() && path::same(
                    #[trigger] before[i],
                    out,
                );
                assert(path::same(paths[i], out));
            }
            assert(before.push(paths.last()) =~= paths);
        }
    } else {
        assert(flush::without(paths, out) =~= paths.filter(|path: PathView| !path::same(path, out)));
    }
}

/// A batch asks for no drain unless it is to survive a power cut, and then only behind its last
/// tier. One that is only to be handed over has no barrier behind its last tier.
pub proof fn law_batch_asks_no_more_than_finality(
    store: Store,
    tiers: BatchView,
    root: PathView,
    finality: Durability,
    run: BatchRun,
    i: int,
)
    requires
        run.of(store, tiers, root, finality),
        0 <= i < run.states.len(),
    ensures
        run.states[i].asked() matches Some(Request::Sync(_, need)) ==> {
            let phase = run.states[i].phase;
            &&& need == Durability::Pushed || (phase matches BatchPhase::Flushing(t, _) && need
                == (if t == ordered::filled(tiers).len() - 1 {
                finality
            } else {
                Durability::Ordered
            }))
        },
{
    lemma_asks_throughout(store, tiers, root, finality, run, i);
}

/// What a flush asks for, in every state of a run.
proof fn lemma_asks_throughout(
    store: Store,
    tiers: BatchView,
    root: PathView,
    finality: Durability,
    run: BatchRun,
    i: int,
)
    requires
        run.of(store, tiers, root, finality),
        0 <= i < run.states.len(),
    ensures
        run.states[i].job == run.states[0].job,
        run.states[i].phase matches BatchPhase::Flushing(t, script) ==> script.pending() && forall|
            j: int,
        |
            0 <= j < script.requests.len() ==> (#[trigger] script.requests[j] matches Request::Sync(
                _,
                need,
            ) && (need == Durability::Pushed || need == run.states[0].job.need(t))),
    decreases i,
{
    if i > 0 {
        lemma_asks_throughout(store, tiers, root, finality, run, i - 1);
        assert(run.steps(store, i - 1));
    }
}

} // verus!
