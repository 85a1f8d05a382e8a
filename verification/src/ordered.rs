//! Ordered batches: tiers of writes with barriers between them, for trees in which every prefix of
//! a batch is a legal state.

use crate::change;
use crate::error::{self, Error, Outcome, OutcomeView};
use crate::exec;
use crate::flush;
use crate::path::{self, PathView, TreePath};
use crate::path_set::{self, PathSet};
use crate::port::{self, Durability, Reply, ReplyView, Request, RequestView};
use crate::script::{Script, ScriptView};
use crate::staging::{IntoContents, IntoPath};
use vstd::prelude::*;

verus! {

/// One staged operation of a batch. Paths are relative to the root, which is joined on when the
/// batch is applied.
#[derive(Debug, Clone, PartialEq, Eq)]
pub enum BatchOp<P = TreePath, B = Vec<u8>> {
    /// Write `bytes` to `path`, creating it, and whatever directory it lacks, or replacing it.
    Write {
        /// The file to write.
        path: P,
        /// Its whole new contents.
        bytes: B,
    },
    /// Create `path`, which must not exist, with `bytes` in it.
    CreateNew {
        /// The file to create.
        path: P,
        /// Its contents.
        bytes: B,
    },
}

/// The view of a [`BatchOp`].
pub type BatchOpView = BatchOp<PathView, Seq<u8>>;

impl View for BatchOp<TreePath, Vec<u8>> {
    type V = BatchOpView;

    open spec fn view(&self) -> BatchOpView {
        match self {
            BatchOp::Write { path, bytes } => BatchOp::Write { path: path@, bytes: bytes@ },
            BatchOp::CreateNew { path, bytes } => BatchOp::CreateNew { path: path@, bytes: bytes@ },
        }
    }
}

/// Where the file of `op` lands.
pub open spec fn lands_at(op: BatchOpView) -> PathView {
    match op {
        BatchOp::Write { path, .. } => path,
        BatchOp::CreateNew { path, .. } => path,
    }
}

impl BatchOp<TreePath, Vec<u8>> {
    /// Where the file of this operation lands.
    pub fn path(&self) -> (path: &TreePath)
        ensures
            path@ == lands_at(self@),
    {
        match self {
            BatchOp::Write { path, .. } => path,
            BatchOp::CreateNew { path, .. } => path,
        }
    }
}

/// Tiers of writes with barriers between them. Within a tier nothing is ordered; across a barrier
/// everything is.
#[derive(Debug, Clone, PartialEq, Eq)]
pub struct OrderedBatch {
    tiers: Vec<Vec<BatchOp>>,
}

/// The tiers of a batch, in order, the one that a last barrier opened included.
pub type BatchView = Seq<Seq<BatchOpView>>;

/// The views of tiers, in order.
pub open spec fn tier_views(tiers: Seq<Vec<BatchOp>>) -> BatchView {
    Seq::new(tiers.len(), |i: int| path::views(tiers[i]@))
}

impl View for OrderedBatch {
    type V = BatchView;

    closed spec fn view(&self) -> BatchView {
        tier_views(self.tiers@)
    }
}

/// `tiers` with one more operation in the last of them.
pub open spec fn staging(tiers: BatchView, op: BatchOpView) -> BatchView {
    if tiers.len() == 0 {
        seq![seq![op]]
    } else {
        tiers.drop_last().push(tiers.last().push(op))
    }
}

/// `tiers` with the last of them closed. An empty one is not: it orders nothing.
pub open spec fn barring(tiers: BatchView) -> BatchView {
    if tiers.len() == 0 || tiers.last().len() == 0 {
        tiers
    } else {
        tiers.push(Seq::empty())
    }
}

/// `tiers` without the one that a last barrier opened.
pub open spec fn closed(tiers: BatchView) -> BatchView {
    if tiers.len() > 0 && tiers.last().len() == 0 {
        tiers.drop_last()
    } else {
        tiers
    }
}

/// The number of operations in `tiers`.
pub open spec fn count(tiers: BatchView) -> nat
    decreases tiers.len(),
{
    if tiers.len() == 0 {
        0
    } else {
        count(tiers.drop_last()) + tiers.last().len()
    }
}

/// The tiers that hold anything, in order.
pub open spec fn filled(tiers: BatchView) -> BatchView
    decreases tiers.len(),
{
    if tiers.len() == 0 {
        tiers
    } else if tiers.last().len() == 0 {
        filled(tiers.drop_last())
    } else {
        filled(tiers.drop_last()).push(tiers.last())
    }
}

/// The paths of the operations of one tier, in order.
pub open spec fn tier_paths(tier: Seq<BatchOpView>) -> Seq<PathView> {
    Seq::new(tier.len(), |i: int| lands_at(tier[i]))
}

/// The paths of all operations, in order.
pub open spec fn batch_paths(tiers: BatchView) -> Seq<PathView>
    decreases tiers.len(),
{
    if tiers.len() == 0 {
        Seq::empty()
    } else {
        tier_paths(tiers[0]) + batch_paths(tiers.skip(1))
    }
}

impl Default for OrderedBatch {
    fn default() -> (batch: OrderedBatch)
        ensures
            batch@ == Seq::<Seq<BatchOpView>>::empty(),
    {
        let batch = OrderedBatch { tiers: Vec::new() };
        assert(batch@ =~= Seq::<Seq<BatchOpView>>::empty());
        batch
    }
}

impl OrderedBatch {
    /// Whether only the last tier can be empty, and only behind another.
    pub open spec fn well_formed(&self) -> bool {
        &&& forall|i: int| 0 <= i < self@.len() - 1 ==> (#[trigger] self@[i]).len() > 0
        &&& self@.len() == 1 ==> self@[0].len() > 0
    }

    /// An empty batch.
    pub fn new() -> (batch: OrderedBatch)
        ensures
            batch@ == Seq::<Seq<BatchOpView>>::empty(),
            batch.well_formed(),
    {
        OrderedBatch::default()
    }

    fn stage(&mut self, op: BatchOp) -> (batch: &mut OrderedBatch)
        ensures
            batch@ == staging(old(self)@, op@),
            old(self).well_formed() ==> batch.well_formed(),
            *final(self) == *final(batch),
    {
        let ghost before = self@;
        match self.tiers.pop() {
            Some(mut tier) => {
                proof {
                    path::lemma_views_push(tier@, op);
                }
                let ghost last = path::views(tier@);
                tier.push(op);
                self.tiers.push(tier);
                assert(before.last() == last);
                assert(self@ =~= before.drop_last().push(last.push(op@)));
            },
            None => {
                let mut tier: Vec<BatchOp> = Vec::new();
                tier.push(op);
                assert(path::views(tier@) =~= seq![op@]);
                self.tiers.push(tier);
                assert(self@ =~= seq![seq![op@]]);
            },
        }
        self
    }

    /// Stages a write of `contents` to `path` in the current tier.
    pub fn write(&mut self, path: impl IntoPath, contents: impl IntoContents) -> (batch:
        &mut OrderedBatch)
        ensures
            batch@ == staging(
                old(self)@,
                BatchOp::Write { path: path.as_path(), bytes: contents.as_contents() },
            ),
            old(self).well_formed() ==> batch.well_formed(),
            *final(self) == *final(batch),
    {
        let op = BatchOp::Write { path: path.into_path(), bytes: contents.into_contents() };
        self.stage(op)
    }

    /// Stages the creation of `path`, with `contents` in it, in the current tier.
    pub fn create_new(&mut self, path: impl IntoPath, contents: impl IntoContents) -> (batch:
        &mut OrderedBatch)
        ensures
            batch@ == staging(
                old(self)@,
                BatchOp::CreateNew { path: path.as_path(), bytes: contents.as_contents() },
            ),
            old(self).well_formed() ==> batch.well_formed(),
            *final(self) == *final(batch),
    {
        let op = BatchOp::CreateNew { path: path.into_path(), bytes: contents.into_contents() };
        self.stage(op)
    }

    /// Closes the current tier: what is staged so far lands before anything that is staged later. A
    /// tier with nothing in it is not closed.
    pub fn barrier(&mut self) -> (batch: &mut OrderedBatch)
        ensures
            batch@ == barring(old(self)@),
            old(self).well_formed() ==> batch.well_formed(),
            *final(self) == *final(batch),
    {
        let ghost before = self@;
        let n = self.tiers.len();
        if n > 0 && self.tiers[n - 1].len() > 0 {
            assert(before.last() == path::views(self.tiers@[n - 1]@));
            let tier: Vec<BatchOp> = Vec::new();
            assert(path::views(tier@) =~= Seq::empty());
            self.tiers.push(tier);
            assert(self@ =~= before.push(Seq::empty()));
        } else if n > 0 {
            assert(before.last() == path::views(self.tiers@[n - 1]@));
        }
        self
    }

    /// The staged tiers, in order. The tier that a last barrier opened is not among them.
    pub fn tiers(&self) -> (tiers: &[Vec<BatchOp>])
        ensures
            tier_views(tiers@) == closed(self@),
            self.well_formed() ==> forall|i: int|
                0 <= i < tiers@.len() ==> (#[trigger] tiers@[i])@.len() > 0,
    {
        let n = self.tiers.len();
        let all = self.tiers.as_slice();
        assert(forall|i: int| 0 <= i < n ==> path::views(self.tiers@[i]@) == #[trigger] self@[i]);
        if n > 0 && self.tiers[n - 1].len() == 0 {
            let rest = vstd::slice::slice_subrange(all, 0, n - 1);
            assert(tier_views(rest@) =~= self@.drop_last());
            assert forall|i: int|
                self.well_formed() && 0 <= i < rest@.len() implies (#[trigger] rest@[i])@.len()
                > 0 by {
                assert(self@[i].len() > 0);
            }
            rest
        } else {
            assert forall|i: int|
                self.well_formed() && 0 <= i < all@.len() implies (#[trigger] all@[i])@.len() > 0 by {
                assert(path::views(self.tiers@[i]@) == self@[i]);
            }
            all
        }
    }

    /// Whether nothing is staged.
    pub fn is_empty(&self) -> (empty: bool)
        ensures
            empty == (count(self@) == 0),
    {
        let mut i: usize = 0;
        assert(self@.take(0) =~= Seq::empty());
        while i < self.tiers.len()
            invariant
                i <= self.tiers.len(),
                count(self@.take(i as int)) == 0,
            decreases self.tiers.len() - i,
        {
            assert(self@.take(i as int + 1).drop_last() =~= self@.take(i as int));
            assert(self@.take(i as int + 1).last() == path::views(self.tiers@[i as int]@));
            if self.tiers[i].len() > 0 {
                proof {
                    lemma_count_grows(self@, i as int + 1);
                }
                return false;
            }
            i += 1;
        }
        assert(self@.take(i as int) =~= self@);
        true
    }

    /// The number of staged operations.
    pub fn len(&self) -> (n: usize)
        requires
            count(self@) <= usize::MAX,
        ensures
            n == count(self@),
    {
        let mut n: usize = 0;
        let mut i: usize = 0;
        assert(self@.take(0) =~= Seq::empty());
        while i < self.tiers.len()
            invariant
                count(self@) <= usize::MAX,
                i <= self.tiers.len(),
                n == count(self@.take(i as int)),
            decreases self.tiers.len() - i,
        {
            assert(self@.take(i as int + 1).drop_last() =~= self@.take(i as int));
            assert(self@.take(i as int + 1).last() == path::views(self.tiers@[i as int]@));
            proof {
                lemma_count_grows(self@, i as int + 1);
            }
            n += self.tiers[i].len();
            i += 1;
        }
        assert(self@.take(i as int) =~= self@);
        n
    }
}

proof fn lemma_count_grows(tiers: BatchView, n: int)
    requires
        0 <= n <= tiers.len(),
    ensures
        count(tiers.take(n)) <= count(tiers),
    decreases tiers.len() - n,
{
    if n == tiers.len() {
        assert(tiers.take(n) =~= tiers);
    } else {
        lemma_count_grows(tiers, n + 1);
        assert(tiers.take(n + 1).drop_last() =~= tiers.take(n));
    }
}


/// How far the application of a batch has come.
#[derive(Debug)]
pub enum BatchPhase<P = TreePath, B = Vec<u8>, N = usize, S = Script> {
    /// Making the directory for an operation, which is of this number in the tier of this number.
    Making(N, N),
    /// Landing that operation.
    Landing(N, N),
    /// Flushing the tier of this number.
    Flushing(N, S),
    /// There is nothing left to do.
    Finished(Result<(), Error<P, B>>),
}

/// The view of a [`BatchPhase`].
pub type BatchPhaseView = BatchPhase<PathView, Seq<u8>, int, ScriptView>;

impl View for BatchPhase<TreePath, Vec<u8>, usize, Script> {
    type V = BatchPhaseView;

    open spec fn view(&self) -> BatchPhaseView {
        match self {
            BatchPhase::Making(t, i) => BatchPhase::Making(*t as int, *i as int),
            BatchPhase::Landing(t, i) => BatchPhase::Landing(*t as int, *i as int),
            BatchPhase::Flushing(t, script) => BatchPhase::Flushing(*t as int, script@),
            BatchPhase::Finished(outcome) => BatchPhase::Finished(error::outcome_view(*outcome)),
        }
    }
}

/// What a tier still owes a flush: the files, in the order in which they landed, and the
/// directories that they landed in.
pub struct Debts {
    /// The files.
    pub files: Seq<PathView>,
    /// The directories.
    pub dirs: Seq<PathView>,
}

impl Debts {
    /// Nothing is owed.
    pub open spec fn none() -> Debts {
        Debts { files: Seq::empty(), dirs: Seq::empty() }
    }

    /// With more directories.
    pub open spec fn in_dirs(self, dirs: Seq<PathView>) -> Debts {
        Debts { files: self.files, dirs: path_set::with_paths(self.dirs, dirs) }
    }

    /// With one more file, if it owes a flush.
    pub open spec fn landing(self, file: PathView, owes: bool) -> Debts {
        if owes {
            Debts { files: self.files.push(file), dirs: self.dirs }
        } else {
            self
        }
    }

    /// All that is owed: files first.
    pub open spec fn all(self) -> Seq<PathView> {
        self.files + self.dirs
    }
}

/// A batch, and where it is applied.
pub struct BatchJobView {
    /// The tiers that hold anything, in order.
    pub tiers: BatchView,
    /// The root that the paths are read from.
    pub root: PathView,
    /// Whether the storage replaces a file in one step.
    pub atomic: bool,
    /// How far the last tier is carried.
    pub finality: Durability,
}

impl BatchJobView {
    /// The complete path of operation `i` of tier `t`.
    pub open spec fn full(self, t: int, i: int) -> PathView {
        path::joined(self.root, lands_at(self.tiers[t][i]))
    }

    /// Whether operation `i` of tier `t` leaves a file to be flushed: not if it is replaced in one
    /// step.
    pub open spec fn owes(self, t: int, i: int) -> bool {
        self.tiers[t][i] is CreateNew || !self.atomic
    }

    /// How far tier `t` is carried: the last as far as was asked, any other so that it comes before
    /// the next.
    pub open spec fn need(self, t: int) -> Durability {
        if t == self.tiers.len() - 1 {
            self.finality
        } else {
            Durability::Ordered
        }
    }

    /// The request that lands operation `i` of tier `t`.
    pub open spec fn landing(self, t: int, i: int) -> RequestView {
        match self.tiers[t][i] {
            BatchOp::Write { bytes, .. } => Request::Replace(self.full(t, i), bytes),
            BatchOp::CreateNew { bytes, .. } => Request::CreateNew(self.full(t, i), bytes),
        }
    }

    /// Where operation `i` of tier `t` begins, with what is owed before it.
    pub open spec fn op_begun(self, t: int, i: int, debts: Debts) -> (BatchPhaseView, Debts) {
        if path::parent_of(self.full(t, i)) is Some {
            (BatchPhase::Making(t, i), debts.in_dirs(exec::dir_of(self.full(t, i))))
        } else {
            (BatchPhase::Landing(t, i), debts)
        }
    }

    /// Where tier `t` begins.
    pub open spec fn tier_begun(self, t: int) -> (BatchPhaseView, Debts) {
        if t < self.tiers.len() {
            self.op_begun(t, 0, Debts::none())
        } else {
            (BatchPhase::Finished(Ok(())), Debts::none())
        }
    }

    /// Where the application stands once operation `i` of tier `t` has landed.
    pub open spec fn op_landed(self, t: int, i: int, debts: Debts) -> (BatchPhaseView, Debts) {
        let flush = flush::flushing(debts.all(), self.root, self.need(t));
        if i + 1 < self.tiers[t].len() {
            self.op_begun(t, i + 1, debts)
        } else if flush.len() > 0 {
            (BatchPhase::Flushing(t, ScriptView::of(flush)), debts)
        } else {
            self.tier_begun(t + 1)
        }
    }

    /// What is asked in `phase`, if anything.
    pub open spec fn asked(self, phase: BatchPhaseView) -> Option<RequestView> {
        match phase {
            BatchPhase::Making(t, i) => match path::parent_of(self.full(t, i)) {
                Some(dir) => Some(Request::CreateDirs(dir)),
                None => None,
            },
            BatchPhase::Landing(t, i) => Some(self.landing(t, i)),
            BatchPhase::Flushing(_, script) => Some(script.current()),
            BatchPhase::Finished(_) => None,
        }
    }

    /// Where the application stands with a reply that answers what was asked.
    pub open spec fn stepped(self, phase: BatchPhaseView, debts: Debts, reply: ReplyView) -> (
        BatchPhaseView,
        Debts,
    ) {
        match (phase, reply) {
            (BatchPhase::Making(t, i), Reply::Made(made)) => (
                BatchPhase::Landing(t, i),
                debts.in_dirs(made),
            ),
            (BatchPhase::Landing(t, i), Reply::Done) => self.op_landed(
                t,
                i,
                debts.landing(self.full(t, i), self.owes(t, i)),
            ),
            (BatchPhase::Flushing(t, script), Reply::Done) => if script.advanced().pending() {
                (BatchPhase::Flushing(t, script.advanced()), debts)
            } else {
                self.tier_begun(t + 1)
            },
            (_, Reply::Failed(fault)) => (BatchPhase::Finished(Err(Error::Io(fault))), debts),
            _ => (phase, debts),
        }
    }

    /// Whether what `phase` speaks of is there.
    pub open spec fn sound(self, phase: BatchPhaseView) -> bool {
        match phase {
            BatchPhase::Making(t, i) => {
                &&& 0 <= t < self.tiers.len()
                &&& 0 <= i < self.tiers[t].len()
                &&& path::parent_of(self.full(t, i)) is Some
            },
            BatchPhase::Landing(t, i) => 0 <= t < self.tiers.len() && 0 <= i < self.tiers[t].len(),
            BatchPhase::Flushing(t, script) => 0 <= t < self.tiers.len() && script.pending(),
            BatchPhase::Finished(_) => true,
        }
    }
}

/// The application of a batch as a mathematical value.
pub struct BatchApplyView {
    /// What is applied, and where.
    pub job: BatchJobView,
    /// How far it has come.
    pub phase: BatchPhaseView,
    /// What the tier still owes a flush.
    pub debts: Debts,
}

impl BatchApplyView {
    /// The application of the batch `tiers`, of which nothing has been done. A batch that names a
    /// path outside the root is refused.
    pub open spec fn of(
        tiers: BatchView,
        root: PathView,
        atomic: bool,
        finality: Durability,
    ) -> BatchApplyView {
        let job = BatchJobView { tiers: filled(tiers), root, atomic, finality };
        match change::guarded(batch_paths(tiers)) {
            Ok(()) => {
                let (phase, debts) = job.tier_begun(0);
                BatchApplyView { job, phase, debts }
            },
            Err(e) => BatchApplyView {
                job,
                phase: BatchPhase::Finished(Err(e)),
                debts: Debts::none(),
            },
        }
    }

    /// What is asked of the storage next, if anything.
    pub open spec fn asked(self) -> Option<RequestView> {
        self.job.asked(self.phase)
    }

    /// What the application ended in, if it did.
    pub open spec fn ended(self) -> Option<OutcomeView> {
        match self.phase {
            BatchPhase::Finished(outcome) => Some(outcome),
            _ => None,
        }
    }

    /// The application with a reply. One that does not answer what was asked changes nothing.
    pub open spec fn resumed(self, reply: ReplyView) -> BatchApplyView {
        match self.asked() {
            Some(request) if port::answers(request, reply) => {
                let (phase, debts) = self.job.stepped(self.phase, self.debts, reply);
                BatchApplyView { job: self.job, phase, debts }
            },
            _ => self,
        }
    }
}

/// A batch, and where it is applied.
#[derive(Debug)]
struct BatchJob<'a> {
    tiers: Vec<&'a Vec<BatchOp>>,
    root: TreePath,
    atomic: bool,
    finality: Durability,
}

impl<'a> View for BatchJob<'a> {
    type V = BatchJobView;

    closed spec fn view(&self) -> BatchJobView {
        BatchJobView {
            tiers: tier_ref_views(self.tiers@),
            root: self.root@,
            atomic: self.atomic,
            finality: self.finality,
        }
    }
}

/// The views of borrowed tiers, in order.
spec fn tier_ref_views(tiers: Seq<&Vec<BatchOp>>) -> BatchView {
    Seq::new(tiers.len(), |i: int| path::views(tiers[i]@))
}

/// What a tier still owes a flush.
#[derive(Debug)]
struct Owed {
    files: Vec<TreePath>,
    dirs: PathSet,
}

impl View for Owed {
    type V = Debts;

    closed spec fn view(&self) -> Debts {
        Debts { files: path::views(self.files@), dirs: self.dirs@ }
    }
}

impl Owed {
    fn new() -> (owed: Owed)
        ensures
            owed@ == Debts::none(),
    {
        let owed = Owed { files: Vec::new(), dirs: PathSet::new() };
        assert(owed@.files =~= Seq::empty());
        owed
    }

    /// All that is owed: files first.
    fn all(&self) -> (paths: Vec<TreePath>)
        ensures
            path::views(paths@) == self@.all(),
    {
        let mut paths: Vec<TreePath> = Vec::new();
        path::copy_each(&mut paths, &self.files);
        path::copy_each(&mut paths, self.dirs.paths());
        assert(path::views(paths@) =~= self@.all());
        paths
    }
}

impl<'a> BatchJob<'a> {
    /// The complete path of operation `i` of tier `t`.
    fn full(&self, t: usize, i: usize) -> (path: TreePath)
        requires
            t < self@.tiers.len(),
            i < self@.tiers[t as int].len(),
        ensures
            path@ == self@.full(t as int, i as int),
    {
        self.root.join(self.tiers[t][i].path())
    }

    /// Begins operation `i` of tier `t`.
    fn begin_op(&self, t: usize, i: usize, owed: &mut Owed) -> (phase: BatchPhase)
        requires
            t < self@.tiers.len(),
            i < self@.tiers[t as int].len(),
        ensures
            (phase@, final(owed)@) == self@.op_begun(t as int, i as int, old(owed)@),
            self@.sound(phase@),
    {
        match self.full(t, i).parent_dir() {
            Some(dir) => {
                let mut dirs: Vec<TreePath> = Vec::new();
                dirs.push(dir);
                assert(path::views(dirs@) =~= exec::dir_of(self@.full(t as int, i as int)));
                owed.dirs.insert_all(dirs);
                BatchPhase::Making(t, i)
            },
            None => BatchPhase::Landing(t, i),
        }
    }

    /// Begins tier `t`.
    fn begin_tier(&self, t: usize, owed: &mut Owed) -> (phase: BatchPhase)
        requires
            forall|k: int| 0 <= k < self@.tiers.len() ==> (#[trigger] self@.tiers[k]).len() > 0,
        ensures
            (phase@, final(owed)@) == self@.tier_begun(t as int),
            self@.sound(phase@),
    {
        *owed = Owed::new();
        if t < self.tiers.len() {
            assert(self@.tiers[t as int].len() > 0);
            self.begin_op(t, 0, owed)
        } else {
            BatchPhase::Finished(Ok(()))
        }
    }

    /// Goes on once operation `i` of tier `t` has landed.
    fn next_op(&self, t: usize, i: usize, owed: &mut Owed) -> (phase: BatchPhase)
        requires
            forall|k: int| 0 <= k < self@.tiers.len() ==> (#[trigger] self@.tiers[k]).len() > 0,
            t < self@.tiers.len(),
            i < self@.tiers[t as int].len(),
        ensures
            (phase@, final(owed)@) == self@.op_landed(t as int, i as int, old(owed)@),
            self@.sound(phase@),
    {
        let tier = self.tiers[t];
        if i < tier.len() - 1 {
            return self.begin_op(t, i + 1, owed);
        }
        let need = if t == self.tiers.len() - 1 {
            self.finality
        } else {
            Durability::Ordered
        };
        let script = Script::new(flush::flush_all(&owed.all(), &self.root, need));
        if script.is_pending() {
            BatchPhase::Flushing(t, script)
        } else {
            self.begin_tier(t + 1, owed)
        }
    }
}

/// The application of a batch, on its way. It asks one thing of the storage at a time, and is
/// carried on with the answer.
#[derive(Debug)]
pub struct BatchApply<'a> {
    job: BatchJob<'a>,
    phase: BatchPhase,
    owed: Owed,
}

impl<'a> View for BatchApply<'a> {
    type V = BatchApplyView;

    closed spec fn view(&self) -> BatchApplyView {
        BatchApplyView { job: self.job@, phase: self.phase@, debts: self.owed@ }
    }
}

impl<'a> BatchApply<'a> {
    #[verifier::type_invariant]
    spec fn valid(&self) -> bool {
        &&& self.job@.sound(self.phase@)
        &&& forall|k: int|
            0 <= k < self.job@.tiers.len() ==> (#[trigger] self.job@.tiers[k]).len() > 0
    }

    /// What is asked of the storage next. Nothing is once the application has ended.
    pub fn request(&self) -> (request: Option<Request>)
        ensures
            port::view_of(request) == self@.asked(),
    {
        proof {
            use_type_invariant(self);
        }
        match &self.phase {
            BatchPhase::Making(t, i) => match self.job.full(*t, *i).parent_dir() {
                Some(dir) => Some(Request::CreateDirs(dir)),
                None => None,
            },
            BatchPhase::Landing(t, i) => {
                let full = self.job.full(*t, *i);
                match &self.job.tiers[*t][*i] {
                    BatchOp::Write { bytes, .. } => Some(
                        Request::Replace(full, path::copied(bytes)),
                    ),
                    BatchOp::CreateNew { bytes, .. } => Some(
                        Request::CreateNew(full, path::copied(bytes)),
                    ),
                }
            },
            BatchPhase::Flushing(_, script) => Some(script.current()),
            BatchPhase::Finished(_) => None,
        }
    }

    /// What the application ended in, if it did.
    pub fn outcome(&self) -> (outcome: Option<&Outcome>)
        ensures
            match outcome {
                Some(o) => self@.ended() == Some(error::outcome_view(*o)),
                None => self@.ended() is None,
            },
    {
        match &self.phase {
            BatchPhase::Finished(outcome) => Some(outcome),
            _ => None,
        }
    }

    /// Carries the application on with the answer to what it asked. A reply that does not answer
    /// that changes nothing.
    pub fn resume(self, reply: Reply) -> (apply: BatchApply<'a>)
        ensures
            apply@ == self@.resumed(reply@),
    {
        proof {
            use_type_invariant(&self);
        }
        match self.request() {
            None => self,
            Some(request) => if request.is_answered_by(&reply) {
                self.step(reply)
            } else {
                self
            },
        }
    }

    /// Carries the application on with a reply that answers what it asked.
    fn step(self, reply: Reply) -> (apply: BatchApply<'a>)
        requires
            self@.asked() matches Some(request) && port::answers(request, reply@),
        ensures
            apply@ == self@.resumed(reply@),
    {
        proof {
            use_type_invariant(&self);
        }
        let BatchApply { job, phase, mut owed } = self;
        let phase = match (phase, reply) {
            (BatchPhase::Making(t, i), Reply::Made(made)) => {
                owed.dirs.insert_all(made);
                BatchPhase::Landing(t, i)
            },
            (BatchPhase::Landing(t, i), Reply::Done) => {
                let owes = match &job.tiers[t][i] {
                    BatchOp::Write { .. } => !job.atomic,
                    BatchOp::CreateNew { .. } => true,
                };
                if owes {
                    let full = job.full(t, i);
                    proof {
                        path::lemma_views_push(owed.files@, full);
                    }
                    owed.files.push(full);
                }
                job.next_op(t, i, &mut owed)
            },
            (BatchPhase::Flushing(t, script), Reply::Done) => {
                let script = script.advance();
                if script.is_pending() {
                    BatchPhase::Flushing(t, script)
                } else {
                    assert(t < job.tiers.len());
                    job.begin_tier(t + 1, &mut owed)
                }
            },
            (_, Reply::Failed(fault)) => BatchPhase::Finished(Err(Error::Io(fault))),
            (phase, _) => phase,
        };
        BatchApply { job, phase, owed }
    }
}

/// Refuses the first path of `tiers` that leaves the root.
fn guard_tiers(tiers: &Vec<Vec<BatchOp>>) -> (outcome: Outcome)
    ensures
        error::outcome_view(outcome) == change::guarded(batch_paths(tier_views(tiers@))),
{
    let ghost all = tier_views(tiers@);
    let mut t: usize = 0;
    assert(all.skip(0) =~= all);
    while t < tiers.len()
        invariant
            t <= tiers.len(),
            all == tier_views(tiers@),
            change::first_outside(batch_paths(all)) == change::first_outside(
                batch_paths(all.skip(t as int)),
            ),
        decreases tiers.len() - t,
    {
        let tier = &tiers[t];
        let ghost paths = tier_paths(all[t as int]);
        let ghost rest = batch_paths(all.skip(t as int + 1));
        proof {
            assert(all.skip(t as int)[0] == all[t as int]);
            assert(all.skip(t as int).skip(1) =~= all.skip(t as int + 1));
            change::lemma_first_outside_of_sum(paths, rest);
        }
        let mut i: usize = 0;
        assert(paths.skip(0) =~= paths);
        while i < tier.len()
            invariant
                i <= tier.len(),
                t < tiers.len(),
                *tier == tiers@[t as int],
                all == tier_views(tiers@),
                paths == tier_paths(all[t as int]),
                rest == batch_paths(all.skip(t as int + 1)),
                change::first_outside(batch_paths(all)) == (match change::first_outside(paths) {
                    Some(p) => Some(p),
                    None => change::first_outside(rest),
                }),
                change::first_outside(paths) == change::first_outside(paths.skip(i as int)),
            decreases tier.len() - i,
        {
            assert(paths.skip(i as int)[0] == lands_at(tier@[i as int]@));
            assert(paths.skip(i as int).skip(1) =~= paths.skip(i as int + 1));
            proof {
                reveal_with_fuel(change::first_outside, 2);
                assert(seq![lands_at(tier@[i as int]@)].skip(1) =~= Seq::<PathView>::empty());
            }
            change::guard_in_root(tier[i].path())?;
            i += 1;
        }
        t += 1;
    }
    Ok(())
}

/// The tiers that hold anything.
fn filled_tiers<'a>(tiers: &'a Vec<Vec<BatchOp>>) -> (rest: Vec<&'a Vec<BatchOp>>)
    ensures
        tier_ref_views(rest@) == filled(tier_views(tiers@)),
        forall|k: int| 0 <= k < rest@.len() ==> (#[trigger] rest@[k])@.len() > 0,
{
    let ghost all = tier_views(tiers@);
    let mut rest: Vec<&'a Vec<BatchOp>> = Vec::new();
    let mut t: usize = 0;
    assert(tier_ref_views(rest@) =~= filled(all.take(0)));
    while t < tiers.len()
        invariant
            t <= tiers.len(),
            all == tier_views(tiers@),
            tier_ref_views(rest@) == filled(all.take(t as int)),
            forall|k: int| 0 <= k < rest@.len() ==> (#[trigger] rest@[k])@.len() > 0,
        decreases tiers.len() - t,
    {
        assert(all.take(t as int + 1).drop_last() =~= all.take(t as int));
        let ghost before = tier_ref_views(rest@);
        if tiers[t].len() > 0 {
            rest.push(&tiers[t]);
            assert(tier_ref_views(rest@) =~= before.push(all[t as int]));
        }
        t += 1;
    }
    assert(all.take(t as int) =~= all);
    rest
}

impl OrderedBatch {
    /// Begins to apply this batch to the tree at `root`. `atomic` says whether the storage replaces
    /// a file in one step, `finality` how far the last tier is to be carried.
    pub fn apply(&self, root: &TreePath, atomic: bool, finality: Durability) -> (apply: BatchApply<
        '_,
    >)
        ensures
            apply@ == BatchApplyView::of(self@, root@, atomic, finality),
    {
        let job = BatchJob {
            tiers: filled_tiers(&self.tiers),
            root: root.copy(),
            atomic,
            finality,
        };
        let mut owed = Owed::new();
        assert forall|k: int| 0 <= k < job@.tiers.len() implies (#[trigger] job@.tiers[k]).len()
            > 0 by {
            assert(job.tiers@[k]@.len() > 0);
        }
        let phase = match guard_tiers(&self.tiers) {
            Ok(()) => job.begin_tier(0, &mut owed),
            Err(e) => BatchPhase::Finished(Err(e)),
        };
        BatchApply { job, phase, owed }
    }
}

} // verus!
