//! Change sets: writes staged as one unit, and what a set says before anything is done.

use crate::error::{self, Error, Outcome, OutcomeView};
use crate::path::{self, PathView, TreePath};
use crate::staging::{IntoContents, IntoPath};
use vstd::prelude::*;

verus! {

/// One staged operation on the files under a root. Paths are relative to that root, which is joined
/// on when the set is applied. `P` and `B` are how a path and the bytes of a file are held.
#[derive(Debug, Clone, PartialEq, Eq)]
pub enum FileOp<P = TreePath, B = Vec<u8>> {
    /// Write `bytes` to `path`, creating it, and whatever directory it lacks, or replacing it.
    Write {
        /// The file to write.
        path: P,
        /// Its whole new contents.
        bytes: B,
    },
    /// Move `from` to `to`, creating whatever directory `to` lacks.
    Rename {
        /// The current path.
        from: P,
        /// The new path.
        to: P,
    },
    /// Remove the file at `path`, which must exist.
    Remove {
        /// The file to remove.
        path: P,
    },
    /// Copy the bytes that are at `source` to `path`. The source must not change while the set is
    /// applied.
    CopyFrom {
        /// The file to write.
        path: P,
        /// The file to copy from.
        source: P,
    },
    /// Make the file at `path` runnable, or not. A path that holds a link is refused.
    SetExecutable {
        /// The file whose execute bit is set or cleared.
        path: P,
        /// Whether the file is to be runnable.
        executable: bool,
    },
    /// Put a link to `target` at `path`, replacing whatever is there. The target is recorded as it
    /// is given, and never followed.
    SetLink {
        /// Where the link is.
        path: P,
        /// Where it points.
        target: P,
    },
}

/// The view of a [`FileOp`].
pub type OpView = FileOp<PathView, Seq<u8>>;

impl View for FileOp<TreePath, Vec<u8>> {
    type V = OpView;

    open spec fn view(&self) -> OpView {
        match self {
            FileOp::Write { path, bytes } => FileOp::Write { path: path@, bytes: bytes@ },
            FileOp::Rename { from, to } => FileOp::Rename { from: from@, to: to@ },
            FileOp::Remove { path } => FileOp::Remove { path: path@ },
            FileOp::CopyFrom { path, source } => FileOp::CopyFrom {
                path: path@,
                source: source@,
            },
            FileOp::SetExecutable { path, executable } => FileOp::SetExecutable {
                path: path@,
                executable: *executable,
            },
            FileOp::SetLink { path, target } => FileOp::SetLink { path: path@, target: target@ },
        }
    }
}

/// The path that an op ends up changing: where a write or a move lands, what a removal removes.
pub open spec fn affected(op: OpView) -> PathView {
    match op {
        FileOp::Write { path, .. } => path,
        FileOp::Rename { to, .. } => to,
        FileOp::Remove { path } => path,
        FileOp::CopyFrom { path, .. } => path,
        FileOp::SetExecutable { path, .. } => path,
        FileOp::SetLink { path, .. } => path,
    }
}

impl FileOp<TreePath, Vec<u8>> {
    /// The path that this op ends up changing: where a write or a move lands, what a removal
    /// removes.
    pub fn path(&self) -> (path: &TreePath)
        ensures
            path@ == affected(self@),
    {
        match self {
            FileOp::Write { path, .. } => path,
            FileOp::CopyFrom { path, .. } => path,
            FileOp::SetExecutable { path, .. } => path,
            FileOp::SetLink { path, .. } => path,
            FileOp::Rename { to, .. } => to,
            FileOp::Remove { path } => path,
        }
    }
}

/// What a change set expects a path to hold before it runs.
#[derive(Debug, Clone, PartialEq, Eq)]
pub enum Expected<B = Vec<u8>> {
    /// Exactly these bytes, a link being followed.
    Bytes(B),
    /// Nothing at all: no file, no directory and no link, not even one that points nowhere.
    Absent,
}

/// The view of an [`Expected`].
pub type ExpectedView = Expected<Seq<u8>>;

impl View for Expected<Vec<u8>> {
    type V = ExpectedView;

    open spec fn view(&self) -> ExpectedView {
        match self {
            Expected::Bytes(bytes) => Expected::Bytes(bytes@),
            Expected::Absent => Expected::Absent,
        }
    }
}

/// Operations staged as one unit, which lands whole or not at all, and what they expect of the tree
/// they will run on. The operations run in the order in which they were staged.
#[derive(Debug, Clone, PartialEq, Eq)]
pub struct ChangeSet {
    ops: Vec<FileOp>,
    expected: Vec<(TreePath, Expected)>,
}

/// A change set as a mathematical value.
pub struct ChangeSetView {
    /// The operations, in the order in which they run.
    pub ops: Seq<OpView>,
    /// What is expected of the tree, in the order in which it was staged.
    pub expected: Seq<(PathView, ExpectedView)>,
}

impl View for ChangeSet {
    type V = ChangeSetView;

    closed spec fn view(&self) -> ChangeSetView {
        ChangeSetView {
            ops: path::views(self.ops@),
            expected: path::views(self.expected@),
        }
    }
}

impl ChangeSetView {
    /// The set with one more operation, which runs last.
    pub open spec fn then_op(self, op: OpView) -> ChangeSetView {
        ChangeSetView { ops: self.ops.push(op), expected: self.expected }
    }

    /// The set with one more expectation.
    pub open spec fn expecting(self, path: PathView, what: ExpectedView) -> ChangeSetView {
        ChangeSetView { ops: self.ops, expected: self.expected.push((path, what)) }
    }
}

impl Default for ChangeSet {
    fn default() -> (set: ChangeSet)
        ensures
            set@ == (ChangeSetView { ops: Seq::empty(), expected: Seq::empty() }),
    {
        let set = ChangeSet { ops: Vec::new(), expected: Vec::new() };
        assert(set@.ops =~= Seq::empty());
        assert(set@.expected =~= Seq::empty());
        set
    }
}

impl ChangeSet {
    /// An empty set.
    pub fn new() -> (set: ChangeSet)
        ensures
            set@ == (ChangeSetView { ops: Seq::empty(), expected: Seq::empty() }),
    {
        ChangeSet::default()
    }

    fn stage(&mut self, op: FileOp) -> (set: &mut ChangeSet)
        ensures
            set@ == old(self)@.then_op(op@),
            *final(self) == *final(set),
    {
        proof {
            path::lemma_views_push(self.ops@, op);
        }
        self.ops.push(op);
        self
    }

    /// Stages a write of `contents` to `path`.
    pub fn write(&mut self, path: impl IntoPath, contents: impl IntoContents) -> (set:
        &mut ChangeSet)
        ensures
            set@ == old(self)@.then_op(
                FileOp::Write { path: path.as_path(), bytes: contents.as_contents() },
            ),
            *final(self) == *final(set),
    {
        let op = FileOp::Write { path: path.into_path(), bytes: contents.into_contents() };
        self.stage(op)
    }

    /// Stages a move from `from` to `to`.
    pub fn rename(&mut self, from: impl IntoPath, to: impl IntoPath) -> (set: &mut ChangeSet)
        ensures
            set@ == old(self)@.then_op(FileOp::Rename { from: from.as_path(), to: to.as_path() }),
            *final(self) == *final(set),
    {
        let op = FileOp::Rename { from: from.into_path(), to: to.into_path() };
        self.stage(op)
    }

    /// Stages the removal of `path`.
    pub fn remove(&mut self, path: impl IntoPath) -> (set: &mut ChangeSet)
        ensures
            set@ == old(self)@.then_op(FileOp::Remove { path: path.as_path() }),
            *final(self) == *final(set),
    {
        let op = FileOp::Remove { path: path.into_path() };
        self.stage(op)
    }

    /// Stages a copy of the file at `source` to `path`, instead of carrying its bytes in the set.
    pub fn copy_from(&mut self, path: impl IntoPath, source: impl IntoPath) -> (set: &mut ChangeSet)
        ensures
            set@ == old(self)@.then_op(
                FileOp::CopyFrom { path: path.as_path(), source: source.as_path() },
            ),
            *final(self) == *final(set),
    {
        let op = FileOp::CopyFrom { path: path.into_path(), source: source.into_path() };
        self.stage(op)
    }

    /// Stages making the file at `path` runnable, or not.
    pub fn set_executable(&mut self, path: impl IntoPath, executable: bool) -> (set: &mut ChangeSet)
        ensures
            set@ == old(self)@.then_op(FileOp::SetExecutable { path: path.as_path(), executable }),
            *final(self) == *final(set),
    {
        let op = FileOp::SetExecutable { path: path.into_path(), executable };
        self.stage(op)
    }

    /// Stages a link at `path` to `target`, replacing whatever is there.
    pub fn set_link(&mut self, path: impl IntoPath, target: impl IntoPath) -> (set: &mut ChangeSet)
        ensures
            set@ == old(self)@.then_op(
                FileOp::SetLink { path: path.as_path(), target: target.as_path() },
            ),
            *final(self) == *final(set),
    {
        let op = FileOp::SetLink { path: path.into_path(), target: target.into_path() };
        self.stage(op)
    }

    fn stage_expected(&mut self, path: TreePath, what: Expected) -> (set: &mut ChangeSet)
        ensures
            set@ == old(self)@.expecting(path@, what@),
            *final(self) == *final(set),
    {
        proof {
            path::lemma_views_push(self.expected@, (path, what));
        }
        self.expected.push((path, what));
        self
    }

    /// Expects `path` to hold exactly `contents` when the set is applied.
    pub fn expect(&mut self, path: impl IntoPath, contents: impl IntoContents) -> (set:
        &mut ChangeSet)
        ensures
            set@ == old(self)@.expecting(
                path.as_path(),
                Expected::Bytes(contents.as_contents()),
            ),
            *final(self) == *final(set),
    {
        let path = path.into_path();
        let what = Expected::Bytes(contents.into_contents());
        self.stage_expected(path, what)
    }

    /// Expects nothing to be at `path` when the set is applied. That speaks of the tree before the
    /// set runs, so the same set may write the path.
    pub fn expect_absent(&mut self, path: impl IntoPath) -> (set: &mut ChangeSet)
        ensures
            set@ == old(self)@.expecting(path.as_path(), Expected::Absent),
            *final(self) == *final(set),
    {
        let path = path.into_path();
        self.stage_expected(path, Expected::Absent)
    }

    /// The staged operations, in the order in which they run.
    pub fn ops(&self) -> (ops: &[FileOp])
        ensures
            path::views(ops@) == self@.ops,
    {
        self.ops.as_slice()
    }

    /// The staged expectations, in the order in which they were staged.
    pub fn expected(&self) -> (expected: &[(TreePath, Expected)])
        ensures
            path::views(expected@) == self@.expected,
    {
        self.expected.as_slice()
    }

    /// The bytes that the set writes to `path`: those of the last write staged. There are none if
    /// the set does not write the path, or only copies to it.
    pub fn staged(&self, path: &TreePath) -> (bytes: Option<&[u8]>)
        ensures
            match bytes {
                Some(b) => last_write(self@.ops, path@) == Some(b@),
                None => last_write(self@.ops, path@) is None,
            },
    {
        let mut n: usize = self.ops.len();
        assert(self@.ops.take(n as int) =~= self@.ops);
        while n > 0
            invariant
                n <= self.ops.len(),
                last_write(self@.ops, path@) == last_write(self@.ops.take(n as int), path@),
            decreases n,
        {
            n -= 1;
            assert(self@.ops.take(n as int + 1).drop_last() =~= self@.ops.take(n as int));
            assert(self@.ops.take(n as int + 1).last() == self.ops@[n as int]@);
            if let FileOp::Write { path: written, bytes } = &self.ops[n] {
                if written.same(path) {
                    return Some(bytes.as_slice());
                }
            }
        }
        None
    }

    /// Where the set moves `path` to, through every later move of what it became. There is no such
    /// place if the set leaves the path where it is.
    pub fn renamed_to(&self, path: &TreePath) -> (moved_to: Option<TreePath>)
        ensures
            match moved_to {
                Some(p) => !path::same(followed(self@.ops, path@), path@) && p@ == followed(
                    self@.ops,
                    path@,
                ),
                None => path::same(followed(self@.ops, path@), path@),
            },
    {
        let mut current = path.copy();
        let mut i: usize = 0;
        assert(self@.ops.take(0) =~= Seq::empty());
        while i < self.ops.len()
            invariant
                i <= self.ops.len(),
                current@ == followed(self@.ops.take(i as int), path@),
            decreases self.ops.len() - i,
        {
            let ghost so_far = self@.ops.take(i as int + 1);
            assert(so_far.drop_last() =~= self@.ops.take(i as int));
            assert(so_far.last() == self.ops@[i as int]@);
            if let FileOp::Rename { from, to } = &self.ops[i] {
                if from.same(&current) {
                    current = to.copy();
                }
            }
            i += 1;
        }
        assert(self@.ops.take(i as int) =~= self@.ops);
        if current.same(path) {
            None
        } else {
            Some(current)
        }
    }

    /// Whether nothing is staged: no operation and no expectation.
    pub fn is_empty(&self) -> (empty: bool)
        ensures
            empty == (self@.ops.len() == 0 && self@.expected.len() == 0),
    {
        self.ops.is_empty() && self.expected.is_empty()
    }

    /// The number of staged operations.
    pub fn len(&self) -> (n: usize)
        ensures
            n == self@.ops.len(),
    {
        self.ops.len()
    }

    /// Puts the operations of `other` after those of this set, and its expectations after those of
    /// this set.
    pub fn extend(&mut self, other: ChangeSet) -> (set: &mut ChangeSet)
        ensures
            set@.ops == old(self)@.ops + other@.ops,
            set@.expected == old(self)@.expected + other@.expected,
            *final(self) == *final(set),
    {
        let mut other = other;
        let ghost before = *self;
        let ghost added = other;
        self.ops.append(&mut other.ops);
        self.expected.append(&mut other.expected);
        assert(self@.ops =~= before@.ops + added@.ops);
        assert(self@.expected =~= before@.expected + added@.expected);
        self
    }
}

/// The bytes of the last write to `path` among `ops`.
pub open spec fn last_write(ops: Seq<OpView>, path: PathView) -> Option<Seq<u8>>
    decreases ops.len(),
{
    if ops.len() == 0 {
        None
    } else {
        match ops.last() {
            FileOp::Write { path: written, bytes } if path::same(written, path) => Some(bytes),
            _ => last_write(ops.drop_last(), path),
        }
    }
}

/// Where `ops`, run in order, leave what was at `path`.
pub open spec fn followed(ops: Seq<OpView>, path: PathView) -> PathView
    decreases ops.len(),
{
    if ops.len() == 0 {
        path
    } else {
        let current = followed(ops.drop_last(), path);
        match ops.last() {
            FileOp::Rename { from, to } if path::same(from, current) => to,
            _ => current,
        }
    }
}

/// A write is answered for until another to the same path is staged, and by nothing else that is
/// staged.
pub proof fn law_last_write_answers(set: ChangeSetView, path: PathView, op: OpView)
    ensures
        last_write(set.then_op(op).ops, path) == (match op {
            FileOp::Write { path: written, bytes } if path::same(written, path) => Some(bytes),
            _ => last_write(set.ops, path),
        }),
{
    assert(set.then_op(op).ops.drop_last() =~= set.ops);
}

/// Where something is moved is followed through every move that is staged later.
pub proof fn law_moves_are_followed(set: ChangeSetView, path: PathView, from: PathView, to: PathView)
    ensures
        followed(set.then_op(FileOp::Rename { from, to }).ops, path) == (if path::same(
            from,
            followed(set.ops, path),
        ) {
            to
        } else {
            followed(set.ops, path)
        }),
{
    assert(set.then_op(FileOp::Rename { from, to }).ops.drop_last() =~= set.ops);
}

/// An operation ends up changing the path that is given to it: where it writes, copies to, sets the
/// bit, links or removes, and of a move where that goes.
pub proof fn law_operation_changes_its_path(
    path: PathView,
    other: PathView,
    bytes: Seq<u8>,
    executable: bool,
)
    ensures
        affected(FileOp::Write { path, bytes }) == path,
        affected(FileOp::Rename { from: other, to: path }) == path,
        affected(FileOp::Remove { path }) == path,
        affected(FileOp::CopyFrom { path, source: other }) == path,
        affected(FileOp::SetExecutable { path, executable }) == path,
        affected(FileOp::SetLink { path, target: other }) == path,
{
}

/// What is staged comes behind what was staged before, and changes nothing of it.
pub proof fn law_staging_appends(set: ChangeSetView, op: OpView, path: PathView, what: ExpectedView)
    ensures
        set.then_op(op).ops.len() == set.ops.len() + 1,
        set.then_op(op).ops.last() == op,
        forall|i: int| 0 <= i < set.ops.len() ==> #[trigger] set.then_op(op).ops[i] == set.ops[i],
        set.then_op(op).expected == set.expected,
        set.expecting(path, what).expected.len() == set.expected.len() + 1,
        set.expecting(path, what).expected.last() == (path, what),
        forall|i: int|
            0 <= i < set.expected.len() ==> #[trigger] set.expecting(path, what).expected[i]
                == set.expected[i],
        set.expecting(path, what).ops == set.ops,
{
}

/// Only a move changes where a path is followed to. With no move staged, it is the path itself.
pub proof fn law_only_moves_are_followed(set: ChangeSetView, path: PathView, op: OpView)
    ensures
        !(op is Rename) ==> followed(set.then_op(op).ops, path) == followed(set.ops, path),
        set.ops.len() == 0 ==> followed(set.ops, path) == path,
        (forall|i: int| 0 <= i < set.ops.len() ==> !(#[trigger] set.ops[i] is Rename)) ==> followed(
            set.ops,
            path,
        ) == path,
{
    assert(set.then_op(op).ops.drop_last() =~= set.ops);
    lemma_nothing_moves(set.ops, path);
}

/// Without a move, a path stays where it is.
proof fn lemma_nothing_moves(ops: Seq<OpView>, path: PathView)
    ensures
        (forall|i: int| 0 <= i < ops.len() ==> !(#[trigger] ops[i] is Rename)) ==> followed(
            ops,
            path,
        ) == path,
    decreases ops.len(),
{
    if ops.len() > 0 && forall|i: int| 0 <= i < ops.len() ==> !(#[trigger] ops[i] is Rename) {
        let before = ops.drop_last();
        assert forall|i: int| 0 <= i < before.len() implies !(#[trigger] before[i] is Rename) by {
            assert(before[i] == ops[i]);
        }
        lemma_nothing_moves(before, path);
        assert(!(ops[ops.len() - 1] is Rename));
    }
}

/// What two sets do in turn is what the second makes of what the first left: a path is followed
/// through the one and then through the other, and the second answers for what it writes.
pub proof fn law_sets_answer_in_turn(first: Seq<OpView>, second: Seq<OpView>, path: PathView)
    ensures
        followed(first + second, path) == followed(second, followed(first, path)),
        last_write(first + second, path) == (match last_write(second, path) {
            Some(bytes) => Some(bytes),
            None => last_write(first, path),
        }),
    decreases second.len(),
{
    if second.len() == 0 {
        assert(first + second =~= first);
    } else {
        law_sets_answer_in_turn(first, second.drop_last(), path);
        assert((first + second).drop_last() =~= first + second.drop_last());
        assert((first + second).last() == second.last());
    }
}

/// A set answers for the bytes of a path exactly if it writes it, with those of a write to it that no
/// other comes after. How the path is spelled does not matter.
pub proof fn law_staged_bytes_are_written(ops: Seq<OpView>, path: PathView)
    ensures
        match last_write(ops, path) {
            Some(bytes) => exists|i: int|
                0 <= i < ops.len() && writes(#[trigger] ops[i], path) && ops[i]->bytes == bytes
                    && forall|j: int| i < j < ops.len() ==> !writes(#[trigger] ops[j], path),
            None => forall|i: int| 0 <= i < ops.len() ==> !writes(#[trigger] ops[i], path),
        },
    decreases ops.len(),
{
    if ops.len() > 0 {
        let before = ops.drop_last();
        law_staged_bytes_are_written(before, path);
        assert forall|i: int| 0 <= i < before.len() implies before[i] == #[trigger] ops[i] by {}
        let last = ops[ops.len() - 1];
        if writes(last, path) {
            assert(writes(ops[ops.len() - 1], path));
        } else {
            match last_write(before, path) {
                Some(bytes) => {
                    let k = choose|i: int|
                        0 <= i < before.len() && writes(#[trigger] before[i], path)
                            && before[i]->bytes == bytes && forall|j: int|
                            i < j < before.len() ==> !writes(#[trigger] before[j], path);
                    assert(writes(ops[k], path));
                    assert forall|j: int| k < j < ops.len() implies !writes(
                        #[trigger] ops[j],
                        path,
                    ) by {
                        if j < before.len() {
                            assert(!writes(before[j], path));
                        }
                    }
                },
                None => {
                    assert forall|i: int| 0 <= i < ops.len() implies !writes(
                        #[trigger] ops[i],
                        path,
                    ) by {
                        if i < before.len() {
                            assert(!writes(before[i], path));
                        }
                    }
                },
            }
        }
    }
}

/// Whether `op` writes bytes of its own to `path`.
pub open spec fn writes(op: OpView, path: PathView) -> bool {
    op matches FileOp::Write { path: written, .. } && path::parsed(written) == path::parsed(path)
}

/// The paths of `op` that it reads or changes, in the order in which they are judged. The target of
/// a link is not among them: nothing goes through it.
pub open spec fn paths_of(op: OpView) -> Seq<PathView> {
    match op {
        FileOp::Rename { from, to } => seq![from, to],
        FileOp::CopyFrom { path, source } => seq![path, source],
        _ => seq![affected(op)],
    }
}

/// The first of `paths` that leaves the root, if one does.
pub open spec fn first_outside(paths: Seq<PathView>) -> Option<PathView>
    decreases paths.len(),
{
    if paths.len() == 0 {
        None
    } else if !path::stays_inside(paths[0]) {
        Some(paths[0])
    } else {
        first_outside(paths.skip(1))
    }
}

/// The paths of all of `ops`, in order.
pub open spec fn all_paths(ops: Seq<OpView>) -> Seq<PathView>
    decreases ops.len(),
{
    if ops.len() == 0 {
        Seq::empty()
    } else {
        paths_of(ops[0]) + all_paths(ops.skip(1))
    }
}

/// What judging `paths` in order comes to.
pub open spec fn guarded(paths: Seq<PathView>) -> OutcomeView {
    match first_outside(paths) {
        Some(p) => Err(Error::Escape(p)),
        None => Ok(()),
    }
}

/// Judging paths lets them through exactly if each of them stays inside the root, and names the
/// first that does not.
pub proof fn law_guard_is_exact(paths: Seq<PathView>)
    ensures
        guarded(paths) is Ok <==> forall|i: int|
            0 <= i < paths.len() ==> path::stays_inside(#[trigger] paths[i]),
        guarded(paths) matches Err(Error::Escape(p)) ==> exists|i: int|
            0 <= i < paths.len() && p == #[trigger] paths[i] && !path::stays_inside(p)
                && forall|j: int| 0 <= j < i ==> path::stays_inside(#[trigger] paths[j]),
    decreases paths.len(),
{
    if paths.len() > 0 {
        let rest = paths.skip(1);
        law_guard_is_exact(rest);
        assert forall|i: int| 0 < i < paths.len() implies paths[i] == #[trigger] rest[i - 1] by {}
        if path::stays_inside(paths[0]) {
            if guarded(paths) is Ok {
                assert forall|i: int| 0 <= i < paths.len() implies path::stays_inside(
                    #[trigger] paths[i],
                ) by {
                    if i > 0 {
                        assert(paths[i] == rest[i - 1]);
                    }
                }
            } else {
                let p = first_outside(paths)->0;
                let k = choose|i: int|
                    0 <= i < rest.len() && p == #[trigger] rest[i] && !path::stays_inside(p)
                        && forall|j: int| 0 <= j < i ==> path::stays_inside(#[trigger] rest[j]);
                assert(paths[k + 1] == p);
                assert forall|j: int| 0 <= j < k + 1 implies path::stays_inside(
                    #[trigger] paths[j],
                ) by {
                    if j > 0 {
                        assert(paths[j] == rest[j - 1]);
                    }
                }
            }
        }
    }
}

/// Refuses a path that leaves the root it will be read from.
pub fn guard_in_root(path: &TreePath) -> (outcome: Outcome)
    ensures
        error::outcome_view(outcome) == guarded(seq![path@]),
{
    proof {
        reveal_with_fuel(first_outside, 2);
        assert(seq![path@].skip(1) =~= Seq::<PathView>::empty());
    }
    if path.is_inside() {
        Ok(())
    } else {
        Err(Error::Escape(path.copy()))
    }
}

pub proof fn lemma_first_outside_of_sum(a: Seq<PathView>, b: Seq<PathView>)
    ensures
        first_outside(a + b) == (match first_outside(a) {
            Some(p) => Some(p),
            None => first_outside(b),
        }),
    decreases a.len(),
{
    if a.len() == 0 {
        assert(a + b =~= b);
    } else {
        lemma_first_outside_of_sum(a.skip(1), b);
        assert((a + b).skip(1) =~= a.skip(1) + b);
    }
}

/// Refuses the first path of `ops` that leaves the root they will run against.
pub fn guard_ops(ops: &[FileOp]) -> (outcome: Outcome)
    ensures
        error::outcome_view(outcome) == guarded(all_paths(path::views(ops@))),
{
    let ghost all = path::views(ops@);
    let mut i: usize = 0;
    assert(all.skip(0) =~= all);
    while i < ops.len()
        invariant
            i <= ops.len(),
            all == path::views(ops@),
            first_outside(all_paths(all)) == first_outside(all_paths(all.skip(i as int))),
        decreases ops.len() - i,
    {
        assert(all.skip(i as int)[0] == ops@[i as int]@);
        assert(all.skip(i as int).skip(1) =~= all.skip(i as int + 1));
        let ghost here = paths_of(all[i as int]);
        proof {
            lemma_first_outside_of_sum(here, all_paths(all.skip(i as int + 1)));
            reveal_with_fuel(first_outside, 3);
            assert(here.skip(1) =~= if here.len() == 2 { seq![here[1]] } else { seq![] });
        }
        match &ops[i] {
            FileOp::Rename { from, to } => {
                guard_in_root(from)?;
                guard_in_root(to)?;
            },
            FileOp::CopyFrom { path, source } => {
                guard_in_root(path)?;
                guard_in_root(source)?;
            },
            op => {
                guard_in_root(op.path())?;
            },
        }
        i += 1;
    }
    Ok(())
}

} // verus!
