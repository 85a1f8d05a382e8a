//! What survives a power cut once a change set has been applied, or its application undone.

use crate::apply::{self, ApplyView, JobView, Phase};
use crate::atomicity;
use crate::change::{FileOp, OpView};
use crate::debts::{self, Unsettled};
use crate::error::Error;
use crate::exec::{self, Books, ExecPhase, ExecPhaseView, Progress, SiteView};
use crate::flush;
use crate::path::{self, Parts, PathView};
use crate::path_set;
use crate::port::{Durability, FaultView, Reply, ReplyView, Request, RequestView};
use crate::script::ScriptView;
use crate::tree::{self, Place, Store};
use crate::undo::{Undo, UndoView};
use crate::unwind::{self, UnwindView};
use vstd::prelude::*;

verus! {

/// The places whose changes carrying out `undo` makes safe.
spec fn cover(store: Store, undo: UndoView) -> Set<Place> {
    let dirs = store.places(unwind::reversal_dirs(undo));
    match undo {
        Undo::Rename { .. } => dirs,
        _ => dirs.insert(store.place(atomicity::undo_path(undo))),
    }
}

/// The places whose changes carrying out all of `undo` makes safe.
spec fn covered(store: Store, undo: Seq<UndoView>) -> Set<Place> {
    Set::new(
        |place: Place|
            exists|i: int| 0 <= i < undo.len() && (#[trigger] cover(store, undo[i])).contains(place),
    )
}

/// With one more thing to reverse, its places are covered besides.
proof fn lemma_covered_more(store: Store, undo: Seq<UndoView>, more: UndoView)
    ensures
        covered(store, undo.push(more)) == covered(store, undo).union(cover(store, more)),
{
    let all = undo.push(more);
    assert forall|place: Place|
        covered(store, all).contains(place) == covered(store, undo).union(
            cover(store, more),
        ).contains(place) by {
        if covered(store, all).contains(place) {
            let i = choose|i: int|
                0 <= i < all.len() && (#[trigger] cover(store, all[i])).contains(place);
            if i < undo.len() {
                assert(cover(store, undo[i]).contains(place));
            }
        }
        if covered(store, undo).contains(place) {
            let i = choose|i: int|
                0 <= i < undo.len() && (#[trigger] cover(store, undo[i])).contains(place);
            assert(cover(store, all[i]).contains(place));
        }
        if cover(store, more).contains(place) {
            assert(cover(store, all[undo.len() as int]).contains(place));
        }
    }
    assert(covered(store, all) =~= covered(store, undo).union(cover(store, more)));
}

/// What each way to reverse something covers.
proof fn lemma_cover(store: Store, undo: UndoView)
    ensures
        match undo {
            Undo::Rename { from, to } => cover(store, undo) == store.entry_of(from).union(
                store.entry_of(to),
            ),
            Undo::SetExecutable { path, .. } => cover(store, undo) == set![store.place(path)],
            _ => cover(store, undo) == store.put_at(atomicity::undo_path(undo)),
        },
{
    match undo {
        Undo::Rename { from, to } => {
            debts::lemma_places_of_both(store, exec::dir_of(from), exec::dir_of(to));
            debts::lemma_dir_place(store, from);
            debts::lemma_dir_place(store, to);
        },
        Undo::SetExecutable { path, .. } => {
            assert(cover(store, undo) =~= set![store.place(path)]);
        },
        _ => {
            debts::lemma_dir_place(store, atomicity::undo_path(undo));
        },
    }
}

/// Whether what `undo` moves is reached by one name alone.
spec fn undo_told(store: Store, undo: UndoView) -> bool {
    undo matches Undo::Rename { from, to } ==> store.tells(from) && store.tells(to)
}

/// Whether whatever of `loose` lies at an end of the move that `undo[r]` reverses was changed after
/// that move: what comes after it covers that, or `dirs` do.
spec fn kept_at(
    store: Store,
    loose: Set<Place>,
    undo: Seq<UndoView>,
    dirs: Seq<PathView>,
    r: int,
) -> bool {
    undo[r] matches Undo::Rename { from, to } ==> forall|place: Place| #[trigger]
        loose.contains(place) && store.at_end(from, to, place) ==> covered(
            store,
            undo.skip(r + 1),
        ).contains(place) || store.places(dirs).contains(place)
}

/// Whether carrying out all of `undo` and flushing `dirs` makes all of `loose` safe.
spec fn kept(
    store: Store,
    loose: Set<Place>,
    undo: Seq<UndoView>,
    dirs: Seq<PathView>,
) -> bool {
    &&& loose.subset_of(covered(store, undo).union(store.places(dirs)))
    &&& forall|r: int| 0 <= r < undo.len() ==> undo_told(store, #[trigger] undo[r])
    &&& forall|r: int| 0 <= r < undo.len() ==> #[trigger] kept_at(store, loose, undo, dirs, r)
}

/// Less is kept where more is.
proof fn lemma_kept_less(
    store: Store,
    loose: Set<Place>,
    undo: Seq<UndoView>,
    dirs: Seq<PathView>,
    after: Set<Place>,
)
    requires
        kept(store, loose, undo, dirs),
        after.subset_of(loose),
    ensures
        kept(store, after, undo, dirs),
{
    assert forall|r: int| 0 <= r < undo.len() implies #[trigger] kept_at(
        store,
        after,
        undo,
        dirs,
        r,
    ) by {
        assert(kept_at(store, loose, undo, dirs, r));
    }
}

/// With one more thing to reverse, more is kept.
proof fn lemma_kept_more(
    store: Store,
    loose: Set<Place>,
    undo: Seq<UndoView>,
    dirs: Seq<PathView>,
    more: UndoView,
    after: Set<Place>,
)
    requires
        kept(store, loose, undo, dirs),
        undo_told(store, more),
        after.subset_of(loose.union(cover(store, more))),
        more matches Undo::Rename { from, to } ==> forall|place: Place| #[trigger]
            after.contains(place) ==> !store.at_end(from, to, place),
    ensures
        kept(store, after, undo.push(more), dirs),
{
    let all = undo.push(more);
    lemma_covered_more(store, undo, more);
    assert forall|r: int| 0 <= r < all.len() implies undo_told(store, #[trigger] all[r]) by {
        if r < undo.len() {
            assert(undo_told(store, undo[r]));
        }
    }
    assert forall|r: int| 0 <= r < all.len() implies #[trigger] kept_at(
        store,
        after,
        all,
        dirs,
        r,
    ) by {
        if r < undo.len() {
            assert(kept_at(store, loose, undo, dirs, r));
            lemma_covered_more(store, undo.skip(r + 1), more);
            assert(all.skip(r + 1) =~= undo.skip(r + 1).push(more));
        }
    }
}

/// What the last thing to reverse covers is kept.
proof fn lemma_kept_last(
    store: Store,
    loose: Set<Place>,
    undo: Seq<UndoView>,
    dirs: Seq<PathView>,
    after: Set<Place>,
)
    requires
        undo.len() > 0,
        !(undo.last() is Rename),
        kept(store, loose, undo, dirs),
        after.subset_of(loose.union(cover(store, undo.last()))),
    ensures
        kept(store, after, undo, dirs),
{
    let last = undo.last();
    lemma_covered_more(store, undo.drop_last(), last);
    assert(undo.drop_last().push(last) =~= undo);
    assert forall|r: int| 0 <= r < undo.len() implies #[trigger] kept_at(
        store,
        after,
        undo,
        dirs,
        r,
    ) by {
        assert(kept_at(store, loose, undo, dirs, r));
        if r < undo.len() - 1 {
            let tail = undo.skip(r + 1);
            lemma_covered_more(store, tail.drop_last(), last);
            assert(tail.drop_last().push(last) =~= tail);
        }
    }
}

/// What the last thing to reverse covered is kept by the directories once it has been reversed.
proof fn lemma_kept_pop(
    store: Store,
    loose: Set<Place>,
    undo: Seq<UndoView>,
    dirs: Seq<PathView>,
    after: Set<Place>,
)
    requires
        undo.len() > 0,
        kept(store, loose, undo, dirs),
        forall|place: Place| #[trigger]
            after.contains(place) ==> store.places(unwind::reversal_dirs(undo.last())).contains(
                place,
            ) || (loose.contains(place) && !cover(store, undo.last()).contains(place)),
    ensures
        kept(
            store,
            after,
            undo.drop_last(),
            path_set::with_paths(dirs, unwind::reversal_dirs(undo.last())),
        ),
{
    let last = undo.last();
    let rest = undo.drop_last();
    let more = path_set::with_paths(dirs, unwind::reversal_dirs(last));
    debts::lemma_places_grow(store, dirs, unwind::reversal_dirs(last));
    lemma_covered_more(store, rest, last);
    assert(rest.push(last) =~= undo);
    assert forall|r: int| 0 <= r < rest.len() implies undo_told(store, #[trigger] rest[r]) by {
        assert(undo_told(store, undo[r]));
    }
    assert forall|r: int| 0 <= r < rest.len() implies #[trigger] kept_at(
        store,
        after,
        rest,
        more,
        r,
    ) by {
        assert(kept_at(store, loose, undo, dirs, r));
        let tail = undo.skip(r + 1);
        lemma_covered_more(store, tail.drop_last(), last);
        assert(tail.drop_last().push(last) =~= tail);
        assert(rest.skip(r + 1) =~= tail.drop_last());
    }
}

/// Whether whatever is owed at an end of a move is still to be flushed before it, or lies above where
/// the move goes.
spec fn calmed(
    store: Store,
    from: PathView,
    to: PathView,
    script: ScriptView,
    places: Set<Place>,
) -> bool {
    forall|place: Place| #[trigger]
        places.contains(place) && store.at_end(from, to, place) ==> debts::left_to_flush(
            store,
            script.requests,
            script.at,
            script.requests.len() - 1,
        ).contains(place) || (path::parent_of(to) matches Some(dir) && store.over(dir, place))
}

/// A path at or below an end of a move is among those that it moves.
proof fn lemma_moving(paths: Seq<PathView>, from: PathView, to: PathView, i: int)
    requires
        0 <= i < paths.len(),
        path::lies_below(paths[i], from) || path::lies_below(paths[i], to),
    ensures
        flush::moving(paths, from, to).contains(paths[i]),
    decreases paths.len(),
{
    let before = flush::moving(paths.drop_last(), from, to);
    if i == paths.len() - 1 {
        assert(before.push(paths.last())[before.len() as int] == paths[i]);
    } else {
        assert(paths.drop_last()[i] == paths[i]);
        lemma_moving(paths.drop_last(), from, to, i);
        let j = choose|j: int| 0 <= j < before.len() && before[j] == paths[i];
        assert(flush::moving(paths, from, to)[j] == paths[i]);
    }
}

/// What is owed at an end of a move is flushed before it, if it is on the list of what is to be
/// flushed.
proof fn lemma_calming(
    store: Store,
    from: PathView,
    to: PathView,
    paths: Seq<PathView>,
    first: Seq<RequestView>,
    place: Place,
)
    requires
        store.tells(from),
        store.tells(to),
        store.places(paths).contains(place),
        store.at_end(from, to, place),
    ensures
        ({
            let requests = (first + flush::calming(paths, from, to)).push(
                RequestView::Rename(from, to),
            );
            debts::left_to_flush(store, requests, 0, requests.len() - 1).contains(place)
        }),
{
    let calming = flush::calming(paths, from, to);
    let requests = (first + calming).push(RequestView::Rename(from, to));
    let i = choose|i: int| 0 <= i < paths.len() && store.place(#[trigger] paths[i]) == place;
    assert(store.place(paths[i]) == place);
    lemma_moving(paths, from, to, i);
    let moving = flush::moving(paths, from, to);
    let j = choose|j: int| 0 <= j < moving.len() && moving[j] == paths[i];
    assert(calming[j] == RequestView::Sync(paths[i], Durability::Ordered));
    let n = first.len() as int + j;
    assert(requests[n] == calming[j]);
    assert(0 <= n < requests.len() - 1);
}

/// One flush more leaves less that is owed at the ends of a move.
proof fn lemma_calmed_flush(
    store: Store,
    from: PathView,
    to: PathView,
    script: ScriptView,
    path: PathView,
    need: Durability,
    places: Set<Place>,
)
    requires
        0 <= script.at < script.requests.len() - 1,
        script.current() == RequestView::Sync(path, need),
        calmed(store, from, to, script, places),
    ensures
        calmed(store, from, to, script.advanced(), places.remove(store.place(path))),
{
    let end = script.requests.len() - 1;
    let shaky = Set::new(
        |place: Place|
            places.contains(place) && debts::left_to_flush(
                store,
                script.requests,
                script.at,
                end,
            ).contains(place),
    );
    debts::lemma_one_flush(store, script.requests, script.at, end, shaky);
    let gone = store.place(path);
    assert forall|place: Place| #[trigger]
        places.remove(gone).contains(place) && store.at_end(from, to, place) implies debts::left_to_flush(
        store,
        script.requests,
        script.at + 1,
        end,
    ).contains(place) || (path::parent_of(to) matches Some(dir) && store.over(dir, place)) by {
        assert(places.contains(place));
        if shaky.contains(place) {
            assert(shaky.remove(gone).contains(place));
        }
    }
}

/// What was written down of an operation that is about to land, or has just landed.
spec fn noted(
    store: Store,
    site: SiteView,
    op: OpView,
    later: Option<UndoView>,
    undo: Seq<UndoView>,
) -> bool {
    let full = exec::target(site, op);
    let recorded = {
        &&& undo.len() > 0
        &&& atomicity::undo_path(undo.last()) == full
        &&& !(undo.last() is Rename)
        &&& !(undo.last() is SetExecutable)
    };
    match op {
        FileOp::Write { .. } | FileOp::CopyFrom { .. } => recorded && later is None,
        FileOp::Rename { from, .. } => {
            &&& recorded
            &&& later == Some(UndoView::Rename { from: full, to: path::joined(site.root, from) })
        },
        FileOp::Remove { .. } => later matches Some(u) && atomicity::undo_path(u) == full && !(
        u is Rename) && !(u is SetExecutable),
        FileOp::SetExecutable { .. } => {
            &&& later is None
            &&& store.bits ==> undo.len() > 0 && undo.last() is SetExecutable
                && atomicity::undo_path(undo.last()) == full
        },
        FileOp::SetLink { .. } => {
            &&& later is None
            &&& store.links ==> recorded
        },
    }
}

/// Whether everything that is owed is on the books: what is to be flushed, and, if reversals are
/// recorded, what reversing makes safe.
spec fn on_the_books(store: Store, site: SiteView, books: Books, owed: Unsettled) -> bool {
    &&& owed.loose.subset_of(store.places(books.touched))
    &&& owed.fresh.subset_of(store.places(books.touched))
    &&& site.recording ==> kept(store, owed.loose, books.undo, Seq::empty())
}

/// Whether what `op` moves, and what gives way to it, is reached by one name alone.
pub open spec fn op_told(store: Store, site: SiteView, op: OpView) -> bool {
    op matches FileOp::Rename { from, .. } ==> store.tells(path::joined(site.root, from))
        && store.tells(exec::target(site, op))
}

/// Whether `requests` change the tree as `op` says, whatever a copy copies.
spec fn laid_out(site: SiteView, op: OpView, requests: Seq<RequestView>) -> bool {
    exists|payload: Seq<u8>| #[trigger] atomicity::planned(site, op, payload, requests)
}

/// What is known of what is owed while `op` is on its way.
spec fn on_track(
    store: Store,
    site: SiteView,
    op: OpView,
    phase: ExecPhaseView,
    books: Books,
    owed: Unsettled,
) -> bool {
    let full = exec::target(site, op);
    match phase {
        ExecPhase::Guarding => op is SetExecutable && on_the_books(store, site, books, owed),
        ExecPhase::Probing => op is SetExecutable && on_the_books(store, site, books, owed),
        ExecPhase::Sourcing => op is CopyFrom && on_the_books(store, site, books, owed),
        ExecPhase::Linking(_) | ExecPhase::Reading(_) | ExecPhase::Weighing(_) => {
            &&& !(op is SetExecutable)
            &&& site.recording
            &&& on_the_books(store, site, books, owed)
        },
        ExecPhase::Landing(script, later) => {
            &&& script.pending()
            &&& laid_out(site, op, script.requests)
            &&& site.recording ==> noted(store, site, op, later, books.undo)
            &&& !site.recording ==> later is None
            &&& if atomicity::fresh(script) {
                &&& on_the_books(store, site, books, owed)
                &&& op matches FileOp::Rename { from, .. } ==> calmed(
                    store,
                    path::joined(site.root, from),
                    full,
                    script,
                    owed.loose.union(owed.fresh),
                )
            } else {
                &&& owed.loose.subset_of(
                    store.places(books.touched).union(
                        store.places(exec::edited_dirs(site, op)),
                    ).insert(store.place(full)),
                )
                &&& owed.fresh.subset_of(store.places(books.touched))
                &&& site.recording ==> kept(store, owed.loose, books.undo, Seq::empty())
            }
        },
    }
}

/// What is known of what is owed once an operation has been answered.
spec fn accounted(
    store: Store,
    site: SiteView,
    op: OpView,
    progress: Progress<PathView, Seq<u8>, ScriptView>,
    books: Books,
    owed: Unsettled,
) -> bool {
    match progress {
        Progress::Running(phase) => on_track(store, site, op, phase, books, owed),
        Progress::Landed => on_the_books(store, site, books, owed) && (path::parent_of(
            exec::target(site, op),
        ) is Some ==> books.touched.len() > 0),
        Progress::Failed(_) => site.recording ==> kept(
            store,
            owed.loose,
            books.undo,
            Seq::empty(),
        ),
    }
}

/// An operation of which it is known what reverses it is on the books.
proof fn lemma_noted(
    store: Store,
    site: SiteView,
    op: OpView,
    payload: Option<Seq<u8>>,
    undo: Option<UndoView>,
    books: Books,
    owed: Unsettled,
)
    requires
        site.recording,
        !(op is SetExecutable),
        op_told(store, site, op),
        on_the_books(store, site, books, owed),
        match undo {
            Some(u) => atomicity::undo_path(u) == exec::target(site, op) && !(u is Rename) && !(
            u is SetExecutable),
            None => op is SetLink && !store.links,
        },
    ensures
        ({
            let (progress, after) = exec::captured(site, op, payload, undo, books);
            accounted(store, site, op, progress, after, owed)
        }),
{
    let (progress, after) = exec::captured(site, op, payload, undo, books);
    lemma_plan(store, site, op, payload, books, owed);
    if let Some(u) = undo {
        if !(op is Remove) {
            lemma_kept_more(store, owed.loose, books.undo, Seq::empty(), u, owed.loose);
            assert(after.undo == books.undo.push(u));
        }
    }
}

/// The requests that change the tree begin with everything on the books.
proof fn lemma_plan(
    store: Store,
    site: SiteView,
    op: OpView,
    payload: Option<Seq<u8>>,
    books: Books,
    owed: Unsettled,
)
    requires
        op_told(store, site, op),
        on_the_books(store, site, books, owed),
    ensures
        ({
            let bytes = exec::payload_bytes(payload);
            let script = ScriptView::of(exec::changes(site, op, bytes, books.touched));
            &&& script.pending()
            &&& atomicity::fresh(script)
            &&& atomicity::planned(site, op, bytes, script.requests)
            &&& op matches FileOp::Rename { from, .. } ==> calmed(
                store,
                path::joined(site.root, from),
                exec::target(site, op),
                script,
                owed.loose.union(owed.fresh),
            )
        }),
{
    atomicity::lemma_plan(site, op, payload, books.touched);
    if let FileOp::Rename { from, .. } = op {
        let from = path::joined(site.root, from);
        let full = exec::target(site, op);
        let places = owed.loose.union(owed.fresh);
        let requests = exec::changes(site, op, exec::payload_bytes(payload), books.touched);
        assert forall|place: Place| #[trigger]
            places.contains(place) && store.at_end(from, full, place) implies debts::left_to_flush(
            store,
            requests,
            0,
            requests.len() - 1,
        ).contains(place) by {
            lemma_calming(
                store,
                from,
                full,
                books.touched,
                exec::making_dirs(full),
                place,
            );
        }
    }
}

/// What is known of what is owed stays known while an operation finds out what it is about to
/// change.
proof fn lemma_asking(
    store: Store,
    site: SiteView,
    op: OpView,
    phase: ExecPhaseView,
    reply: ReplyView,
    books: Books,
    owed: Unsettled,
    after: Unsettled,
)
    requires
        !(phase is Landing),
        op_told(store, site, op),
        on_track(store, site, op, phase, books, owed),
        store.defers(owed, exec::requested(site, op, phase), reply, after),
    ensures
        ({
            let (progress, noted) = exec::resumed(site, op, phase, reply, books);
            accounted(store, site, op, progress, noted, after)
        }),
{
    let full = exec::target(site, op);
    match phase {
        ExecPhase::Guarding => {
            lemma_plan(store, site, op, None, books, owed);
        },
        ExecPhase::Sourcing => {
            if let Reply::Bytes(bytes) = reply {
                lemma_plan(store, site, op, Some(bytes), books, owed);
            }
        },
        ExecPhase::Linking(payload) => {
            let link: Result<Option<PathView>, FaultView> = match reply {
                Reply::Link(link) => Ok(link),
                Reply::Failed(fault) => Err(fault),
                _ => Ok(None),
            };
            if let Some(undo) = exec::undo_by_link(site, op, link) {
                lemma_noted(store, site, op, payload, undo, books, owed);
            }
        },
        ExecPhase::Reading(payload) => {
            let read: Result<Seq<u8>, FaultView> = match reply {
                Reply::Bytes(bytes) => Ok(bytes),
                Reply::Failed(fault) => Err(fault),
                _ => Ok(Seq::empty()),
            };
            if let Ok(Some(undo)) = exec::undo_by_read(site, op, read) {
                lemma_noted(store, site, op, payload, Some(undo), books, owed);
            }
        },
        ExecPhase::Weighing(bytes) => {
            let bit = match reply {
                Reply::Executable(bit) => bit,
                _ => None,
            };
            let undo = exec::undo_by_bit(site, op, bytes, bit);
            lemma_noted(store, site, op, None, Some(undo), books, owed);
        },
        ExecPhase::Probing => {
            if let Reply::Executable(bit) = reply {
                lemma_plan(store, site, op, None, books, owed);
                if let Some(was) = bit {
                    let undo = UndoView::SetExecutable { path: full, executable: was };
                    if site.recording {
                        lemma_kept_more(
                            store,
                            owed.loose,
                            books.undo,
                            Seq::empty(),
                            undo,
                            owed.loose,
                        );
                    }
                }
            }
        },
        ExecPhase::Landing(_, _) => {},
    }
}

/// The places of the directories that an operation edits.
proof fn lemma_edited(store: Store, site: SiteView, op: OpView)
    ensures
        match op {
            FileOp::Rename { from, .. } => store.places(exec::edited_dirs(site, op))
                == store.entry_of(path::joined(site.root, from)).union(
                store.entry_of(exec::target(site, op)),
            ),
            _ => store.places(exec::edited_dirs(site, op)) == store.entry_of(
                exec::target(site, op),
            ),
        },
{
    let full = exec::target(site, op);
    debts::lemma_dir_place(store, full);
    if let FileOp::Rename { from, to } = op {
        let from_full = path::joined(site.root, from);
        debts::lemma_dir_place(store, from_full);
        debts::lemma_places_of_both(store, exec::dir_of(from_full), exec::dir_of(full));
    }
}

/// What is owed once an operation has landed is on the books.
proof fn lemma_landed(
    store: Store,
    site: SiteView,
    op: OpView,
    script: ScriptView,
    later: Option<UndoView>,
    books: Books,
    owed: Unsettled,
)
    requires
        !script.advanced().pending(),
        owed.loose.subset_of(
            store.places(books.touched).union(store.places(exec::edited_dirs(site, op))),
        ),
        owed.fresh.subset_of(store.places(books.touched)),
        site.recording ==> kept(
            store,
            owed.loose,
            match later {
                Some(u) => books.undo.push(u),
                None => books.undo,
            },
            Seq::empty(),
        ),
    ensures
        ({
            let (progress, noted) = exec::landed(site, op, script, later, books);
            accounted(store, site, op, progress, noted, owed)
        }),
{
    let (progress, noted) = exec::landed(site, op, script, later, books);
    debts::lemma_places_grow(store, books.touched, exec::edited_dirs(site, op));
    if path::parent_of(exec::target(site, op)) is Some {
        let dirs = exec::edited_dirs(site, op);
        path_set::lemma_with_paths(books.touched, dirs);
        assert(dirs.len() > 0);
        assert(path_set::has(path_set::with_paths(books.touched, dirs), dirs[0]));
    }
}

/// What is known of what is owed stays known while an operation makes directories, and while it
/// flushes what a move takes along.
proof fn lemma_preparing(
    store: Store,
    site: SiteView,
    op: OpView,
    script: ScriptView,
    later: Option<UndoView>,
    reply: ReplyView,
    books: Books,
    owed: Unsettled,
    after: Unsettled,
)
    requires
        on_track(store, site, op, ExecPhase::Landing(script, later), books, owed),
        atomicity::fresh(script),
        script.current() is CreateDirs || script.current() is Sync,
        store.defers(owed, script.current(), reply, after),
    ensures
        ({
            let (progress, noted) = exec::resumed(
                site,
                op,
                ExecPhase::Landing(script, later),
                reply,
                books,
            );
            accounted(store, site, op, progress, noted, after)
        }),
{
    let full = exec::target(site, op);
    let payload = choose|payload: Seq<u8>| #[trigger]
        atomicity::planned(site, op, payload, script.requests);
    atomicity::lemma_changes(site, op, payload, script.requests);
    lemma_makes_parent(site, op, payload, script.requests);
    assert(script.advanced().pending());
    assert(atomicity::fresh(script.advanced()));
    match reply {
        Reply::Made(made) => {
            debts::lemma_places_grow(store, books.touched, made);
            if let FileOp::Rename { from, .. } = op {
                let from = path::joined(site.root, from);
                let end = script.requests.len() - 1;
                let places = after.loose.union(after.fresh);
                assert forall|place: Place| #[trigger]
                    places.contains(place) && store.at_end(from, full, place) implies debts::left_to_flush(
                    store,
                    script.requests,
                    script.at + 1,
                    end,
                ).contains(place) || (path::parent_of(full) matches Some(dir) && store.over(
                    dir,
                    place,
                )) by {
                    if owed.loose.union(owed.fresh).contains(place) {
                        if debts::left_to_flush(store, script.requests, script.at, end).contains(
                            place,
                        ) {
                            let i = choose|i: int|
                                script.at <= i < end && (
                                #[trigger] script.requests[i] matches Request::Sync(path, _) && store.place(path) == place);
                            assert(script.requests[i] is Sync);
                        }
                    } else {
                        assert(store.places(made).contains(place));
                        let i = choose|i: int|
                            0 <= i < made.len() && store.place(#[trigger] made[i]) == place;
                        assert(store.place(made[i]) == place);
                    }
                }
            }
        },
        Reply::Done => {
            if let (FileOp::Rename { from, .. }, Request::Sync(path, need)) = (op, script.current()) {
                let gone = store.place(path);
                let from = path::joined(site.root, from);
                let places = owed.loose.union(owed.fresh);
                lemma_calmed_flush(store, from, full, script, path, need, places);
                assert(after.loose.union(after.fresh) =~= places.remove(gone));
                if site.recording {
                    lemma_kept_less(store, owed.loose, books.undo, Seq::empty(), after.loose);
                }
            }
        },
        _ => {},
    }
}

/// The directories that are made for an operation are those that hold what it changes.
proof fn lemma_makes_parent(
    site: SiteView,
    op: OpView,
    payload: Seq<u8>,
    requests: Seq<RequestView>,
)
    requires
        atomicity::planned(site, op, payload, requests),
    ensures
        requests[0] matches Request::CreateDirs(made) ==> path::parent_of(exec::target(site, op))
            == Some(made),
{
    let touched = choose|touched: Seq<PathView>|
        requests == #[trigger] exec::changes(site, op, payload, touched);
    if let FileOp::Rename { from, .. } = op {
        let full = exec::target(site, op);
        let dirs = exec::making_dirs(full);
        let calming = flush::calming(touched, path::joined(site.root, from), full);
        if dirs.len() > 0 {
            assert(requests[0] == dirs[0]);
        } else if calming.len() > 0 {
            assert(requests[0] == calming[0]);
        }
    }
}

/// What is known of what is owed once a move has been answered.
proof fn lemma_moved(
    store: Store,
    site: SiteView,
    op: OpView,
    script: ScriptView,
    later: Option<UndoView>,
    reply: ReplyView,
    books: Books,
    owed: Unsettled,
    after: Unsettled,
)
    requires
        op is Rename,
        op_told(store, site, op),
        on_track(store, site, op, ExecPhase::Landing(script, later), books, owed),
        script.current() is Rename,
        store.defers(owed, script.current(), reply, after),
    ensures
        ({
            let (progress, noted) = exec::resumed(
                site,
                op,
                ExecPhase::Landing(script, later),
                reply,
                books,
            );
            accounted(store, site, op, progress, noted, after)
        }),
{
    let full = exec::target(site, op);
    let payload = choose|payload: Seq<u8>| #[trigger]
        atomicity::planned(site, op, payload, script.requests);
    atomicity::lemma_changes(site, op, payload, script.requests);
    lemma_makes_parent(site, op, payload, script.requests);
    lemma_edited(store, site, op);
    assert(script.at == script.requests.len() - 1);
    if let (FileOp::Rename { from, .. }, Reply::Done) = (op, reply) {
        let from = path::joined(site.root, from);
        let (a, b) = (store.place(from), store.place(full));
        let places = owed.loose.union(owed.fresh);
        debts::lemma_none_left(store, script.requests, script.at);
        assert forall|place: Place| #[trigger] places.contains(place) implies !store.at_end(
            from,
            full,
            place,
        ) by {
            if store.at_end(from, full, place) {
                if let Some(dir) = path::parent_of(full) {
                    let entry = store.place(dir);
                    assert(store.entry_of(from).union(store.entry_of(full)).contains(entry));
                    if tree::within(place, a) {
                        debts::lemma_within(entry, place, a);
                    } else {
                        debts::lemma_within(entry, place, b);
                    }
                }
            }
        }
        assert forall|place: Place| #[trigger] owed.loose.contains(place) implies !tree::within(
            place,
            a,
        ) && !tree::within(place, b) by {
            assert(places.contains(place));
        }
        assert forall|place: Place| #[trigger] owed.fresh.contains(place) implies !tree::within(
            place,
            a,
        ) && !tree::within(place, b) by {
            assert(places.contains(place));
        }
        debts::lemma_relocated(owed.loose, a, b);
        debts::lemma_relocated(owed.fresh, a, b);
        if site.recording {
            let u = later->0;
            lemma_cover(store, u);
            assert forall|place: Place| #[trigger] after.loose.contains(place) implies !store.at_end(
                full,
                from,
                place,
            ) by {
                if !owed.loose.contains(place) {
                    assert(store.entry_of(from).union(store.entry_of(full)).contains(place));
                }
            }
            lemma_kept_more(store, owed.loose, books.undo, Seq::empty(), u, after.loose);
        }
        lemma_landed(store, site, op, script, later, books, after);
    }
}

/// What is known of what is owed stays known while an operation changes the tree.
proof fn lemma_landing(
    store: Store,
    site: SiteView,
    op: OpView,
    script: ScriptView,
    later: Option<UndoView>,
    reply: ReplyView,
    books: Books,
    owed: Unsettled,
    after: Unsettled,
)
    requires
        site.atomic == store.atomic,
        !site.recording ==> !(op is SetLink),
        op_told(store, site, op),
        on_track(store, site, op, ExecPhase::Landing(script, later), books, owed),
        store.defers(owed, script.current(), reply, after),
    ensures
        ({
            let (progress, noted) = exec::resumed(
                site,
                op,
                ExecPhase::Landing(script, later),
                reply,
                books,
            );
            accounted(store, site, op, progress, noted, after)
        }),
{
    let none = Seq::<PathView>::empty();
    let payload = choose|payload: Seq<u8>| #[trigger]
        atomicity::planned(site, op, payload, script.requests);
    atomicity::lemma_changes(site, op, payload, script.requests);
    lemma_edited(store, site, op);
    if books.undo.len() > 0 {
        lemma_cover(store, books.undo.last());
    }
    if atomicity::fresh(script) && (script.current() is CreateDirs || script.current() is Sync) {
        lemma_preparing(store, site, op, script, later, reply, books, owed, after);
    } else if op is Rename {
        lemma_moved(store, site, op, script, later, reply, books, owed, after);
    } else {
        if !atomicity::fresh(script) {
            assert(script.current() is Sync);
            lemma_syncs_target(site, op, payload, script.requests);
        }
        if site.recording {
            if let Some(u) = later {
                lemma_cover(store, u);
                if reply is Done {
                    lemma_kept_more(store, owed.loose, books.undo, none, u, after.loose);
                } else {
                    lemma_kept_less(store, owed.loose, books.undo, none, after.loose);
                }
            } else if after.loose.subset_of(owed.loose) {
                lemma_kept_less(store, owed.loose, books.undo, none, after.loose);
            } else {
                lemma_kept_last(store, owed.loose, books.undo, none, after.loose);
            }
        }
        if reply is Done && !script.advanced().pending() {
            lemma_landed(store, site, op, script, later, books, after);
        }
    }
}

/// Where the requests that change the tree end in a flush, it is one of the changed place.
proof fn lemma_syncs_target(
    site: SiteView,
    op: OpView,
    payload: Seq<u8>,
    requests: Seq<RequestView>,
)
    requires
        atomicity::planned(site, op, payload, requests),
    ensures
        requests.last() is Sync ==> requests.last() == RequestView::Sync(
            exec::target(site, op),
            Durability::Ordered,
        ),
{
}

/// What is known of what is owed stays known while an operation is on its way.
proof fn lemma_on_track(
    store: Store,
    site: SiteView,
    op: OpView,
    phase: ExecPhaseView,
    reply: ReplyView,
    books: Books,
    owed: Unsettled,
    after: Unsettled,
)
    requires
        site.atomic == store.atomic,
        !site.recording ==> !(op is SetLink),
        on_track(store, site, op, phase, books, owed),
        op_told(store, site, op),
        store.defers(owed, exec::requested(site, op, phase), reply, after),
    ensures
        ({
            let (progress, noted) = exec::resumed(site, op, phase, reply, books);
            accounted(store, site, op, progress, noted, after)
        }),
{
    match phase {
        ExecPhase::Landing(script, later) => {
            lemma_landing(store, site, op, script, later, reply, books, owed, after);
        },
        _ => {
            lemma_asking(store, site, op, phase, reply, books, owed, after);
        },
    }
}

/// An operation begins with everything on the books.
proof fn lemma_begins(store: Store, site: SiteView, op: OpView, books: Books, owed: Unsettled)
    requires
        on_the_books(store, site, books, owed),
        op_told(store, site, op),
        !site.recording ==> !(op is SetLink),
    ensures
        on_track(store, site, op, exec::begun(site, op, books.touched), books, owed),
{
    lemma_plan(store, site, op, None, books, owed);
}

/// What is known of what is owed while what was applied is reversed.
spec fn reversing(store: Store, left: UnwindView, owed: Unsettled) -> bool {
    left.error is None ==> {
        &&& kept(store, owed.loose, left.undo, left.dirs)
        &&& left.undo.len() > 0 ==> ready(store, left, owed.loose)
    }
}

/// Whether whatever is owed at an end of the move that is to be reversed next is flushed before.
spec fn ready(store: Store, left: UnwindView, loose: Set<Place>) -> bool {
    left.undo.last() matches Undo::Rename { from, to } ==> {
        let requests = unwind::reversal(left.undo.last(), left.dirs);
        forall|place: Place| #[trigger]
            loose.contains(place) && store.at_end(from, to, place) ==> debts::left_to_flush(
                store,
                requests,
                left.at,
                requests.len() - 1,
            ).contains(place)
    }
}

/// A move begins to be reversed with everything that is owed at its ends among what it flushes.
proof fn lemma_ready(store: Store, left: UnwindView, loose: Set<Place>)
    requires
        left.undo.len() > 0,
        left.at == 0,
        kept(store, loose, left.undo, left.dirs),
    ensures
        ready(store, left, loose),
{
    let n = left.undo.len() - 1;
    assert(kept_at(store, loose, left.undo, left.dirs, n));
    assert(undo_told(store, left.undo[n]));
    assert(left.undo.skip(n + 1) =~= Seq::empty());
    if let Undo::Rename { from, to } = left.undo.last() {
        let requests = unwind::reversal(left.undo.last(), left.dirs);
        let none = Seq::<RequestView>::empty();
        assert(requests =~= (none + flush::calming(left.dirs, from, to)).push(
            RequestView::Rename(from, to),
        ));
        assert forall|place: Place| #[trigger]
            loose.contains(place) && store.at_end(from, to, place) implies debts::left_to_flush(
            store,
            requests,
            0,
            requests.len() - 1,
        ).contains(place) by {
            assert(!covered(store, left.undo.skip(n + 1)).contains(place));
            lemma_calming(store, from, to, left.dirs, none, place);
        }
    }
}

/// What is known of what is owed stays known while a move is reversed.
proof fn lemma_moving_back(
    store: Store,
    left: UnwindView,
    reply: ReplyView,
    owed: Unsettled,
    after: Unsettled,
)
    requires
        left.pending(),
        left.undo.last() is Rename,
        left.error is None,
        reply is Done,
        reversing(store, left, owed),
        store.defers(owed, left.current(), reply, after),
    ensures
        kept(store, after.loose, left.resumed(reply).undo, left.resumed(reply).dirs),
        left.resumed(reply).at > 0 ==> ready(store, left.resumed(reply), after.loose),
{
    let u = left.undo.last();
    let requests = unwind::reversal(u, left.dirs);
    let end = requests.len() - 1;
    lemma_cover(store, u);
    lemma_reversal_dirs(store, u);
    if let Undo::Rename { from, to } = u {
        let (a, b) = (store.place(from), store.place(to));
        let calming = flush::calming(left.dirs, from, to);
        if left.at < end {
            assert(requests[left.at] == calming[left.at]);
            let shaky = Set::new(
                |place: Place| owed.loose.contains(place) && store.at_end(from, to, place),
            );
            debts::lemma_one_flush(store, requests, left.at, end, shaky);
            lemma_kept_less(store, owed.loose, left.undo, left.dirs, after.loose);
            assert forall|place: Place| #[trigger]
                after.loose.contains(place) && store.at_end(from, to, place) implies debts::left_to_flush(
                store,
                requests,
                left.at + 1,
                end,
            ).contains(place) by {
                if let Request::Sync(path, _) = requests[left.at] {
                    assert(shaky.remove(store.place(path)).contains(place));
                }
            }
        } else {
            assert(requests[left.at] == RequestView::Rename(from, to));
            debts::lemma_none_left(store, requests, end);
            assert forall|place: Place| #[trigger] owed.loose.contains(place) implies !tree::within(
                place,
                a,
            ) && !tree::within(place, b) by {
                assert(!store.at_end(from, to, place));
            }
            debts::lemma_relocated(owed.loose, a, b);
            lemma_kept_pop(store, owed.loose, left.undo, left.dirs, after.loose);
        }
    }
}

/// What is known of what is owed stays known while what was applied is reversed.
proof fn lemma_reversing(
    store: Store,
    left: UnwindView,
    reply: ReplyView,
    owed: Unsettled,
    after: Unsettled,
)
    requires
        left.pending(),
        reversing(store, left, owed),
        store.defers(owed, left.current(), reply, after),
    ensures
        reversing(store, left.resumed(reply), after),
        left.resumed(reply).undo.len() > 0 ==> left.resumed(reply).pending(),
{
    let u = left.undo.last();
    let rest = left.resumed(reply);
    lemma_cover(store, u);
    lemma_reversal_dirs(store, u);
    if rest.error is None {
        if u is Rename {
            lemma_moving_back(store, left, reply, owed, after);
        } else if left.at + 1 < unwind::reversal(u, left.dirs).len() {
            lemma_kept_last(store, owed.loose, left.undo, left.dirs, after.loose);
        } else {
            lemma_kept_pop(store, owed.loose, left.undo, left.dirs, after.loose);
        }
        if rest.undo.len() > 0 && rest.at == 0 {
            lemma_ready(store, rest, after.loose);
        }
    }
}

/// The places of the directories that a reversal edits.
proof fn lemma_reversal_dirs(store: Store, undo: UndoView)
    ensures
        match undo {
            Undo::Rename { from, to } => store.places(unwind::reversal_dirs(undo))
                == store.entry_of(from).union(store.entry_of(to)),
            Undo::SetExecutable { .. } => true,
            _ => store.places(unwind::reversal_dirs(undo)) == store.entry_of(
                atomicity::undo_path(undo),
            ),
        },
{
    match undo {
        Undo::Rename { from, to } => {
            debts::lemma_places_of_both(store, exec::dir_of(from), exec::dir_of(to));
            debts::lemma_dir_place(store, from);
            debts::lemma_dir_place(store, to);
        },
        _ => {
            debts::lemma_dir_place(store, atomicity::undo_path(undo));
        },
    }
}

/// What is known of what is owed while everything that was changed is flushed.
spec fn flushing_all(store: Store, root: PathView, script: ScriptView, owed: Unsettled) -> bool {
    let end = script.requests.len() as int;
    &&& script.pending()
    &&& forall|i: int| 0 <= i < script.requests.len() ==> (#[trigger] script.requests[i]) is Sync
    &&& script.requests.last() == RequestView::Sync(root, Durability::Durable)
    &&& owed.loose.subset_of(debts::left_to_flush(store, script.requests, script.at, end))
    &&& owed.fresh.subset_of(debts::left_to_flush(store, script.requests, script.at, end))
}

/// What is known of what is owed stays known while everything that was changed is flushed.
proof fn lemma_flushing_all(
    store: Store,
    root: PathView,
    script: ScriptView,
    reply: ReplyView,
    owed: Unsettled,
    after: Unsettled,
)
    requires
        flushing_all(store, root, script, owed),
        store.defers(owed, script.current(), reply, after),
    ensures
        reply is Done ==> if script.advanced().pending() {
            flushing_all(store, root, script.advanced(), after)
        } else {
            after.nothing()
        },
        after.loose.subset_of(owed.loose),
{
    let end = script.requests.len() as int;
    assert(script.requests[script.at] is Sync);
    debts::lemma_one_flush(store, script.requests, script.at, end, owed.loose);
    debts::lemma_one_flush(store, script.requests, script.at, end, owed.fresh);
    debts::lemma_none_left(store, script.requests, end);
    if reply is Done && !script.advanced().pending() {
        assert(after.loose =~= Set::empty());
        assert(after.fresh =~= Set::empty());
    }
}

/// What is known of what is owed while a reversal is made a fact and the journal is retired.
spec fn retiring(
    store: Store,
    root: PathView,
    journal: PathView,
    script: ScriptView,
    owed: Unsettled,
    dirs: Seq<PathView>,
) -> bool {
    let end = atomicity::dirs_end(dirs, root, journal);
    &&& script.pending()
    &&& script.requests == unwind::retirement(dirs, root, journal)
    &&& if script.at <= end {
        &&& owed.loose.subset_of(debts::left_to_flush(store, script.requests, script.at, end))
        &&& script.at == end && !unwind::in_dir(journal, root) ==> !owed.handed
            && !owed.undrained
    } else {
        owed.loose.subset_of(store.entry_of(journal))
    }
}

/// What is known of what is owed while the journal is retired, whichever directories were edited.
spec fn retires(
    store: Store,
    root: PathView,
    journal: PathView,
    script: ScriptView,
    owed: Unsettled,
) -> bool {
    exists|dirs: Seq<PathView>| #[trigger] retiring(store, root, journal, script, owed, dirs)
}

/// A reversal begins to be made a fact.
proof fn lemma_retiring_begins(
    store: Store,
    root: PathView,
    journal: PathView,
    owed: Unsettled,
    dirs: Seq<PathView>,
)
    requires
        owed.loose.subset_of(store.places(dirs)),
    ensures
        retiring(
            store,
            root,
            journal,
            ScriptView::of(unwind::retirement(dirs, root, journal)),
            owed,
            dirs,
        ),
{
    let requests = unwind::retirement(dirs, root, journal);
    let end = atomicity::dirs_end(dirs, root, journal);
    atomicity::lemma_retirement(dirs, root, journal);
    assert forall|place: Place| #[trigger] owed.loose.contains(place) implies debts::left_to_flush(
        store,
        requests,
        0,
        end,
    ).contains(place) by {
        assert(store.places(dirs).contains(place));
        let i = choose|i: int| 0 <= i < dirs.len() && store.place(#[trigger] dirs[i]) == place;
        assert(requests[i] == RequestView::Sync(dirs[i], Durability::Ordered));
    }
}

/// What is known of what is owed stays known while a reversal is made a fact and the journal is
/// retired.
proof fn lemma_retiring(
    store: Store,
    root: PathView,
    journal: PathView,
    script: ScriptView,
    reply: ReplyView,
    owed: Unsettled,
    after: Unsettled,
    dirs: Seq<PathView>,
)
    requires
        retiring(store, root, journal, script, owed, dirs),
        store.defers(owed, script.current(), reply, after),
        reply is Done,
    ensures
        if script.advanced().pending() {
            retiring(store, root, journal, script.advanced(), after, dirs)
        } else {
            after.loose == Set::<Place>::empty() && !after.handed && !after.undrained
        },
{
    let requests = script.requests;
    let end = atomicity::dirs_end(dirs, root, journal);
    atomicity::lemma_retirement(dirs, root, journal);
    debts::lemma_none_left(store, requests, end);
    if script.at < end {
        assert(requests[script.at] is Sync);
        debts::lemma_one_flush(store, requests, script.at, end, owed.loose);
        if !unwind::in_dir(journal, root) && script.at == end - 1 {
            assert(requests[script.at] == RequestView::Sync(root, Durability::Durable));
        }
    } else if script.at == end {
        assert(owed.loose =~= Set::empty());
        assert(requests[script.at] == RequestView::Remove(journal));
        if !script.advanced().pending() {
            assert(path::parent_of(journal) is None);
            assert(after.loose =~= Set::empty());
        }
    } else {
        if let Some(dir) = path::parent_of(journal) {
            assert(requests[script.at] == RequestView::Sync(dir, Durability::Durable));
            assert(after.loose =~= Set::empty());
        }
    }
}

/// The application of a change set from its beginning: the states it was in, what the storage owed
/// in each, and what it answered from each to the next.
pub struct Course {
    /// The states.
    pub states: Seq<ApplyView>,
    /// What the storage owed.
    pub owed: Seq<Unsettled>,
    /// What the storage answered.
    pub replies: Seq<ReplyView>,
}

impl Course {
    /// Whether the storage did what was asked in state `i`, and the next state is what its answer
    /// makes of that.
    pub open spec fn steps(self, store: Store, i: int) -> bool {
        &&& self.states[i].asked() matches Some(request) && store.defers(
            self.owed[i],
            request,
            self.replies[i],
            self.owed[i + 1],
        )
        &&& self.states[i + 1] == self.states[i].resumed(self.replies[i])
    }

    /// Whether this is an application of `job` by `store`, which owed nothing at first.
    pub open spec fn of(self, store: Store, job: JobView) -> bool {
        &&& self.states.len() == self.replies.len() + 1
        &&& self.owed.len() == self.states.len()
        &&& self.states[0] == ApplyView::of(job)
        &&& self.owed[0].nothing()
        &&& forall|i: int| 0 <= i < self.replies.len() ==> #[trigger] self.steps(store, i)
    }
}

/// Whether every operation of `job` says which directory its entry is in. A lone name below an
/// empty root does not.
pub open spec fn rooted(job: JobView) -> bool {
    forall|i: int|
        0 <= i < job.ops().len() ==> path::parent_of(
            exec::target(job.site, #[trigger] job.ops()[i]),
        ) is Some
}

/// Whether what the operations of `job` move, and what gives way to that, is reached by one name
/// alone. What is also reached through a link to a directory is not.
pub open spec fn names_hold(store: Store, job: JobView) -> bool {
    forall|i: int| 0 <= i < job.ops().len() ==> op_told(store, job.site, #[trigger] job.ops()[i])
}

/// Whether `job` is to be carried out as `store` replaces files.
pub open spec fn fits(store: Store, job: JobView) -> bool {
    &&& job.site.atomic == store.atomic
    &&& job.site.recording == !apply::lone(job.ops(), store.atomic)
}

/// What is known of what is owed while the directories that were made for the journal are flushed.
spec fn homing(store: Store, script: ScriptView, owed: Unsettled) -> bool {
    let end = script.requests.len() as int;
    &&& script.pending()
    &&& forall|i: int|
        0 <= i < script.requests.len() ==> (#[trigger] script.requests[i] matches Request::Sync(
            _,
            need,
        ) && need == Durability::Durable)
    &&& owed.loose == Set::<Place>::empty()
    &&& owed.fresh.subset_of(debts::left_to_flush(store, script.requests, script.at, end))
    &&& !owed.handed
    &&& !owed.undrained
}

/// What is known of what is owed once the journal has a home.
proof fn lemma_homed(
    store: Store,
    job: JobView,
    made: Seq<PathView>,
    owed: Unsettled,
    after: Unsettled,
)
    requires
        owed.nothing(),
        after == owed.with_fresh(owed.fresh.union(store.places(made))),
    ensures
        match job.homed(made) {
            Phase::HomeFlush(script) => homing(store, script, after),
            _ => after.nothing(),
        },
{
    let requests = flush::syncs(made, Durability::Durable);
    let all = debts::left_to_flush(store, requests, 0, requests.len() as int);
    assert forall|place: Place| #[trigger] after.fresh.contains(place) implies all.contains(
        place,
    ) by {
        assert(store.places(made).contains(place));
        let i = choose|i: int| 0 <= i < made.len() && store.place(#[trigger] made[i]) == place;
        assert(requests[i] == RequestView::Sync(made[i], Durability::Durable));
    }
    if made.len() == 0 {
        assert(after.fresh =~= Set::empty());
    }
}

/// What is known of what is owed stays known while the directories that were made for the journal
/// are flushed.
proof fn lemma_homing(
    store: Store,
    script: ScriptView,
    reply: ReplyView,
    owed: Unsettled,
    after: Unsettled,
)
    requires
        homing(store, script, owed),
        store.defers(owed, script.current(), reply, after),
    ensures
        reply is Done ==> if script.advanced().pending() {
            homing(store, script.advanced(), after)
        } else {
            after.nothing()
        },
        after.loose == Set::<Place>::empty(),
        !after.handed,
        !after.undrained,
{
    let end = script.requests.len() as int;
    assert(script.requests[script.at] is Sync);
    debts::lemma_one_flush(store, script.requests, script.at, end, owed.fresh);
    debts::lemma_none_left(store, script.requests, end);
    if reply is Done {
        assert(after.loose =~= Set::empty());
        if !script.advanced().pending() {
            assert(after.fresh =~= Set::empty());
        }
    }
}

/// What is known of what the storage owes up to when the journal is written.
spec fn settled_first(store: Store, job: JobView, state: ApplyView, owed: Unsettled) -> bool {
    &&& state.job == job
    &&& match state.phase {
        Phase::Stale | Phase::ExpectBytes(_) | Phase::ExpectNoLink(_)
        | Phase::ExpectNothing(_) => owed.nothing(),
        Phase::Home | Phase::Encode | Phase::Commit(_) => owed.nothing(),
        Phase::HomeFlush(script) => homing(store, script, owed),
        _ => true,
    }
}

/// What is known up to when the journal is written, in every state of a course.
proof fn lemma_settled_first(store: Store, job: JobView, course: Course, i: int)
    requires
        course.of(store, job),
        0 <= i < course.states.len(),
    ensures
        settled_first(store, job, course.states[i], course.owed[i]),
    decreases i,
{
    if i > 0 {
        lemma_settled_first(store, job, course, i - 1);
        assert(course.steps(store, i - 1));
        let (owed, after) = (course.owed[i - 1], course.owed[i]);
        match (course.states[i - 1].phase, course.replies[i - 1]) {
            (Phase::Home, Reply::Made(made)) => lemma_homed(store, job, made, owed, after),
            (Phase::HomeFlush(script), reply) => lemma_homing(store, script, reply, owed, after),
            _ => {},
        }
    }
}

/// What is known of what the storage owes.
spec fn settled(
    store: Store,
    job: JobView,
    state: ApplyView,
    owed: Unsettled,
) -> bool {
    let ops = job.ops();
    let root = job.site.root;
    &&& state.job == job
    &&& match state.phase {
        Phase::Stale | Phase::ExpectBytes(_) | Phase::ExpectNoLink(_)
        | Phase::ExpectNothing(_) => {
            &&& owed.nothing()
            &&& state.books.undo.len() == 0
            &&& state.books.touched.len() == 0
        },
        Phase::Lone(phase) => {
            &&& apply::lone(ops, store.atomic)
            &&& on_track(store, job.site, ops[0], phase, state.books, owed)
        },
        Phase::LoneFlush(script) => {
            &&& apply::lone(ops, store.atomic)
            &&& flushing_all(store, root, script, owed)
        },
        Phase::Home | Phase::Encode | Phase::Commit(_) => {
            &&& job.site.recording
            &&& owed.nothing()
            &&& state.books.undo.len() == 0
            &&& state.books.touched.len() == 0
            &&& ops.len() > 0
        },
        Phase::HomeFlush(script) => {
            &&& job.site.recording
            &&& state.books.undo.len() == 0
            &&& state.books.touched.len() == 0
            &&& ops.len() > 0
            &&& homing(store, script, owed)
        },
        Phase::Withdraw(_, script) => {
            &&& job.site.recording
            &&& script.pending()
            &&& script.requests == unwind::withdrawal(job.journal)
            &&& owed.loose.subset_of(
                if script.at == 0 {
                    store.put_at(job.journal)
                } else {
                    store.entry_of(job.journal)
                },
            )
            &&& !owed.handed
            &&& !owed.undrained
        },
        Phase::Op(i, phase) => {
            &&& job.site.recording
            &&& 0 <= i < ops.len()
            &&& on_track(store, job.site, ops[i], phase, state.books, owed)
        },
        Phase::Certify(script) => {
            &&& job.site.recording
            &&& ops.len() > 0
            &&& flushing_all(store, root, script, owed)
            &&& kept(store, owed.loose, state.books.undo, Seq::empty())
        },
        Phase::Retire => job.site.recording && ops.len() > 0 && owed.nothing(),
        Phase::Unwind(_, left) => {
            &&& job.site.recording
            &&& left.pending()
            &&& reversing(store, left, owed)
        },
        Phase::Abort(_, script) => {
            &&& job.site.recording
            &&& retires(store, root, job.journal, script, owed)
        },
        Phase::Finished(outcome) => match outcome {
            Ok(()) => {
                &&& owed.loose.subset_of(store.entry_of(job.journal))
                &&& owed.fresh == Set::<Place>::empty()
                &&& !owed.handed
                &&& !owed.undrained
                &&& !job.site.recording || ops.len() == 0 ==> owed.nothing()
            },
            Err(Error::Io(_)) => job.site.recording ==> owed.loose == Set::<Place>::empty()
                && !owed.handed && !owed.undrained,
            Err(_) => true,
        },
    }
}

/// What is known once an operation has landed, or none has.
proof fn lemma_settled_op_from(
    store: Store,
    job: JobView,
    state: ApplyView,
    i: int,
    owed: Unsettled,
)
    requires
        job.site.recording,
        state.job == job,
        state.phase == job.op_from(i, state.books),
        names_hold(store, job),
        0 <= i <= job.ops().len(),
        job.ops().len() > 0,
        on_the_books(store, job.site, state.books, owed),
        i > 0 ==> state.books.touched.len() > 0,
    ensures
        settled(store, job, state, owed),
{
    if i < job.ops().len() {
        assert(op_told(store, job.site, job.ops()[i]));
        lemma_begins(store, job.site, job.ops()[i], state.books, owed);
    } else {
        debts::lemma_flushing(store, state.books.touched, job.site.root, Durability::Durable);
    }
}

/// What is known once something failed, and what was applied is to be reversed.
proof fn lemma_settled_failing(
    store: Store,
    job: JobView,
    state: ApplyView,
    cause: FaultView,
    books: Books,
    owed: Unsettled,
)
    requires
        job.site.recording,
        state.job == job,
        state.phase == job.failing(cause, books).0,
        kept(store, owed.loose, books.undo, Seq::empty()),
    ensures
        settled(store, job, state, owed),
{
    let left = UnwindView::of(books.undo);
    if books.undo.len() > 0 {
        assert(left.pending());
        lemma_ready(store, left, owed.loose);
    } else {
        let dirs = Seq::<PathView>::empty();
        assert(owed.loose.subset_of(store.places(dirs)));
        lemma_retiring_begins(store, job.site.root, job.journal, owed, dirs);
    }
}

/// What is known once the expectations that come before `i` have held.
proof fn lemma_settled_expecting(
    store: Store,
    job: JobView,
    state: ApplyView,
    i: int,
    owed: Unsettled,
)
    requires
        fits(store, job),
        names_hold(store, job),
        state.job == job,
        state.phase == job.expecting_from(i),
        owed.nothing(),
        state.books.undo.len() == 0,
        state.books.touched.len() == 0,
    ensures
        settled(store, job, state, owed),
{
    if i >= job.changes.expected.len() && apply::lone(job.ops(), store.atomic) {
        assert(op_told(store, job.site, job.ops()[0]));
        assert(state.books.touched =~= Seq::empty());
        lemma_begins(store, job.site, job.ops()[0], state.books, owed);
    }
}

/// What is known after one more answer.
proof fn lemma_settled(
    store: Store,
    job: JobView,
    state: ApplyView,
    reply: ReplyView,
    owed: Unsettled,
    after: Unsettled,
)
    requires
        fits(store, job),
        rooted(job),
        names_hold(store, job),
        settled(store, job, state, owed),
        state.asked() matches Some(request) && store.defers(owed, request, reply, after),
    ensures
        settled(store, job, state.resumed(reply), after),
{
    let next = state.resumed(reply);
    let root = job.site.root;
    match state.phase {
        Phase::Stale => {
            if next.phase == job.expecting_from(0) {
                lemma_settled_expecting(store, job, next, 0, after);
            }
        },
        Phase::ExpectBytes(i) => {
            if next.phase == job.expecting_from(i + 1) {
                lemma_settled_expecting(store, job, next, i + 1, after);
            }
        },
        Phase::ExpectNoLink(_) => {},
        Phase::ExpectNothing(i) => {
            if next.phase == job.expecting_from(i + 1) {
                lemma_settled_expecting(store, job, next, i + 1, after);
            }
        },
        Phase::Lone(phase) => {
            let op = job.ops()[0];
            assert(op_told(store, job.site, job.ops()[0]));
            lemma_on_track(store, job.site, op, phase, reply, state.books, owed, after);
            let (progress, noted) = exec::resumed(job.site, op, phase, reply, state.books);
            if progress is Landed {
                debts::lemma_flushing(store, noted.touched, root, Durability::Durable);
            }
        },
        Phase::LoneFlush(script) => {
            lemma_flushing_all(store, root, script, reply, owed, after);
        },
        Phase::Home => {
            if let Reply::Made(made) = reply {
                lemma_homed(store, job, made, owed, after);
            }
        },
        Phase::HomeFlush(script) => {
            lemma_homing(store, script, reply, owed, after);
        },
        Phase::Encode => {},
        Phase::Commit(_) => {
            if reply is Done {
                lemma_settled_op_from(store, job, next, 0, after);
            }
        },
        Phase::Withdraw(cause, script) => {
            if next.phase == apply::failed(cause) {
                assert(after.loose =~= Set::empty());
            }
        },
        Phase::Op(i, phase) => {
            let op = job.ops()[i];
            assert(path::parent_of(exec::target(job.site, job.ops()[i])) is Some);
            assert(op_told(store, job.site, job.ops()[i]));
            lemma_on_track(store, job.site, op, phase, reply, state.books, owed, after);
            let (progress, noted) = exec::resumed(job.site, op, phase, reply, state.books);
            match progress {
                Progress::Running(_) => {},
                Progress::Landed => lemma_settled_op_from(store, job, next, i + 1, after),
                Progress::Failed(fault) => lemma_settled_failing(
                    store,
                    job,
                    next,
                    fault,
                    noted,
                    after,
                ),
            }
        },
        Phase::Certify(script) => {
            lemma_flushing_all(store, root, script, reply, owed, after);
            lemma_kept_less(store, owed.loose, state.books.undo, Seq::empty(), after.loose);
            if let Reply::Failed(fault) = reply {
                lemma_settled_failing(store, job, next, fault, state.books, after);
            }
        },
        Phase::Retire => {},
        Phase::Unwind(cause, left) => {
            lemma_reversing(store, left, reply, owed, after);
            let rest = left.resumed(reply);
            if rest.undo.len() == 0 && rest.error is None {
                assert(after.loose.subset_of(store.places(rest.dirs)));
                lemma_retiring_begins(store, root, job.journal, after, rest.dirs);
            }
        },
        Phase::Abort(_, script) => {
            let dirs = choose|dirs: Seq<PathView>| #[trigger]
                retiring(store, root, job.journal, script, owed, dirs);
            if reply is Done {
                lemma_retiring(store, root, job.journal, script, reply, owed, after, dirs);
            } else {
                atomicity::lemma_retirement(dirs, root, job.journal);
            }
        },
        Phase::Finished(_) => {},
    }
}

/// What is known of every state of a course.
proof fn lemma_settled_throughout(store: Store, job: JobView, course: Course, i: int)
    requires
        fits(store, job),
        rooted(job),
        names_hold(store, job),
        course.of(store, job),
        0 <= i < course.states.len(),
    ensures
        settled(store, job, course.states[i], course.owed[i]),
    decreases i,
{
    if i > 0 {
        lemma_settled_throughout(store, job, course, i - 1);
        assert(course.steps(store, i - 1));
        lemma_settled(
            store,
            job,
            course.states[i - 1],
            course.replies[i - 1],
            course.owed[i - 1],
            course.owed[i],
        );
    }
}

/// A set that was applied survives a power cut: nothing that it changed is owed a flush, and
/// nothing that was flushed can be taken back. Only the removal of the journal may be: what the
/// journal would bring back is already there.
///
/// What the set moves must be reached by one name alone.
pub proof fn law_applied_is_durable(store: Store, job: JobView, course: Course)
    requires
        fits(store, job),
        rooted(job),
        names_hold(store, job),
        course.of(store, job),
    ensures
        course.states.last().ended() matches Some(Ok(())) ==> {
            let owed = course.owed.last();
            &&& owed.loose.subset_of(store.entry_of(job.journal))
            &&& owed.fresh == Set::<Place>::empty()
            &&& !owed.handed
            &&& !owed.undrained
            &&& apply::lone(job.ops(), store.atomic) ==> owed.nothing()
        },
{
    lemma_settled_throughout(store, job, course, course.states.len() - 1);
}

/// A set that was undone stays undone through a power cut: what was put back is owed no flush, and
/// the removal of the journal cannot be taken back, not even of one that was never written whole.
/// Directories that were made and left behind may be.
///
/// What the set moves must be reached by one name alone.
pub proof fn law_abort_is_durable(store: Store, job: JobView, course: Course)
    requires
        fits(store, job),
        rooted(job),
        names_hold(store, job),
        course.of(store, job),
        !apply::lone(job.ops(), store.atomic),
    ensures
        course.states.last().ended() matches Some(Err(Error::Io(_))) ==> {
            let owed = course.owed.last();
            &&& owed.loose == Set::<Place>::empty()
            &&& !owed.handed
            &&& !owed.undrained
        },
{
    lemma_settled_throughout(store, job, course, course.states.len() - 1);
}

/// The journal is not written before every directory above it survives a power cut, and nothing is
/// owed when it is.
pub proof fn law_journal_has_a_durable_home(store: Store, job: JobView, course: Course, i: int)
    requires
        course.of(store, job),
        0 <= i < course.states.len(),
        course.states[i].phase is Commit,
    ensures
        course.owed[i].nothing(),
{
    lemma_settled_first(store, job, course, i);
}

/// The journal goes last. When a set that landed asks for its removal, nothing is owed any more. When
/// a set that was undone does, whatever was put back is flushed and ordered before the removal, and
/// survives a power cut already unless the journal is in the root, which is made to with it.
pub proof fn law_journal_goes_last(store: Store, job: JobView, course: Course, i: int)
    requires
        fits(store, job),
        rooted(job),
        names_hold(store, job),
        course.of(store, job),
        0 <= i < course.states.len(),
    ensures
        course.states[i].phase is Retire ==> course.owed[i].nothing(),
        course.states[i].phase is Abort && course.states[i].asked() == Some(
            RequestView::Remove(job.journal),
        ) ==> {
            &&& course.owed[i].loose == Set::<Place>::empty()
            &&& (path::parent_of(job.journal) matches Some(dir) && path::same(dir, job.site.root))
                || (!course.owed[i].handed && !course.owed[i].undrained)
        },
{
    lemma_settled_throughout(store, job, course, i);
    if let Phase::Abort(_, script) = course.states[i].phase {
        let owed = course.owed[i];
        let dirs = choose|dirs: Seq<PathView>| #[trigger]
            retiring(store, job.site.root, job.journal, script, owed, dirs);
        let end = atomicity::dirs_end(dirs, job.site.root, job.journal);
        atomicity::lemma_retirement(dirs, job.site.root, job.journal);
        debts::lemma_none_left(store, script.requests, end);
        if script.at != end {
            assert(script.requests[script.at] is Sync);
        } else {
            assert(owed.loose =~= Set::empty());
        }
    }
}

/// On a storage that reads paths as their names say, whatever a set moves is reached by one name
/// alone.
pub proof fn law_plain_names_hold(store: Store, job: JobView)
    requires
        forall|parts: Parts| #[trigger] (store.leads)(parts) == path::followed_out(parts),
    ensures
        names_hold(store, job),
{
    assert forall|path: PathView| #[trigger] store.tells(path) by {
        assert forall|other: PathView|
            tree::within(#[trigger] store.place(other), store.place(path)) implies path::lies_below(
            other,
            path,
        ) by {
            let (top, end) = (path::resolved(path), path::resolved(other));
            assert(end.subrange(0, top.len() as int) =~= end.take(top.len() as int));
        }
    }
}

} // verus!
