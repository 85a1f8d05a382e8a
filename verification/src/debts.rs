//! What a storage still owes: which of the changes it was asked for a power cut could take back.

use crate::exec;
use crate::flush;
use crate::path::{self, PathView};
use crate::path_set;
use crate::port::{self, Durability, Reply, ReplyView, Request, RequestView};
use crate::tree::{self, Place, Store};
use vstd::prelude::*;

verus! {

/// What a storage has not yet made safe.
pub struct Unsettled {
    /// The files and directories that were changed since they were last flushed.
    pub loose: Set<Place>,
    /// The directories that were made, or received one that was, and were not flushed since.
    pub fresh: Set<Place>,
    /// Whether something was handed to the device that nothing has ordered.
    pub handed: bool,
    /// Whether something was ordered that a power cut could still take back.
    pub undrained: bool,
}

impl Unsettled {
    /// Nothing is owed.
    pub open spec fn nothing(self) -> bool {
        &&& self.loose == Set::<Place>::empty()
        &&& self.fresh == Set::<Place>::empty()
        &&& !self.handed
        &&& !self.undrained
    }

    /// The same with other changed places.
    pub open spec fn with_loose(self, loose: Set<Place>) -> Unsettled {
        Unsettled {
            loose,
            fresh: self.fresh,
            handed: self.handed,
            undrained: self.undrained,
        }
    }

    /// The same with other made directories.
    pub open spec fn with_fresh(self, fresh: Set<Place>) -> Unsettled {
        Unsettled {
            loose: self.loose,
            fresh,
            handed: self.handed,
            undrained: self.undrained,
        }
    }

    /// Once `place` has been carried as far as `need`. What was handed over before is ordered by
    /// the same barrier, and what was ordered before survives by the same drain.
    pub open spec fn flushed(self, place: Place, need: Durability) -> Unsettled {
        Unsettled {
            loose: self.loose.remove(place),
            fresh: self.fresh.remove(place),
            handed: need == Durability::Pushed,
            undrained: match need {
                Durability::Pushed => self.undrained,
                Durability::Ordered => true,
                Durability::Durable => false,
            },
        }
    }

    /// Whether at least `before` is owed, and at most that some of `more` has changed besides.
    pub open spec fn at_most(self, before: Unsettled, more: Set<Place>) -> bool {
        &&& before.loose.subset_of(self.loose)
        &&& self.loose.subset_of(before.loose.union(more))
        &&& self == before.with_loose(self.loose)
    }
}

/// `places` with those at or below `from` moved to `to`.
pub open spec fn relocated(places: Set<Place>, from: Place, to: Place) -> Set<Place> {
    Set::new(
        |place: Place|
            if tree::within(place, to) {
                places.contains(from + place.skip(to.len() as int))
            } else {
                places.contains(place) && !tree::within(place, from)
            },
    )
}

impl Store {
    /// The places that `paths` lead to.
    pub open spec fn places(self, paths: Seq<PathView>) -> Set<Place> {
        Set::new(
            |place: Place|
                exists|i: int| 0 <= i < paths.len() && self.place(#[trigger] paths[i]) == place,
        )
    }

    /// The directory whose entry `path` is, if the path says which.
    pub open spec fn entry_of(self, path: PathView) -> Set<Place> {
        match path::parent_of(path) {
            Some(dir) => set![self.place(dir)],
            None => Set::empty(),
        }
    }

    /// What changes when something is put at `path`: the place itself, and the entry of it.
    pub open spec fn put_at(self, path: PathView) -> Set<Place> {
        self.entry_of(path).insert(self.place(path))
    }

    /// Whether `place` is the place of `path` or lies above it.
    pub open spec fn over(self, path: PathView, place: Place) -> bool {
        tree::within(self.place(path), place)
    }

    /// Whether `place` is at or below either end of a move.
    pub open spec fn at_end(self, from: PathView, to: PathView, place: Place) -> bool {
        tree::within(place, self.place(from)) || tree::within(place, self.place(to))
    }

    /// Whether whatever lies at or below the place of `path` is reached by names below `path` alone.
    pub open spec fn tells(self, path: PathView) -> bool {
        forall|other: PathView|
            tree::within(#[trigger] self.place(other), self.place(path)) ==> path::lies_below(
                other,
                path,
            )
    }

    /// Whether the storage, which owed `before`, owes `after` once it has answered `request` with
    /// `reply`, and the reply is true: what was made is at or above what was asked for, and what was
    /// moved was not moved into itself.
    pub open spec fn defers(
        self,
        before: Unsettled,
        request: RequestView,
        reply: ReplyView,
        after: Unsettled,
    ) -> bool {
        &&& port::answers(request, reply)
        &&& match request {
            Request::ReadLink(_) => {
                &&& after == before
                &&& reply matches Reply::Link(target) ==> (target is None ==> !self.links)
            },
            Request::Executable(_) => {
                &&& after == before
                &&& reply matches Reply::Executable(bit) ==> (bit is None ==> !self.bits)
            },
            Request::Exists(_) | Request::Read(_) | Request::Encode => after == before,
            Request::CreateDirs(path) => match reply {
                Reply::Made(made) => {
                    &&& after == before.with_fresh(before.fresh.union(self.places(made)))
                    &&& forall|i: int|
                        0 <= i < made.len() ==> self.over(path, self.place(#[trigger] made[i]))
                },
                _ => after == before.with_fresh(after.fresh),
            },
            Request::Write(path, _) | Request::CreateNew(path, _) => match reply {
                Reply::Done => after == before.with_loose(before.loose.union(self.put_at(path))),
                _ => after.at_most(before, self.put_at(path)),
            },
            Request::Replace(path, _) => match reply {
                Reply::Done => if self.atomic {
                    after == Unsettled {
                        loose: before.loose.remove(self.place(path)).union(self.entry_of(path)),
                        fresh: before.fresh,
                        handed: before.handed,
                        undrained: true,
                    }
                } else {
                    after == before.with_loose(before.loose.union(self.put_at(path)))
                },
                _ => after.at_most(before, self.put_at(path)),
            },
            Request::WriteAtomic(path, _) => match reply {
                Reply::Done => after == before,
                _ => after.at_most(before, self.put_at(path)),
            },
            Request::Rename(from, to) => match reply {
                Reply::Done => {
                    let (a, b) = (self.place(from), self.place(to));
                    &&& after == before.with_loose(
                        relocated(before.loose, a, b).union(self.entry_of(from)).union(
                            self.entry_of(to),
                        ),
                    ).with_fresh(relocated(before.fresh, a, b))
                    &&& forall|place: Place| #[trigger]
                        self.entry_of(from).union(self.entry_of(to)).contains(place)
                            ==> !self.at_end(from, to, place)
                },
                _ => after == before,
            },
            Request::Remove(path) => {
                let place = self.place(path);
                match reply {
                    Reply::Done => after == before.with_loose(
                        before.loose.remove(place).union(self.entry_of(path)),
                    ),
                    Reply::Failed(fault) => if fault.kind is NotFound {
                        after == before.with_loose(before.loose.remove(place))
                    } else {
                        after == before
                    },
                    _ => false,
                }
            },
            Request::SetExecutable(path, _) => if self.bits {
                match reply {
                    Reply::Done => after == before.with_loose(
                        before.loose.insert(self.place(path)),
                    ),
                    _ => after.at_most(before, set![self.place(path)]),
                }
            } else {
                after == before
            },
            Request::SetLink(path, _) => if self.links {
                match reply {
                    Reply::Done => after == before.with_loose(
                        before.loose.remove(self.place(path)).union(self.entry_of(path)),
                    ),
                    _ => after.at_most(before, self.put_at(path)),
                }
            } else {
                reply is Failed && after == before
            },
            Request::Sync(path, need) => match reply {
                Reply::Done => after == before.flushed(self.place(path), need),
                _ => after == before,
            },
        }
    }
}

/// What lies at neither end of a move stays where it is.
pub(crate) proof fn lemma_relocated(places: Set<Place>, from: Place, to: Place)
    requires
        forall|place: Place| #[trigger]
            places.contains(place) ==> !tree::within(place, from) && !tree::within(place, to),
    ensures
        relocated(places, from, to) == places,
{
    let there = relocated(places, from, to);
    assert forall|place: Place| there.contains(place) == places.contains(place) by {
        if tree::within(place, to) {
            let beside = from + place.skip(to.len() as int);
            assert(beside.take(from.len() as int) =~= from);
            assert(tree::within(beside, from));
        }
    }
    assert(there =~= places);
}

/// What lies within what lies within something lies within it.
pub(crate) proof fn lemma_within(low: Place, middle: Place, high: Place)
    requires
        tree::within(low, middle),
        tree::within(middle, high),
    ensures
        tree::within(low, high),
{
    assert(low.take(high.len() as int) =~= middle.take(high.len() as int));
}

/// The places that more paths lead to.
pub(crate) proof fn lemma_places_grow(store: Store, paths: Seq<PathView>, more: Seq<PathView>)
    ensures
        store.places(path_set::with_paths(paths, more)) == store.places(paths).union(
            store.places(more),
        ),
{
    let all = path_set::with_paths(paths, more);
    path_set::lemma_with_paths(paths, more);
    assert forall|place: Place|
        store.places(all).contains(place) == store.places(paths).union(
            store.places(more),
        ).contains(place) by {
        if store.places(all).contains(place) {
            let i = choose|i: int| 0 <= i < all.len() && store.place(#[trigger] all[i]) == place;
            assert(all.contains(all[i]));
            if paths.contains(all[i]) {
                let j = choose|j: int| 0 <= j < paths.len() && paths[j] == all[i];
                assert(store.place(paths[j]) == place);
            } else {
                let j = choose|j: int| 0 <= j < more.len() && more[j] == all[i];
                assert(store.place(more[j]) == place);
            }
        }
        if store.places(paths).contains(place) {
            let i = choose|i: int|
                0 <= i < paths.len() && store.place(#[trigger] paths[i]) == place;
            assert(paths.contains(paths[i]));
            let j = choose|j: int| 0 <= j < all.len() && all[j] == paths[i];
            assert(store.place(all[j]) == place);
        }
        if store.places(more).contains(place) {
            let i = choose|i: int|
                0 <= i < more.len() && store.place(#[trigger] more[i]) == place;
            assert(path_set::has(all, more[i]));
            let j = choose|j: int| 0 <= j < all.len() && path::same(#[trigger] all[j], more[i]);
            assert(store.place(all[j]) == place);
        }
    }
    assert(store.places(all) =~= store.places(paths).union(store.places(more)));
}

/// The directory that holds a path is the place of its entry.
pub(crate) proof fn lemma_dir_place(store: Store, path: PathView)
    ensures
        store.places(exec::dir_of(path)) == store.entry_of(path),
{
    let dirs = exec::dir_of(path);
    if let Some(dir) = path::parent_of(path) {
        assert(dirs[0] == dir);
        assert(store.place(dirs[0]) == store.place(dir));
    }
    assert(store.places(dirs) =~= store.entry_of(path));
}

/// The places that two lists of paths lead to.
pub(crate) proof fn lemma_places_of_both(store: Store, a: Seq<PathView>, b: Seq<PathView>)
    ensures
        store.places(a + b) == store.places(a).union(store.places(b)),
{
    assert forall|place: Place|
        store.places(a + b).contains(place) == store.places(a).union(store.places(b)).contains(
            place,
        ) by {
        if store.places(a + b).contains(place) {
            let i = choose|i: int|
                0 <= i < (a + b).len() && store.place(#[trigger] (a + b)[i]) == place;
            if i < a.len() {
                assert(store.place(a[i]) == place);
            } else {
                assert(store.place(b[i - a.len()]) == place);
            }
        }
        if store.places(a).contains(place) {
            let i = choose|i: int| 0 <= i < a.len() && store.place(#[trigger] a[i]) == place;
            assert(store.place((a + b)[i]) == place);
        }
        if store.places(b).contains(place) {
            let i = choose|i: int| 0 <= i < b.len() && store.place(#[trigger] b[i]) == place;
            assert(store.place((a + b)[a.len() + i]) == place);
        }
    }
    assert(store.places(a + b) =~= store.places(a).union(store.places(b)));
}

/// The places that the requests from number `at` up to `end` flush.
pub(crate) open spec fn left_to_flush(store: Store, requests: Seq<RequestView>, at: int, end: int) -> Set<Place> {
    Set::new(
        |place: Place|
            exists|i: int|
                at <= i < end && (#[trigger] requests[i] matches Request::Sync(path, _) && store.place(path) == place),
    )
}

/// Making one more flush leaves the others.
pub(crate) proof fn lemma_one_flush(
    store: Store,
    requests: Seq<RequestView>,
    at: int,
    end: int,
    places: Set<Place>,
)
    requires
        at < end,
        requests[at] is Sync,
        places.subset_of(left_to_flush(store, requests, at, end)),
    ensures
        requests[at] matches Request::Sync(path, _) && places.remove(
            store.place(path),
        ).subset_of(left_to_flush(store, requests, at + 1, end)),
{
    if let Request::Sync(path, _) = requests[at] {
        let rest = left_to_flush(store, requests, at + 1, end);
        assert forall|place: Place| #[trigger]
            places.remove(store.place(path)).contains(place) implies rest.contains(place) by {
            assert(left_to_flush(store, requests, at, end).contains(place));
            let i = choose|i: int|
                at <= i < end && (#[trigger] requests[i] matches Request::Sync(path, _) && store.place(path) == place);
            assert(i != at);
        }
    }
}

/// No flush is left once all have been made.
pub(crate) proof fn lemma_none_left(store: Store, requests: Seq<RequestView>, end: int)
    ensures
        left_to_flush(store, requests, end, end) == Set::<Place>::empty(),
{
    assert(left_to_flush(store, requests, end, end) =~= Set::empty());
}

/// A path is among the others unless it is left out.
proof fn lemma_without(paths: Seq<PathView>, out: PathView, i: int)
    requires
        0 <= i < paths.len(),
        !path::same(paths[i], out),
    ensures
        flush::without(paths, out).contains(paths[i]),
    decreases paths.len(),
{
    let rest = flush::without(paths.drop_last(), out);
    if i == paths.len() - 1 {
        assert(rest.push(paths.last())[rest.len() as int] == paths[i]);
    } else {
        assert(paths.drop_last()[i] == paths[i]);
        lemma_without(paths.drop_last(), out, i);
        let j = choose|j: int| 0 <= j < rest.len() && rest[j] == paths[i];
        assert(flush::without(paths, out)[j] == paths[i]);
    }
}

/// A flush of many paths flushes each of them, is made of flushes, and ends with that of the
/// anchor.
pub(crate) proof fn lemma_flushing(store: Store, paths: Seq<PathView>, anchor: PathView, need: Durability)
    requires
        paths.len() > 0,
    ensures
        ({
            let requests = flush::flushing(paths, anchor, need);
            &&& requests.len() > 0
            &&& store.places(paths).subset_of(
                left_to_flush(store, requests, 0, requests.len() as int),
            )
            &&& forall|i: int|
                0 <= i < requests.len() ==> (#[trigger] requests[i]) is Sync
            &&& need != Durability::Pushed ==> requests.last() == RequestView::Sync(anchor, need)
        }),
{
    let requests = flush::flushing(paths, anchor, need);
    let end = requests.len() as int;
    assert forall|place: Place| #[trigger] store.places(paths).contains(place) implies
        left_to_flush(store, requests, 0, end).contains(place) by {
        let i = choose|i: int| 0 <= i < paths.len() && store.place(#[trigger] paths[i]) == place;
        if need == Durability::Pushed {
            assert(requests[i] == RequestView::Sync(paths[i], need));
        } else if path::same(paths[i], anchor) {
            assert(requests[end - 1] == RequestView::Sync(anchor, need));
        } else {
            lemma_without(paths, anchor, i);
            let rest = flush::without(paths, anchor);
            let j = choose|j: int| 0 <= j < rest.len() && rest[j] == paths[i];
            assert(requests[j] == RequestView::Sync(paths[i], Durability::Pushed));
        }
    }
}

} // verus!
