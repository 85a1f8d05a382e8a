//! Flushing many paths for the price of one barrier.

use crate::path::{self, PathView, TreePath};
use crate::port::{Durability, Request, RequestView};
use crate::script;
use vstd::prelude::*;

verus! {

/// A flush of each of `paths` as far as `need`, in order.
pub open spec fn syncs(paths: Seq<PathView>, need: Durability) -> Seq<RequestView> {
    Seq::new(paths.len(), |i: int| Request::Sync(paths[i], need))
}

/// `paths` without `path`.
pub open spec fn without(paths: Seq<PathView>, path: PathView) -> Seq<PathView>
    decreases paths.len(),
{
    if paths.len() == 0 {
        paths
    } else if path::same(paths.last(), path) {
        without(paths.drop_last(), path)
    } else {
        without(paths.drop_last(), path).push(paths.last())
    }
}

/// Those of `paths` that are at or below either end of a move.
pub open spec fn moving(paths: Seq<PathView>, from: PathView, to: PathView) -> Seq<PathView>
    decreases paths.len(),
{
    if paths.len() == 0 {
        paths
    } else {
        let before = moving(paths.drop_last(), from, to);
        if path::lies_below(paths.last(), from) || path::lies_below(paths.last(), to) {
            before.push(paths.last())
        } else {
            before
        }
    }
}

/// The requests that order what is still to be flushed at either end of a move, while the names
/// still lead there.
pub open spec fn calming(paths: Seq<PathView>, from: PathView, to: PathView) -> Seq<RequestView> {
    syncs(moving(paths, from, to), Durability::Ordered)
}

/// Where there is nothing to flush nothing is asked for, and what is only to be handed over is handed
/// over path by path.
pub proof fn law_flush_asks_no_more_than_it_must(
    paths: Seq<PathView>,
    anchor: PathView,
    need: Durability,
)
    ensures
        paths.len() == 0 ==> flushing(paths, anchor, need).len() == 0,
        need == Durability::Pushed ==> {
            &&& flushing(paths, anchor, need).len() == paths.len()
            &&& forall|i: int|
                0 <= i < paths.len() ==> #[trigger] flushing(paths, anchor, need)[i]
                    == RequestView::Sync(paths[i], Durability::Pushed)
        },
{
}

/// Before a move exactly those of `paths` are ordered whose names, followed out, begin with those of
/// one of its ends.
pub proof fn law_move_orders_what_it_takes(paths: Seq<PathView>, from: PathView, to: PathView)
    ensures
        forall|i: int|
            0 <= i < paths.len() ==> (calming(paths, from, to).contains(
                Request::Sync(#[trigger] paths[i], Durability::Ordered),
            ) <==> {
                ||| path::resolved(from).is_prefix_of(path::resolved(paths[i]))
                ||| path::resolved(to).is_prefix_of(path::resolved(paths[i]))
            }),
        forall|j: int|
            0 <= j < calming(paths, from, to).len() ==> (#[trigger] calming(
                paths,
                from,
                to,
            )[j] matches Request::Sync(path, need) && need == Durability::Ordered
                && paths.contains(path)),
    decreases paths.len(),
{
    let all = calming(paths, from, to);
    if paths.len() > 0 {
        let before = paths.drop_last();
        let last = paths[paths.len() - 1];
        let some = calming(before, from, to);
        law_move_orders_what_it_takes(before, from, to);
        let ours = path::lies_below(last, from) || path::lies_below(last, to);
        assert(forall|j: int| 0 <= j < some.len() ==> some[j] == #[trigger] all[j]);
        if ours {
            assert(all[some.len() as int] == RequestView::Sync(last, Durability::Ordered));
        }
        assert forall|j: int| 0 <= j < all.len() implies (
        #[trigger] all[j] matches Request::Sync(path, need) && need == Durability::Ordered
            && paths.contains(path)) by {
            if j < some.len() {
                assert(all[j] == some[j]);
                if let Request::Sync(path, _) = some[j] {
                    let k = choose|k: int| 0 <= k < before.len() && before[k] == path;
                    assert(paths[k] == path);
                }
            } else {
                assert(paths.contains(last));
            }
        }
        assert forall|i: int| 0 <= i < paths.len() implies (all.contains(
            Request::Sync(#[trigger] paths[i], Durability::Ordered),
        ) <==> path::lies_below(paths[i], from) || path::lies_below(paths[i], to)) by {
            let wanted = RequestView::Sync(paths[i], Durability::Ordered);
            let taken = path::lies_below(paths[i], from) || path::lies_below(paths[i], to);
            if taken {
                if i < before.len() {
                    assert(paths[i] == before[i]);
                    let k = choose|k: int| 0 <= k < some.len() && some[k] == wanted;
                    assert(all[k] == wanted);
                } else {
                    assert(all[some.len() as int] == wanted);
                }
            }
            if all.contains(wanted) && !taken {
                let k = choose|k: int| 0 <= k < all.len() && all[k] == wanted;
                assert(k < some.len());
                assert(some[k] == wanted);
                assert(some.contains(wanted));
                lemma_none_spared(before, from, to, k);
            }
        }
    }
}

/// Whatever is ordered before a move is at or below an end of it.
proof fn lemma_none_spared(paths: Seq<PathView>, from: PathView, to: PathView, k: int)
    requires
        0 <= k < moving(paths, from, to).len(),
    ensures
        path::lies_below(moving(paths, from, to)[k], from) || path::lies_below(
            moving(paths, from, to)[k],
            to,
        ),
    decreases paths.len(),
{
    if paths.len() > 0 {
        let before = moving(paths.drop_last(), from, to);
        if k < before.len() {
            lemma_none_spared(paths.drop_last(), from, to, k);
            assert(moving(paths, from, to)[k] == before[k]);
        }
    }
}

/// The requests that carry `paths` as far as `need`: each is handed to the device, and one flush of
/// `anchor` then speaks for all of them. The anchor is not handed over besides, and nothing is
/// owed where there are no paths. What is only to be handed over needs no anchor.
pub open spec fn flushing(paths: Seq<PathView>, anchor: PathView, need: Durability) -> Seq<
    RequestView,
> {
    if paths.len() == 0 {
        Seq::empty()
    } else if need == Durability::Pushed {
        syncs(paths, Durability::Pushed)
    } else {
        syncs(without(paths, anchor), Durability::Pushed).push(Request::Sync(anchor, need))
    }
}

/// Asks for a flush of each of `paths` as far as `need`.
pub(crate) fn sync_each(requests: &mut Vec<Request>, paths: &Vec<TreePath>, need: Durability)
    ensures
        path::views(final(requests)@) == path::views(old(requests)@) + syncs(
            path::views(paths@),
            need,
        ),
{
    let ghost before = path::views(requests@);
    let ghost all = path::views(paths@);
    let mut i: usize = 0;
    assert(path::views(requests@) =~= before + syncs(all.take(0), need));
    while i < paths.len()
        invariant
            i <= paths.len(),
            all == path::views(paths@),
            path::views(requests@) == before + syncs(all.take(i as int), need),
        decreases paths.len() - i,
    {
        script::ask(requests, Request::Sync(paths[i].copy(), need));
        assert(path::views(requests@) =~= before + syncs(all.take(i as int + 1), need));
        i += 1;
    }
    assert(all.take(i as int) =~= all);
}

/// `paths` without `path`.
fn all_but(paths: &Vec<TreePath>, path: &TreePath) -> (rest: Vec<TreePath>)
    ensures
        path::views(rest@) == without(path::views(paths@), path@),
{
    let ghost all = path::views(paths@);
    let mut rest: Vec<TreePath> = Vec::new();
    let mut i: usize = 0;
    assert(path::views(rest@) =~= without(all.take(0), path@));
    while i < paths.len()
        invariant
            i <= paths.len(),
            all == path::views(paths@),
            path::views(rest@) == without(all.take(i as int), path@),
        decreases paths.len() - i,
    {
        assert(all.take(i as int + 1).drop_last() =~= all.take(i as int));
        if !paths[i].same(path) {
            let next = paths[i].copy();
            proof {
                path::lemma_views_push(rest@, next);
            }
            rest.push(next);
        }
        i += 1;
    }
    assert(all.take(i as int) =~= all);
    rest
}

/// Asks for a flush of those of `paths` that are at or below either end of a move.
pub(crate) fn calm(
    requests: &mut Vec<Request>,
    paths: &Vec<TreePath>,
    from: &TreePath,
    to: &TreePath,
)
    ensures
        path::views(final(requests)@) == path::views(old(requests)@) + calming(
            path::views(paths@),
            from@,
            to@,
        ),
{
    let ghost all = path::views(paths@);
    let mut shaky: Vec<TreePath> = Vec::new();
    let mut i: usize = 0;
    assert(path::views(shaky@) =~= moving(all.take(0), from@, to@));
    while i < paths.len()
        invariant
            i <= paths.len(),
            all == path::views(paths@),
            path::views(shaky@) == moving(all.take(i as int), from@, to@),
        decreases paths.len() - i,
    {
        assert(all.take(i as int + 1).drop_last() =~= all.take(i as int));
        assert(all.take(i as int + 1).last() == paths@[i as int]@);
        if paths[i].lies_below(from) || paths[i].lies_below(to) {
            let next = paths[i].copy();
            proof {
                path::lemma_views_push(shaky@, next);
            }
            shaky.push(next);
        }
        i += 1;
    }
    assert(all.take(i as int) =~= all);
    sync_each(requests, &shaky, Durability::Ordered);
}

/// The requests that carry `paths` as far as `need`.
pub fn flush_all(paths: &Vec<TreePath>, anchor: &TreePath, need: Durability) -> (requests: Vec<
    Request,
>)
    ensures
        path::views(requests@) == flushing(path::views(paths@), anchor@, need),
{
    let mut requests: Vec<Request> = Vec::new();
    if paths.len() == 0 {
        assert(path::views(requests@) =~= Seq::empty());
    } else if need == Durability::Pushed {
        sync_each(&mut requests, paths, need);
        assert(path::views(requests@) =~= syncs(path::views(paths@), need));
    } else {
        sync_each(&mut requests, &all_but(paths, anchor), Durability::Pushed);
        assert(path::views(requests@) =~= syncs(
            without(path::views(paths@), anchor@),
            Durability::Pushed,
        ));
        script::ask(&mut requests, Request::Sync(anchor.copy(), need));
    }
    requests
}

} // verus!
