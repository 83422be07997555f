//! What the plans achieve, proved on the tree model.
//!
//! The statements speak of any target and source, seen as mathematical trees,
//! and of any listing that is true to them. They assume that no step fails
//! for a reason outside the model, such as a missing permission.
use vstd::prelude::*;
use crate::model::{
    effect, failures, has_room, kind_of, lemma_ancestors_are_dirs, lemma_run_concat,
    lemma_run_single, lemma_top_exists, lists, run, stands_before, succeeds, walks, well_formed, without, Content,
    EntryView, Kind, OpKind, Step, TreeView,
};
use crate::path::{top, within, Route};
use crate::plan::{
    cleanup_steps, copy_step, copy_steps, is_sentinel, lemma_copy_spares_sentinel, not_sentinel,
    populate_steps, removal_step, removal_steps, sentinel_step,
};
use crate::sentinel::reading;

verus! {

/// The tree without the entries whose first name is in `gone`.
spec fn pruned(t: TreeView, gone: Set<Seq<u8>>) -> TreeView {
    Map::new(|q: Route| t.contains_key(q) && !(q.len() > 0 && gone.contains(q[0])), |q: Route| t[q])
}

/// The names of the first `k` listed entries that pass `choice`.
spec fn names_seen(listing: Seq<EntryView>, choice: spec_fn(EntryView) -> bool, k: int) -> Set<
    Seq<u8>,
> {
    Set::new(
        |n: Seq<u8>|
            exists|j: int| 0 <= j < k && choice(listing[j]) && (#[trigger] listing[j]).path == top(n),
    )
}

/// Removing a listed child that still stands removes exactly what bears its name.
proof fn lemma_removal_prunes(
    t: TreeView,
    source: TreeView,
    listing: Seq<EntryView>,
    gone: Set<Seq<u8>>,
    i: int,
)
    requires
        well_formed(t),
        lists(t, listing),
        0 <= i < listing.len(),
        !gone.contains(listing[i].path[0]),
    ensures
        succeeds(pruned(t, gone), source, removal_step(listing[i])),
        effect(pruned(t, gone), source, removal_step(listing[i])) == pruned(
            t,
            gone.insert(listing[i].path[0]),
        ),
{
    let e = listing[i];
    let name = e.path[0];
    let before = pruned(t, gone);
    let after = pruned(t, gone.insert(name));
    assert(e.path =~= top(name));
    assert(before.contains_key(e.path));
    assert(succeeds(before, source, removal_step(e)));
    assert forall|q: Route| t.contains_key(q) implies (within(q, e.path) <==> q[0] == name) by {
        assert(has_room(t, q));
        assert(q.subrange(0, 1) =~= seq![q[0]]);
        if q[0] == name {
            assert(q.subrange(0, 1) =~= e.path);
        } else {
            assert(q.subrange(0, 1)[0] != e.path[0]);
        }
    }
    if e.kind == Kind::Dir {
        assert(without(before, e.path) =~= after);
    } else {
        assert forall|q: Route| t.contains_key(q) && q[0] == name implies q == e.path by {
            assert(has_room(t, q));
            if q.len() > 1 {
                lemma_ancestors_are_dirs(t, q, 1);
                assert(q.subrange(0, 1) =~= e.path);
            } else {
                assert(q =~= e.path);
            }
        }
        assert(before.remove(e.path) =~= after);
    }
}

/// Running the removals of the first `k` listed entries that pass `choice`
/// removes what bears their names, and none of the removals fails.
proof fn lemma_removals_prune(
    t: TreeView,
    source: TreeView,
    listing: Seq<EntryView>,
    choice: spec_fn(EntryView) -> bool,
    gone: Set<Seq<u8>>,
    k: int,
)
    requires
        well_formed(t),
        lists(t, listing),
        0 <= k <= listing.len(),
        forall|j: int|
            0 <= j < listing.len() && choice(#[trigger] listing[j]) ==> !gone.contains(
                listing[j].path[0],
            ),
    ensures
        run(pruned(t, gone), source, removal_steps(listing.take(k).filter(choice))) == pruned(
            t,
            gone + names_seen(listing, choice, k),
        ),
        failures(pruned(t, gone), source, removal_steps(listing.take(k).filter(choice))) == 0,
    decreases k,
{
    if k == 0 {
        assert(listing.take(0) =~= Seq::<EntryView>::empty());
        assert(listing.take(0).filter(choice) =~= Seq::<EntryView>::empty()) by {
            reveal(Seq::filter);
        }
        assert(removal_steps(Seq::<EntryView>::empty()) =~= Seq::<Step>::empty());
        assert(gone + names_seen(listing, choice, 0) =~= gone);
    } else {
        lemma_removals_prune(t, source, listing, choice, gone, k - 1);
        let e = listing[k - 1];
        let seen = listing.take(k - 1);
        let kept = seen.filter(choice);
        let reached = gone + names_seen(listing, choice, k - 1);
        assert(listing.take(k) =~= seen.push(e));
        seen.lemma_filter_push(e, choice);
        if choice(e) {
            let name = e.path[0];
            assert(e.path =~= top(name));
            assert(removal_steps(kept.push(e)) =~= removal_steps(kept).push(removal_step(e)));
            assert(removal_steps(kept).push(removal_step(e)).drop_last() =~= removal_steps(kept));
            assert(!names_seen(listing, choice, k - 1).contains(name));
            lemma_removal_prunes(t, source, listing, reached, k - 1);
            assert(reached.insert(name) =~= gone + names_seen(listing, choice, k)) by {
                assert forall|n: Seq<u8>|
                    names_seen(listing, choice, k).contains(n) implies names_seen(
                    listing,
                    choice,
                    k - 1,
                ).contains(n) || n == name by {
                    let j = choose|j: int|
                        0 <= j < k && choice(listing[j]) && (#[trigger] listing[j]).path == top(n);
                    if j == k - 1 {
                        assert(top(n)[0] == top(name)[0]);
                    }
                }
            }
        } else {
            assert(names_seen(listing, choice, k) =~= names_seen(listing, choice, k - 1)) by {
                assert forall|n: Seq<u8>|
                    names_seen(listing, choice, k).contains(n) implies names_seen(
                    listing,
                    choice,
                    k - 1,
                ).contains(n) by {
                    let j = choose|j: int|
                        0 <= j < k && choice(listing[j]) && (#[trigger] listing[j]).path == top(n);
                    assert(j != k - 1);
                }
            }
        }
    }
}

/// The steps of a cleanup plan empty the target, and none of them fails.
///
/// This holds for every well-formed target and every listing of its direct
/// children, whatever the sentinel's name and whether or not it is there.
pub proof fn lemma_cleanup_empties(
    target: TreeView,
    source: TreeView,
    listing: Seq<EntryView>,
    sentinel: Seq<u8>,
)
    requires
        well_formed(target),
        lists(target, listing),
    ensures
        run(target, source, cleanup_steps(listing, sentinel)) == Map::<Route, Content>::empty(),
        failures(target, source, cleanup_steps(listing, sentinel)) == 0,
{
    let n = listing.len() as int;
    let first = removal_steps(listing.filter(is_sentinel(sentinel)));
    let second = removal_steps(listing.filter(not_sentinel(sentinel)));
    let none = Set::<Seq<u8>>::empty();
    let firsts = names_seen(listing, is_sentinel(sentinel), n);
    let seconds = names_seen(listing, not_sentinel(sentinel), n);
    assert(listing.take(n) =~= listing);
    assert(pruned(target, none) =~= target);
    lemma_removals_prune(target, source, listing, is_sentinel(sentinel), none, n);
    assert(none + firsts =~= firsts);
    assert forall|j: int|
        0 <= j < listing.len() && not_sentinel(sentinel)(#[trigger] listing[j]) implies !firsts.contains(
        listing[j].path[0],
    ) by {
        if firsts.contains(listing[j].path[0]) {
            assert(listing[j].path =~= top(listing[j].path[0]));
        }
    }
    lemma_removals_prune(target, source, listing, not_sentinel(sentinel), firsts, n);
    lemma_run_concat(target, source, first, second);
    let all = firsts + seconds;
    assert(pruned(target, all) =~= Map::<Route, Content>::empty()) by {
        assert forall|q: Route| target.contains_key(q) implies q.len() > 0 && all.contains(q[0]) by {
            lemma_top_exists(target, q);
            let p = seq![q[0]];
            assert(p.len() == 1 && target.contains_key(p));
            assert(stands_before(listing, p, listing.len() as int));
            let i = choose|i: int| 0 <= i < listing.len() && (#[trigger] listing[i]).path == p;
            assert(listing[i].path == top(q[0]));
            if listing[i].path == top(sentinel) {
                assert(is_sentinel(sentinel)(listing[i]));
                assert(firsts.contains(q[0]));
            } else {
                assert(not_sentinel(sentinel)(listing[i]));
                assert(seconds.contains(q[0]));
            }
        }
    }
}

/// The part of the source that the first `k` walked entries cover, the sentinel left out.
spec fn copied(source: TreeView, walk: Seq<EntryView>, sentinel: Seq<u8>, k: int) -> TreeView {
    Map::new(|p: Route| p != top(sentinel) && stands_before(walk, p, k), |p: Route| source[p])
}

/// Copying the next walked entry succeeds and extends what is covered by it.
proof fn lemma_copy_extends(source: TreeView, walk: Seq<EntryView>, sentinel: Seq<u8>, k: int)
    requires
        well_formed(source),
        walks(source, walk),
        source.contains_key(top(sentinel)) ==> !(source[top(sentinel)] is Dir),
        0 < k <= walk.len(),
        walk[k - 1].path != top(sentinel),
    ensures
        succeeds(copied(source, walk, sentinel, k - 1), source, copy_step(walk[k - 1])),
        effect(copied(source, walk, sentinel, k - 1), source, copy_step(walk[k - 1])) == copied(
            source,
            walk,
            sentinel,
            k,
        ),
{
    let e = walk[k - 1];
    let p = e.path;
    let before = copied(source, walk, sentinel, k - 1);
    assert(source.contains_key(p) && kind_of(source[p]) == e.kind);
    assert(has_room(source, p));
    assert(!before.contains_key(p));
    assert(has_room(before, p)) by {
        if p.len() > 1 {
            assert(stands_before(walk, p.drop_last(), k - 1));
            assert(before.contains_key(p.drop_last()));
        }
    }
    assert(succeeds(before, source, copy_step(e)));
    assert(e.kind == Kind::Dir ==> source[p] == Content::Dir);
    assert(effect(before, source, copy_step(e)) == before.insert(p, source[p]));
    assert(before.insert(p, source[p]) =~= copied(source, walk, sentinel, k));
}

/// Running the copies of the first `k` walked entries on an empty target
/// yields what they cover of the source, and none of the copies fails.
proof fn lemma_copies_cover(source: TreeView, walk: Seq<EntryView>, sentinel: Seq<u8>, k: int)
    requires
        well_formed(source),
        walks(source, walk),
        source.contains_key(top(sentinel)) ==> !(source[top(sentinel)] is Dir),
        0 <= k <= walk.len(),
    ensures
        run(Map::empty(), source, copy_steps(walk.take(k), sentinel)) == copied(
            source,
            walk,
            sentinel,
            k,
        ),
        failures(Map::empty(), source, copy_steps(walk.take(k), sentinel)) == 0,
    decreases k,
{
    let choice = not_sentinel(sentinel);
    if k == 0 {
        assert(walk.take(0) =~= Seq::<EntryView>::empty());
        assert(walk.take(0).filter(choice) =~= Seq::<EntryView>::empty()) by {
            reveal(Seq::filter);
        }
        assert(copy_steps(walk.take(0), sentinel) =~= Seq::<Step>::empty());
        assert(copied(source, walk, sentinel, 0) =~= Map::<Route, Content>::empty());
    } else {
        lemma_copies_cover(source, walk, sentinel, k - 1);
        let e = walk[k - 1];
        let seen = walk.take(k - 1);
        assert(walk.take(k) =~= seen.push(e));
        seen.lemma_filter_push(e, choice);
        if choice(e) {
            let earlier = copy_steps(seen, sentinel);
            assert(copy_steps(walk.take(k), sentinel) =~= earlier.push(copy_step(e)));
            assert(earlier.push(copy_step(e)).drop_last() =~= earlier);
            lemma_copy_extends(source, walk, sentinel, k);
        } else {
            assert(copied(source, walk, sentinel, k - 1) =~= copied(source, walk, sentinel, k));
        }
    }
}

/// The steps of a copy plan, run on an empty target, yield the source
/// without its sentinel, and none of them fails.
///
/// This holds for every well-formed source in which the sentinel's name is
/// free or stands for something other than a directory, and every walk of it.
pub proof fn lemma_copy_mirrors(source: TreeView, walk: Seq<EntryView>, sentinel: Seq<u8>)
    requires
        well_formed(source),
        walks(source, walk),
        source.contains_key(top(sentinel)) ==> !(source[top(sentinel)] is Dir),
    ensures
        run(Map::empty(), source, copy_steps(walk, sentinel)) == source.remove(top(sentinel)),
        failures(Map::empty(), source, copy_steps(walk, sentinel)) == 0,
{
    let n = walk.len() as int;
    lemma_copies_cover(source, walk, sentinel, n);
    assert(walk.take(n) =~= walk);
    assert(copied(source, walk, sentinel, n) =~= source.remove(top(sentinel)));
}

/// In a populate plan the sentinel comes last: the last step copies it, and
/// no step before that one puts anything where the sentinel stands.
pub proof fn lemma_sentinel_comes_last(
    listing: Seq<EntryView>,
    walk: Seq<EntryView>,
    sentinel: Seq<u8>,
)
    ensures
        populate_steps(listing, walk, sentinel).len() > 0,
        populate_steps(listing, walk, sentinel).last() == sentinel_step(sentinel),
        forall|i: int|
            0 <= i < populate_steps(listing, walk, sentinel).len() - 1 ==> {
                let step = #[trigger] populate_steps(listing, walk, sentinel)[i];
                step.path == top(sentinel) ==> step.kind == OpKind::RemoveFile || step.kind
                    == OpKind::RemoveTree
            },
{
    let clean = cleanup_steps(listing, sentinel);
    let copy = copy_steps(walk, sentinel);
    let all = populate_steps(listing, walk, sentinel);
    lemma_copy_spares_sentinel(walk, sentinel);
    assert forall|i: int| 0 <= i < all.len() - 1 implies {
        let step = #[trigger] all[i];
        step.path == top(sentinel) ==> step.kind == OpKind::RemoveFile || step.kind
            == OpKind::RemoveTree
    } by {
        if i >= clean.len() {
            assert(all[i] == copy[i - clean.len()]);
        }
    }
}

/// Tells whether `step` puts nothing at `p`: it removes, or it works elsewhere.
spec fn spares(step: Step, p: Route) -> bool {
    step.path == p ==> step.kind == OpKind::RemoveFile || step.kind == OpKind::RemoveTree
}

/// A route that is free stays free through steps that put nothing there.
proof fn lemma_free_stays_free(target: TreeView, source: TreeView, steps: Seq<Step>, p: Route)
    requires
        !target.contains_key(p),
        forall|i: int| 0 <= i < steps.len() ==> spares(#[trigger] steps[i], p),
    ensures
        !run(target, source, steps).contains_key(p),
    decreases steps.len(),
{
    if steps.len() > 0 {
        let earlier = steps.drop_last();
        assert forall|i: int| 0 <= i < earlier.len() implies spares(#[trigger] earlier[i], p) by {
            assert(earlier[i] == steps[i]);
        }
        lemma_free_stays_free(target, source, earlier, p);
        assert(spares(steps[steps.len() - 1], p));
    }
}

/// Where the target holds something under the sentinel's name, the first step
/// of a cleanup plan removes it.
proof fn lemma_sentinel_goes_first(
    target: TreeView,
    source: TreeView,
    listing: Seq<EntryView>,
    sentinel: Seq<u8>,
)
    requires
        lists(target, listing),
        target.contains_key(top(sentinel)),
    ensures
        cleanup_steps(listing, sentinel).len() > 0,
        !effect(target, source, cleanup_steps(listing, sentinel)[0]).contains_key(top(sentinel)),
{
    let p = top(sentinel);
    let choice = is_sentinel(sentinel);
    let chosen = listing.filter(choice);
    assert(p.len() == 1);
    assert(stands_before(listing, p, listing.len() as int));
    let i = choose|i: int| 0 <= i < listing.len() && (#[trigger] listing[i]).path == p;
    assert(choice(listing[i]));
    listing.lemma_filter_contains(choice, i);
    let e = chosen[0];
    listing.lemma_filter_pred(choice, 0);
    assert(e.path == p);
    assert(chosen.contains(e));
    listing.lemma_filter_contains_rev(choice, e);
    let j = choose|j: int| 0 <= j < listing.len() && listing[j] == e;
    assert(kind_of(target[listing[j].path]) == e.kind);
    assert(cleanup_steps(listing, sentinel)[0] == removal_step(e));
    assert(succeeds(target, source, removal_step(e)));
    assert(within(p, p)) by {
        assert(p.subrange(0, p.len() as int) =~= p);
    }
}

/// The sentinel marks completion: while a rebuild is under way the target
/// never shows the sentinel of the source. Before the first step it shows
/// another one or none; from then on and up to the last step it shows none.
pub proof fn lemma_sentinel_marks_completion(
    target: TreeView,
    source: TreeView,
    listing: Seq<EntryView>,
    walk: Seq<EntryView>,
    sentinel: Seq<u8>,
    k: int,
)
    requires
        lists(target, listing),
        source.contains_key(top(sentinel)),
        reading(target, sentinel) != reading(source, sentinel),
        0 <= k < populate_steps(listing, walk, sentinel).len(),
    ensures
        reading(run(target, source, populate_steps(listing, walk, sentinel).take(k)), sentinel)
            != reading(source, sentinel),
        k > 0 ==> !run(
            target,
            source,
            populate_steps(listing, walk, sentinel).take(k),
        ).contains_key(top(sentinel)),
{
    let p = top(sentinel);
    let steps = populate_steps(listing, walk, sentinel);
    if k == 0 {
        assert(steps.take(0) =~= Seq::<Step>::empty());
    } else {
        let first = steps[0];
        let rest = steps.take(k).skip(1);
        assert(steps.take(k) =~= seq![first] + rest);
        lemma_run_concat(target, source, seq![first], rest);
        lemma_run_single(target, source, first);
        lemma_sentinel_comes_last(listing, walk, sentinel);
        let after = effect(target, source, first);
        if target.contains_key(p) {
            lemma_sentinel_goes_first(target, source, listing, sentinel);
            assert(first == cleanup_steps(listing, sentinel)[0]);
        } else {
            assert(spares(steps[0], p));
        }
        assert forall|i: int| 0 <= i < rest.len() implies spares(#[trigger] rest[i], p) by {
            assert(rest[i] == steps[i + 1]);
        }
        lemma_free_stays_free(after, source, rest, p);
    }
}

/// Copying the sentinel onto a mirror that lacks only the sentinel completes the mirror.
proof fn lemma_sentinel_completes(source: TreeView, sentinel: Seq<u8>)
    requires
        source.contains_key(top(sentinel)),
        source[top(sentinel)] is File,
    ensures
        succeeds(source.remove(top(sentinel)), source, sentinel_step(sentinel)),
        effect(source.remove(top(sentinel)), source, sentinel_step(sentinel)) == source,
{
    let bare = source.remove(top(sentinel));
    assert(top(sentinel).len() == 1);
    assert(has_room(bare, top(sentinel)));
    assert(bare.insert(top(sentinel), source[top(sentinel)]) =~= source);
}

/// The steps of a populate plan turn the target into the source, and none of them fails.
///
/// This holds for every well-formed target and source whose listings are
/// true to them, as long as the source holds the sentinel as a file. After
/// the run every entry of the source stands in the target with the same kind
/// and content, the sentinel among them, and nothing else does.
pub proof fn lemma_populate_mirrors(
    target: TreeView,
    source: TreeView,
    listing: Seq<EntryView>,
    walk: Seq<EntryView>,
    sentinel: Seq<u8>,
)
    requires
        well_formed(target),
        well_formed(source),
        lists(target, listing),
        walks(source, walk),
        source.contains_key(top(sentinel)),
        source[top(sentinel)] is File,
    ensures
        run(target, source, populate_steps(listing, walk, sentinel)) == source,
        failures(target, source, populate_steps(listing, walk, sentinel)) == 0,
{
    let clean = cleanup_steps(listing, sentinel);
    let copy = copy_steps(walk, sentinel);
    let last = seq![sentinel_step(sentinel)];
    lemma_cleanup_empties(target, source, listing, sentinel);
    lemma_copy_mirrors(source, walk, sentinel);
    lemma_run_concat(target, source, clean, copy);
    lemma_run_concat(target, source, clean + copy, last);
    lemma_sentinel_completes(source, sentinel);
    lemma_run_single(source.remove(top(sentinel)), source, sentinel_step(sentinel));
}

} // verus!
