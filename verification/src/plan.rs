//! Plans: the steps that empty a target and fill it again, in order.
//!
//! The caller lists the target's direct children and walks the source, hands
//! both listings in, and carries out the steps that come back one by one. A
//! step that fails is reported and the next one is tried.
use vstd::prelude::*;
use crate::model::{EntryView, Kind, OpKind, Step};
use crate::path::{top, RelPath};

verus! {

/// One line of a directory listing.
#[derive(Debug)]
pub struct Entry {
    /// Where the entry stands, relative to the listed directory.
    pub path: RelPath,
    /// What stands there.
    pub kind: Kind,
}

impl View for Entry {
    type V = EntryView;

    open spec fn view(&self) -> EntryView {
        EntryView { path: self.path@, kind: self.kind }
    }
}

/// One step of a plan.
#[derive(Debug)]
pub struct Op {
    /// What to do.
    pub kind: OpKind,
    /// Where, relative to the target and, for a copy, to the source as well.
    pub path: RelPath,
}

impl View for Op {
    type V = Step;

    open spec fn view(&self) -> Step {
        Step { kind: self.kind, path: self.path@ }
    }
}

/// The mathematical value of a listing.
pub open spec fn entries_of(listing: Seq<Entry>) -> Seq<EntryView> {
    listing.map_values(|e: Entry| e@)
}

/// The mathematical value of a plan.
pub open spec fn steps_of(plan: Seq<Op>) -> Seq<Step> {
    plan.map_values(|op: Op| op@)
}

/// The step that removes a listed entry: a directory with all beneath it, anything else alone.
pub open spec fn removal_step(e: EntryView) -> Step {
    Step { kind: if e.kind == Kind::Dir { OpKind::RemoveTree } else { OpKind::RemoveFile }, path: e.path }
}

/// The step that copies a walked entry to the same route under the target.
pub open spec fn copy_step(e: EntryView) -> Step {
    Step {
        kind: match e.kind {
            Kind::File => OpKind::CopyFile,
            Kind::Dir => OpKind::CreateDir,
            Kind::Link => OpKind::CopyLink,
        },
        path: e.path,
    }
}

/// The step that copies the sentinel file itself.
pub open spec fn sentinel_step(sentinel: Seq<u8>) -> Step {
    Step { kind: OpKind::CopyFile, path: top(sentinel) }
}

/// The test for the entry that stands where the sentinel does.
pub open spec fn is_sentinel(sentinel: Seq<u8>) -> spec_fn(EntryView) -> bool {
    |e: EntryView| e.path == top(sentinel)
}

/// The test for every entry but the one that stands where the sentinel does.
pub open spec fn not_sentinel(sentinel: Seq<u8>) -> spec_fn(EntryView) -> bool {
    |e: EntryView| e.path != top(sentinel)
}

/// The removal steps for `entries`, in their order.
pub open spec fn removal_steps(entries: Seq<EntryView>) -> Seq<Step> {
    entries.map_values(|e: EntryView| removal_step(e))
}

/// The steps that empty a target with the given direct children: the
/// sentinel goes first, then the others in the order of the listing.
pub open spec fn cleanup_steps(listing: Seq<EntryView>, sentinel: Seq<u8>) -> Seq<Step> {
    removal_steps(listing.filter(is_sentinel(sentinel))) + removal_steps(
        listing.filter(not_sentinel(sentinel)),
    )
}

/// The steps that copy a walked source, in the order of the walk, the sentinel left out.
pub open spec fn copy_steps(walk: Seq<EntryView>, sentinel: Seq<u8>) -> Seq<Step> {
    walk.filter(not_sentinel(sentinel)).map_values(|e: EntryView| copy_step(e))
}

/// The steps that rebuild a target: empty it, copy the source, and copy the sentinel last.
pub open spec fn populate_steps(
    listing: Seq<EntryView>,
    walk: Seq<EntryView>,
    sentinel: Seq<u8>,
) -> Seq<Step> {
    cleanup_steps(listing, sentinel) + copy_steps(walk, sentinel) + seq![sentinel_step(sentinel)]
}

/// No step of a copy plan touches the sentinel: it reaches the target by the
/// last step of a populate plan and by no other.
pub proof fn lemma_copy_spares_sentinel(walk: Seq<EntryView>, sentinel: Seq<u8>)
    ensures
        forall|i: int|
            0 <= i < copy_steps(walk, sentinel).len() ==> (#[trigger] copy_steps(
                walk,
                sentinel,
            )[i]).path != top(sentinel),
    decreases walk.len(),
{
    let choice = not_sentinel(sentinel);
    if walk.len() == 0 {
        assert(walk.filter(choice) =~= Seq::<EntryView>::empty()) by {
            reveal(Seq::filter);
        }
    } else {
        let seen = walk.drop_last();
        lemma_copy_spares_sentinel(seen, sentinel);
        assert(walk =~= seen.push(walk.last()));
        seen.lemma_filter_push(walk.last(), choice);
        if choice(walk.last()) {
            assert(copy_steps(walk, sentinel) =~= copy_steps(seen, sentinel).push(
                copy_step(walk.last()),
            ));
        }
    }
}

/// The step that removes `entry`.
pub fn removal_op(entry: &Entry) -> (op: Op)
    ensures
        op@ == removal_step(entry@),
{
    let kind = match entry.kind {
        Kind::Dir => OpKind::RemoveTree,
        _ => OpKind::RemoveFile,
    };
    Op { kind, path: entry.path.duplicate() }
}

/// The step that copies `entry`.
pub fn copy_op(entry: &Entry) -> (op: Op)
    ensures
        op@ == copy_step(entry@),
{
    let kind = match entry.kind {
        Kind::File => OpKind::CopyFile,
        Kind::Dir => OpKind::CreateDir,
        Kind::Link => OpKind::CopyLink,
    };
    Op { kind, path: entry.path.duplicate() }
}

/// Appends to `plan` the removal of each listed entry that is the sentinel
/// (`wanted`) or of each that is not (`!wanted`).
fn push_removals(plan: &mut Vec<Op>, listing: &Vec<Entry>, sentinel: &[u8], wanted: bool)
    ensures
        steps_of(final(plan)@) == steps_of(old(plan)@) + removal_steps(
            entries_of(listing@).filter(
                if wanted {
                    is_sentinel(sentinel@)
                } else {
                    not_sentinel(sentinel@)
                },
            ),
        ),
{
    let ghost choice = if wanted {
        is_sentinel(sentinel@)
    } else {
        not_sentinel(sentinel@)
    };
    let ghost entries = entries_of(listing@);
    let ghost before = steps_of(plan@);
    let mut i: usize = 0;
    proof {
        assert(entries.take(0) =~= Seq::<EntryView>::empty());
        assert(entries.take(0).filter(choice) =~= Seq::<EntryView>::empty()) by {
            reveal(Seq::filter);
        }
        assert(steps_of(plan@) =~= before + removal_steps(entries.take(0).filter(choice)));
    }
    while i < listing.len()
        invariant
            i <= listing.len(),
            entries == entries_of(listing@),
            choice == if wanted {
                is_sentinel(sentinel@)
            } else {
                not_sentinel(sentinel@)
            },
            steps_of(plan@) == before + removal_steps(entries.take(i as int).filter(choice)),
        decreases listing.len() - i,
    {
        let entry = &listing[i];
        let hit = entry.path.is_top(sentinel);
        proof {
            let seen = entries.take(i as int);
            assert(entries.take(i + 1) =~= seen.push(entry@));
            seen.lemma_filter_push(entry@, choice);
            assert(choice(entry@) == (hit == wanted));
        }
        if hit == wanted {
            let ghost kept = entries.take(i as int).filter(choice);
            let ghost earlier = plan@;
            plan.push(removal_op(entry));
            proof {
                assert(steps_of(plan@) =~= steps_of(earlier).push(removal_step(entry@)));
                assert(removal_steps(kept.push(entry@)) =~= removal_steps(kept).push(
                    removal_step(entry@),
                ));
                assert(steps_of(plan@) =~= before + removal_steps(kept.push(entry@)));
            }
        }
        i += 1;
    }
    proof {
        assert(entries.take(listing.len() as int) =~= entries);
    }
}

/// Plans the emptying of a target whose direct children are `listing`.
///
/// The sentinel is removed first, so that nobody who sees it sees it over a
/// target that is half gone.
pub fn cleanup_plan(listing: &Vec<Entry>, sentinel: &[u8]) -> (plan: Vec<Op>)
    ensures
        steps_of(plan@) == cleanup_steps(entries_of(listing@), sentinel@),
{
    let mut plan: Vec<Op> = Vec::new();
    assert(steps_of(plan@) =~= Seq::<Step>::empty());
    push_removals(&mut plan, listing, sentinel, true);
    push_removals(&mut plan, listing, sentinel, false);
    assert(steps_of(plan@) =~= cleanup_steps(entries_of(listing@), sentinel@));
    plan
}

/// Appends to `plan` the copy of each walked entry but the sentinel.
fn push_copies(plan: &mut Vec<Op>, walk: &Vec<Entry>, sentinel: &[u8])
    ensures
        steps_of(final(plan)@) == steps_of(old(plan)@) + copy_steps(entries_of(walk@), sentinel@),
{
    let ghost choice = not_sentinel(sentinel@);
    let ghost entries = entries_of(walk@);
    let ghost before = steps_of(plan@);
    let mut i: usize = 0;
    proof {
        assert(entries.take(0) =~= Seq::<EntryView>::empty());
        assert(entries.take(0).filter(choice) =~= Seq::<EntryView>::empty()) by {
            reveal(Seq::filter);
        }
        assert(steps_of(plan@) =~= before + copy_steps(entries.take(0), sentinel@));
    }
    while i < walk.len()
        invariant
            i <= walk.len(),
            entries == entries_of(walk@),
            choice == not_sentinel(sentinel@),
            steps_of(plan@) == before + copy_steps(entries.take(i as int), sentinel@),
        decreases walk.len() - i,
    {
        let entry = &walk[i];
        let hit = entry.path.is_top(sentinel);
        proof {
            let seen = entries.take(i as int);
            assert(entries.take(i + 1) =~= seen.push(entry@));
            seen.lemma_filter_push(entry@, choice);
            assert(choice(entry@) == !hit);
        }
        if !hit {
            let ghost kept = entries.take(i as int).filter(choice);
            let ghost earlier = plan@;
            plan.push(copy_op(entry));
            proof {
                assert(steps_of(plan@) =~= steps_of(earlier).push(copy_step(entry@)));
                assert(kept.push(entry@).map_values(|e: EntryView| copy_step(e)) =~= kept.map_values(
                    |e: EntryView| copy_step(e),
                ).push(copy_step(entry@)));
                assert(steps_of(plan@) =~= before + copy_steps(entries.take(i + 1), sentinel@));
            }
        }
        i += 1;
    }
    proof {
        assert(entries.take(walk.len() as int) =~= entries);
    }
}

/// Plans the copy of a walked source: one step for each entry, in the order
/// of the walk, and none for the sentinel.
pub fn copy_plan(walk: &Vec<Entry>, sentinel: &[u8]) -> (plan: Vec<Op>)
    ensures
        steps_of(plan@) == copy_steps(entries_of(walk@), sentinel@),
        forall|i: int| 0 <= i < plan@.len() ==> (#[trigger] plan@[i])@.path != top(sentinel@),
{
    let mut plan: Vec<Op> = Vec::new();
    assert(steps_of(plan@) =~= Seq::<Step>::empty());
    push_copies(&mut plan, walk, sentinel);
    proof {
        assert(steps_of(plan@) =~= copy_steps(entries_of(walk@), sentinel@));
        lemma_copy_spares_sentinel(entries_of(walk@), sentinel@);
        assert forall|i: int| 0 <= i < plan@.len() implies (#[trigger] plan@[i])@.path != top(
            sentinel@,
        ) by {
            assert(steps_of(plan@)[i] == plan@[i]@);
        }
    }
    plan
}

/// Plans the rebuilding of a target whose direct children are `listing`
/// from a source whose walk is `walk`.
///
/// The target is emptied, then the source is copied, and the sentinel is
/// copied last: whoever sees it in the target sees it beside a whole tree.
pub fn populate_plan(listing: &Vec<Entry>, walk: &Vec<Entry>, sentinel: &[u8]) -> (plan: Vec<Op>)
    ensures
        steps_of(plan@) == populate_steps(entries_of(listing@), entries_of(walk@), sentinel@),
{
    let mut plan = cleanup_plan(listing, sentinel);
    push_copies(&mut plan, walk, sentinel);
    let ghost earlier = plan@;
    plan.push(Op { kind: OpKind::CopyFile, path: RelPath::single(sentinel) });
    proof {
        assert(steps_of(plan@) =~= steps_of(earlier).push(sentinel_step(sentinel@)));
        assert(steps_of(plan@) =~= populate_steps(
            entries_of(listing@),
            entries_of(walk@),
            sentinel@,
        ));
    }
    plan
}

} // verus!
