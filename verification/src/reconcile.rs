//! Reconciliation: bringing a target in line with a source, gated by the sentinel.
use vstd::prelude::*;
use crate::bytes::is_blank;
use crate::model::{failures, lists, run, walks, Content, EntryView, TreeView};
use crate::path::Route;
use crate::plan::{
    cleanup_plan, cleanup_steps, entries_of, populate_plan, populate_steps, steps_of, Op,
};
use crate::sentinel::{assess, reading, verdict, ReadingView, Verdict};
use crate::theorems::{lemma_cleanup_empties, lemma_populate_mirrors};
use crate::tree::Tree;

verus! {

/// The target after a populate: the source itself where the verdict on the
/// two sentinels is stale, the target as it was in every other case.
pub open spec fn populated(source: TreeView, sentinel: Seq<u8>, target: TreeView) -> TreeView {
    if verdict(reading(source, sentinel), reading(target, sentinel)) == Verdict::Stale {
        source
    } else {
        target
    }
}

/// What a populate did.
#[derive(Debug)]
pub struct Outcome {
    /// The verdict that decided.
    pub verdict: Verdict,
    /// The steps that were taken, in their order; none unless the verdict was stale.
    pub steps: Vec<Op>,
}

/// Empties the target: the sentinel first, then every other child of the
/// root, directories with all that lies beneath them. Returns the steps that
/// were taken, in their order.
pub fn cleanup(target: &mut Tree, sentinel: &[u8]) -> (steps: Vec<Op>)
    requires
        old(target).wf(),
    ensures
        final(target).wf(),
        final(target)@ == Map::<Route, Content>::empty(),
        exists|listing: Seq<EntryView>|
            lists(old(target)@, listing) && steps_of(steps@) == #[trigger] cleanup_steps(
                listing,
                sentinel@,
            ),
{
    let listing = target.list();
    let plan = cleanup_plan(&listing, sentinel);
    let nothing = Tree::new();
    proof {
        target.lemma_well_formed();
        lemma_cleanup_empties(target@, nothing@, entries_of(listing@), sentinel@);
    }
    target.run(&nothing, &plan);
    plan
}

/// Rebuilds the target from the source if the sentinels call for it, and
/// tells what it did.
///
/// Nothing is touched unless the source holds a sentinel that can be read
/// and is not blank, and the target holds no sentinel with the same bytes.
/// Then the target is emptied and the source copied into it, the sentinel
/// last, and none of these steps fails. The source is never changed.
pub fn populate(source: &Tree, sentinel: &[u8], target: &mut Tree) -> (out: Outcome)
    requires
        source.wf(),
        old(target).wf(),
    ensures
        final(target).wf(),
        out.verdict == verdict(reading(source@, sentinel@), reading(old(target)@, sentinel@)),
        final(target)@ == populated(source@, sentinel@, old(target)@),
        if out.verdict == Verdict::Stale {
            exists|listing: Seq<EntryView>, walk: Seq<EntryView>|
                lists(old(target)@, listing) && walks(source@, walk) && steps_of(out.steps@)
                    == #[trigger] populate_steps(listing, walk, sentinel@)
        } else {
            out.steps@.len() == 0
        },
        final(target)@ == run(old(target)@, source@, steps_of(out.steps@)),
        failures(old(target)@, source@, steps_of(out.steps@)) == 0,
{
    let verdict = assess(&source.read(sentinel), &target.read(sentinel));
    let mut steps: Vec<Op> = Vec::new();
    if verdict.calls_for_rebuild() {
        let listing = target.list();
        let walk = source.walk();
        steps = populate_plan(&listing, &walk, sentinel);
        proof {
            source.lemma_well_formed();
            target.lemma_well_formed();
            lemma_populate_mirrors(
                target@,
                source@,
                entries_of(listing@),
                entries_of(walk@),
                sentinel@,
            );
        }
        target.run(source, &steps);
    } else {
        assert(steps_of(steps@) =~= Seq::empty());
    }
    Outcome { verdict, steps }
}

/// Populating twice in a row is populating once: the second call finds the
/// target current, or the source as unfit as before, and changes nothing.
pub proof fn lemma_populate_idempotent(source: TreeView, sentinel: Seq<u8>, target: TreeView)
    ensures
        verdict(reading(source, sentinel), reading(populated(source, sentinel, target), sentinel))
            != Verdict::Stale,
        populated(source, sentinel, populated(source, sentinel, target)) == populated(
            source,
            sentinel,
            target,
        ),
{
}

/// A changed sentinel replaces the target: where the target holds the
/// sentinel bytes `held` and the source other bytes `fresh` that are not
/// blank, the target becomes the source and its sentinel reads `fresh`.
pub proof fn lemma_changed_sentinel_replaces(
    source: TreeView,
    sentinel: Seq<u8>,
    target: TreeView,
    held: Seq<u8>,
    fresh: Seq<u8>,
)
    requires
        reading(target, sentinel) == ReadingView::Content(held),
        reading(source, sentinel) == ReadingView::Content(fresh),
        held != fresh,
        !is_blank(fresh),
    ensures
        populated(source, sentinel, target) == source,
        reading(populated(source, sentinel, target), sentinel) == ReadingView::Content(fresh),
{
}

/// A blank sentinel in the source keeps every target as it is.
pub proof fn lemma_blank_sentinel_guards(
    source: TreeView,
    sentinel: Seq<u8>,
    target: TreeView,
    bytes: Seq<u8>,
)
    requires
        reading(source, sentinel) == ReadingView::Content(bytes),
        is_blank(bytes),
    ensures
        verdict(reading(source, sentinel), reading(target, sentinel)) == Verdict::Blank,
        populated(source, sentinel, target) == target,
{
}

} // verus!
