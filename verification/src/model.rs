//! The directory tree as a mathematical object, and what each step does to it.
//!
//! A tree is a map from routes to what stands there. Steps are total: one
//! that cannot be carried out fails and leaves the tree as it was. Links are
//! never followed: a link is an entry of its own that holds its target text.
use vstd::prelude::*;
use crate::path::{within, Route};

verus! {

/// The kind of a directory entry.
#[derive(Clone, Copy, Debug, PartialEq, Eq, Structural)]
pub enum Kind {
    /// A regular file, or anything else that is neither directory nor link.
    File,
    /// A directory.
    Dir,
    /// A symbolic link.
    Link,
}

/// What stands at a route.
pub enum Content {
    /// A file and its bytes.
    File(Seq<u8>),
    /// A directory.
    Dir,
    /// A symbolic link and its target text.
    Link(Seq<u8>),
}

/// The kind of what stands at a route.
pub open spec fn kind_of(c: Content) -> Kind {
    match c {
        Content::File(_) => Kind::File,
        Content::Dir => Kind::Dir,
        Content::Link(_) => Kind::Link,
    }
}

/// The content of a directory: every entry beneath it, by its route.
pub type TreeView = Map<Route, Content>;

/// Tells whether an entry could stand at `p`: the route names something, and
/// what would hold it is the root or a directory of the tree.
pub open spec fn has_room(t: TreeView, p: Route) -> bool {
    p.len() > 0 && (p.len() == 1 || (t.contains_key(p.drop_last()) && t[p.drop_last()] is Dir))
}

/// Tells whether a new entry can be placed at `p`: there is room, and the route is free.
pub open spec fn placeable(t: TreeView, p: Route) -> bool {
    has_room(t, p) && !t.contains_key(p)
}

/// A tree in which every entry stands in the root or in a directory.
pub open spec fn well_formed(t: TreeView) -> bool {
    forall|p: Route| #[trigger] t.contains_key(p) ==> has_room(t, p)
}

/// The tree without `root` and all that lies beneath it.
pub open spec fn without(t: TreeView, root: Route) -> TreeView {
    Map::new(|q: Route| t.contains_key(q) && !within(q, root), |q: Route| t[q])
}

/// The ways in which a step changes the target.
#[derive(Clone, Copy, Debug, PartialEq, Eq, Structural)]
pub enum OpKind {
    /// Unlink a file or a link.
    RemoveFile,
    /// Remove a directory with all that lies beneath it.
    RemoveTree,
    /// Create an empty directory.
    CreateDir,
    /// Copy the bytes of the source file at the same route.
    CopyFile,
    /// Create a link with the target text of the source link at the same route.
    CopyLink,
}

/// One step on the target: what to do, and at which route.
pub struct Step {
    pub kind: OpKind,
    pub path: Route,
}

/// Tells whether `step` can be carried out on `target`.
///
/// Removal needs an entry of the right kind. Creation needs room and a free
/// route, except that a file may be copied over a file.
pub open spec fn succeeds(target: TreeView, source: TreeView, step: Step) -> bool {
    let p = step.path;
    match step.kind {
        OpKind::RemoveFile => target.contains_key(p) && !(target[p] is Dir),
        OpKind::RemoveTree => target.contains_key(p) && target[p] is Dir,
        OpKind::CreateDir => placeable(target, p),
        OpKind::CopyFile => {
            &&& source.contains_key(p)
            &&& source[p] is File
            &&& has_room(target, p)
            &&& (target.contains_key(p) ==> target[p] is File)
        },
        OpKind::CopyLink => {
            &&& source.contains_key(p)
            &&& source[p] is Link
            &&& placeable(target, p)
        },
    }
}

/// The target after `step`: changed if the step succeeds, as it was if not.
pub open spec fn effect(target: TreeView, source: TreeView, step: Step) -> TreeView {
    let p = step.path;
    if !succeeds(target, source, step) {
        target
    } else {
        match step.kind {
            OpKind::RemoveFile => target.remove(p),
            OpKind::RemoveTree => without(target, p),
            OpKind::CreateDir => target.insert(p, Content::Dir),
            OpKind::CopyFile => target.insert(p, source[p]),
            OpKind::CopyLink => target.insert(p, source[p]),
        }
    }
}

/// The target after all of `steps`, in order, failed ones skipped.
pub open spec fn run(target: TreeView, source: TreeView, steps: Seq<Step>) -> TreeView
    decreases steps.len(),
{
    if steps.len() == 0 {
        target
    } else {
        effect(run(target, source, steps.drop_last()), source, steps.last())
    }
}

/// The number of `steps` that fail when they are run in order on `target`.
pub open spec fn failures(target: TreeView, source: TreeView, steps: Seq<Step>) -> nat
    decreases steps.len(),
{
    if steps.len() == 0 {
        0
    } else {
        let before = run(target, source, steps.drop_last());
        let earlier = failures(target, source, steps.drop_last());
        if succeeds(before, source, steps.last()) {
            earlier
        } else {
            earlier + 1
        }
    }
}

/// One line of a directory listing: a route and the kind of what stands there.
pub struct EntryView {
    pub path: Route,
    pub kind: Kind,
}

/// Tells whether one of the first `k` entries stands at `p`.
pub open spec fn stands_before(entries: Seq<EntryView>, p: Route, k: int) -> bool {
    exists|j: int| 0 <= j < k && (#[trigger] entries[j]).path == p
}

/// Tells whether `entries` lists the direct children of the root of `t`:
/// each child once, with its kind, and nothing else.
pub open spec fn lists(t: TreeView, entries: Seq<EntryView>) -> bool {
    &&& forall|i: int|
        0 <= i < entries.len() ==> {
            let e = #[trigger] entries[i];
            e.path.len() == 1 && t.contains_key(e.path) && kind_of(t[e.path]) == e.kind
        }
    &&& forall|p: Route|
        p.len() == 1 && #[trigger] t.contains_key(p) ==> stands_before(
            entries,
            p,
            entries.len() as int,
        )
    &&& forall|i: int, j: int|
        0 <= i < j < entries.len() ==> (#[trigger] entries[i]).path != (#[trigger] entries[j]).path
}

/// Tells whether `entries` is a walk of `t`: each entry of the tree once,
/// with its kind, and every directory before what it holds.
pub open spec fn walks(t: TreeView, entries: Seq<EntryView>) -> bool {
    &&& forall|i: int|
        0 <= i < entries.len() ==> {
            let e = #[trigger] entries[i];
            t.contains_key(e.path) && kind_of(t[e.path]) == e.kind
        }
    &&& forall|p: Route| #[trigger]
        t.contains_key(p) ==> stands_before(entries, p, entries.len() as int)
    &&& forall|i: int, j: int|
        0 <= i < j < entries.len() ==> (#[trigger] entries[i]).path != (#[trigger] entries[j]).path
    &&& forall|i: int|
        0 <= i < entries.len() && entries[i].path.len() > 1 ==> #[trigger] stands_before(
            entries,
            entries[i].path.drop_last(),
            i,
        )
}

/// In a well-formed tree every proper ancestor of an entry is a directory of the tree.
pub proof fn lemma_ancestors_are_dirs(t: TreeView, p: Route, n: int)
    requires
        well_formed(t),
        t.contains_key(p),
        0 < n < p.len(),
    ensures
        t.contains_key(p.subrange(0, n)),
        t[p.subrange(0, n)] is Dir,
    decreases p.len() - n,
{
    let parent = p.drop_last();
    assert(has_room(t, p));
    if n == p.len() - 1 {
        assert(p.subrange(0, n) =~= parent);
    } else {
        lemma_ancestors_are_dirs(t, parent, n);
        assert(parent.subrange(0, n) =~= p.subrange(0, n));
    }
}

/// In a well-formed tree the first name of every entry is a direct child of the root.
pub proof fn lemma_top_exists(t: TreeView, p: Route)
    requires
        well_formed(t),
        t.contains_key(p),
    ensures
        p.len() > 0,
        t.contains_key(seq![p[0]]),
        within(p, seq![p[0]]),
{
    assert(has_room(t, p));
    assert(p.subrange(0, 1) =~= seq![p[0]]);
    if p.len() > 1 {
        lemma_ancestors_are_dirs(t, p, 1);
    } else {
        assert(p =~= seq![p[0]]);
    }
}

/// What lies beneath a route also lies beneath every route that its parent lies beneath.
pub proof fn lemma_within_parent(p: Route, root: Route)
    requires
        p.len() > 0,
        within(p.drop_last(), root),
    ensures
        within(p, root),
{
    assert(p.subrange(0, root.len() as int) =~= p.drop_last().subrange(0, root.len() as int));
}

/// Nothing lies beneath an entry of a well-formed tree that is no directory:
/// to remove it with all beneath it is to remove it alone.
pub proof fn lemma_leaf_stands_alone(t: TreeView, p: Route)
    requires
        well_formed(t),
        t.contains_key(p),
        !(t[p] is Dir),
    ensures
        without(t, p) == t.remove(p),
{
    assert(has_room(t, p));
    assert forall|q: Route| t.contains_key(q) && within(q, p) implies q == p by {
        if q.len() > p.len() {
            lemma_ancestors_are_dirs(t, q, p.len() as int);
        } else {
            assert(q.subrange(0, p.len() as int) =~= q);
        }
    }
    assert(within(p, p)) by {
        assert(p.subrange(0, p.len() as int) =~= p);
    }
    assert(without(t, p) =~= t.remove(p));
}

/// Removing an entry with all beneath it keeps a tree well formed.
pub proof fn lemma_without_keeps_form(t: TreeView, root: Route)
    requires
        well_formed(t),
    ensures
        well_formed(without(t, root)),
{
    let after = without(t, root);
    assert forall|q: Route| #[trigger] after.contains_key(q) implies has_room(after, q) by {
        assert(t.contains_key(q));
        assert(has_room(t, q));
        if q.len() > 1 {
            if within(q.drop_last(), root) {
                lemma_within_parent(q, root);
            }
        }
    }
}

/// Placing an entry where it can be placed keeps a tree well formed.
pub proof fn lemma_insert_keeps_form(t: TreeView, p: Route, node: Content)
    requires
        well_formed(t),
        placeable(t, p),
    ensures
        well_formed(t.insert(p, node)),
{
    let after = t.insert(p, node);
    assert forall|q: Route| #[trigger] after.contains_key(q) implies has_room(after, q) by {
        if q != p {
            assert(t.contains_key(q));
        }
        assert(has_room(t, q));
        if q.len() > 1 {
            assert(q.drop_last() != p);
        }
    }
}

/// Every step keeps a well-formed target well formed, whether it succeeds or fails.
pub proof fn lemma_effect_keeps_form(target: TreeView, source: TreeView, step: Step)
    requires
        well_formed(target),
    ensures
        well_formed(effect(target, source, step)),
{
    let p = step.path;
    if succeeds(target, source, step) {
        match step.kind {
            OpKind::RemoveFile => {
                lemma_leaf_stands_alone(target, p);
                lemma_without_keeps_form(target, p);
            },
            OpKind::RemoveTree => {
                lemma_without_keeps_form(target, p);
            },
            OpKind::CreateDir => {
                lemma_insert_keeps_form(target, p, Content::Dir);
            },
            OpKind::CopyFile => {
                if target.contains_key(p) {
                    lemma_leaf_stands_alone(target, p);
                    lemma_without_keeps_form(target, p);
                    let cleared = target.remove(p);
                    assert(has_room(cleared, p)) by {
                        if p.len() > 1 {
                            assert(p.drop_last() != p);
                        }
                    }
                    lemma_insert_keeps_form(cleared, p, source[p]);
                    assert(cleared.insert(p, source[p]) =~= target.insert(p, source[p]));
                } else {
                    lemma_insert_keeps_form(target, p, source[p]);
                }
            },
            OpKind::CopyLink => {
                lemma_insert_keeps_form(target, p, source[p]);
            },
        }
    }
}

/// A run of steps keeps a well-formed target well formed.
pub proof fn lemma_run_keeps_form(target: TreeView, source: TreeView, steps: Seq<Step>)
    requires
        well_formed(target),
    ensures
        well_formed(run(target, source, steps)),
    decreases steps.len(),
{
    if steps.len() > 0 {
        lemma_run_keeps_form(target, source, steps.drop_last());
        lemma_effect_keeps_form(run(target, source, steps.drop_last()), source, steps.last());
    }
}

/// Running two sequences of steps one after the other is running their concatenation.
pub proof fn lemma_run_concat(target: TreeView, source: TreeView, a: Seq<Step>, b: Seq<Step>)
    ensures
        run(target, source, a + b) == run(run(target, source, a), source, b),
        failures(target, source, a + b) == failures(target, source, a) + failures(
            run(target, source, a),
            source,
            b,
        ),
    decreases b.len(),
{
    if b.len() == 0 {
        assert(a + b =~= a);
    } else {
        lemma_run_concat(target, source, a, b.drop_last());
        assert((a + b).drop_last() =~= a + b.drop_last());
        assert((a + b).last() == b.last());
    }
}

/// Running one step is taking its effect.
pub proof fn lemma_run_single(target: TreeView, source: TreeView, step: Step)
    ensures
        run(target, source, seq![step]) == effect(target, source, step),
        failures(target, source, seq![step]) == if succeeds(target, source, step) {
            0nat
        } else {
            1nat
        },
{
    let one = seq![step];
    assert(one.drop_last() =~= Seq::<Step>::empty());
    assert(one.last() == step);
    assert(run(target, source, one.drop_last()) == target);
    assert(failures(target, source, one.drop_last()) == 0);
}

/// A step that fails is skipped and the run goes on: what the other steps do
/// is what they would do if the failed step were not in the plan.
pub proof fn lemma_failed_step_is_skipped(
    target: TreeView,
    source: TreeView,
    before: Seq<Step>,
    step: Step,
    after: Seq<Step>,
)
    requires
        !succeeds(run(target, source, before), source, step),
    ensures
        run(target, source, before + seq![step] + after) == run(target, source, before + after),
        failures(target, source, before + seq![step] + after) == failures(
            target,
            source,
            before + after,
        ) + 1,
{
    let reached = run(target, source, before);
    lemma_run_single(reached, source, step);
    lemma_run_concat(target, source, before, seq![step]);
    lemma_run_concat(target, source, before + seq![step], after);
    lemma_run_concat(target, source, before, after);
}

} // verus!
