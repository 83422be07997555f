//! A directory tree held in memory, with the steps of a plan carried out on it.
//!
//! The tree keeps its entries in the order in which they were placed, so
//! that every directory comes before what it holds: read in that order, the
//! entries are a walk of the tree.
use vstd::prelude::*;
use crate::bytes::{owned, same_bytes};
use crate::model::{
    effect, failures, has_room, kind_of, lemma_insert_keeps_form, lemma_leaf_stands_alone,
    lemma_within_parent, lists, placeable, run, stands_before, succeeds, walks, well_formed,
    without, Content, Kind, OpKind, TreeView,
};
use crate::path::{within, RelPath, Route};
use crate::plan::{entries_of, steps_of, Entry, Op};
use crate::sentinel::{reading, Reading};

verus! {

/// What stands at a path of a [`Tree`].
#[derive(Debug)]
pub enum Node {
    /// A file and its bytes.
    File(Vec<u8>),
    /// A directory.
    Dir,
    /// A symbolic link and its target text.
    Link(Vec<u8>),
}

impl View for Node {
    type V = Content;

    open spec fn view(&self) -> Content {
        match self {
            Node::File(bytes) => Content::File(bytes@),
            Node::Dir => Content::Dir,
            Node::Link(text) => Content::Link(text@),
        }
    }
}

impl Node {
    /// The kind of the node.
    pub fn kind(&self) -> (k: Kind)
        ensures
            k == kind_of(self@),
    {
        match self {
            Node::File(_) => Kind::File,
            Node::Dir => Kind::Dir,
            Node::Link(_) => Kind::Link,
        }
    }

    /// Tells whether the two nodes are of one kind and hold the same bytes.
    pub fn same(&self, other: &Node) -> (r: bool)
        ensures
            r == (self@ == other@),
    {
        match (self, other) {
            (Node::File(a), Node::File(b)) => same_bytes(a.as_slice(), b.as_slice()),
            (Node::Dir, Node::Dir) => true,
            (Node::Link(a), Node::Link(b)) => same_bytes(a.as_slice(), b.as_slice()),
            _ => false,
        }
    }

    /// A copy of the node.
    pub fn duplicate(&self) -> (n: Node)
        ensures
            n@ == self@,
    {
        match self {
            Node::File(bytes) => Node::File(owned(bytes.as_slice())),
            Node::Dir => Node::Dir,
            Node::Link(text) => Node::Link(owned(text.as_slice())),
        }
    }
}

/// An entry of a tree: a path and what stands there.
struct Slot {
    path: RelPath,
    node: Node,
}

/// The mathematical value of a slot.
struct SlotView {
    path: Route,
    node: Content,
}

impl View for Slot {
    type V = SlotView;

    closed spec fn view(&self) -> SlotView {
        SlotView { path: self.path@, node: self.node@ }
    }
}

/// The mathematical value of a list of slots.
spec fn slots_of(entries: Seq<Slot>) -> Seq<SlotView> {
    entries.map_values(|s: Slot| s@)
}

/// The tree that the slots build when they are placed in order.
spec fn built(slots: Seq<SlotView>) -> TreeView
    decreases slots.len(),
{
    if slots.len() == 0 {
        Map::empty()
    } else {
        built(slots.drop_last()).insert(slots.last().path, slots.last().node)
    }
}

/// Tells whether slot `k` could be placed on the tree that the slots before it build.
spec fn fits(slots: Seq<SlotView>, k: int) -> bool {
    placeable(built(slots.take(k)), slots[k].path)
}

/// Tells whether each slot could be placed on the tree that the slots before it build.
spec fn orderly(slots: Seq<SlotView>) -> bool {
    forall|k: int| 0 <= k < slots.len() ==> #[trigger] fits(slots, k)
}

/// The routes of the tree are those of its slots.
proof fn lemma_built_domain(slots: Seq<SlotView>, p: Route)
    ensures
        built(slots).contains_key(p) <==> exists|j: int|
            0 <= j < slots.len() && (#[trigger] slots[j]).path == p,
    decreases slots.len(),
{
    if slots.len() > 0 {
        let rest = slots.drop_last();
        lemma_built_domain(rest, p);
        if built(slots).contains_key(p) {
            if slots.last().path == p {
                assert(slots[slots.len() - 1].path == p);
            } else {
                let j = choose|j: int| 0 <= j < rest.len() && (#[trigger] rest[j]).path == p;
                assert(slots[j].path == p);
            }
        }
        if exists|j: int| 0 <= j < slots.len() && (#[trigger] slots[j]).path == p {
            let j = choose|j: int| 0 <= j < slots.len() && (#[trigger] slots[j]).path == p;
            if j < slots.len() - 1 {
                assert(rest[j].path == p);
            }
        }
    }
}

/// A prefix of an orderly list is orderly.
proof fn lemma_orderly_prefix(slots: Seq<SlotView>, k: int)
    requires
        orderly(slots),
        0 <= k <= slots.len(),
    ensures
        orderly(slots.take(k)),
{
    let front = slots.take(k);
    assert forall|i: int| 0 <= i < front.len() implies #[trigger] fits(front, i) by {
        assert(front.take(i) =~= slots.take(i));
        assert(fits(slots, i));
    }
}

/// In an orderly list no two slots share a route.
proof fn lemma_orderly_distinct(slots: Seq<SlotView>, i: int, j: int)
    requires
        orderly(slots),
        0 <= i < j < slots.len(),
    ensures
        slots[i].path != slots[j].path,
{
    let front = slots.take(j);
    lemma_built_domain(front, slots[i].path);
    assert(front[i].path == slots[i].path);
    assert(fits(slots, j));
}

/// In an orderly list every slot stands in the tree with its own node.
proof fn lemma_built_value(slots: Seq<SlotView>, j: int)
    requires
        orderly(slots),
        0 <= j < slots.len(),
    ensures
        built(slots).contains_key(slots[j].path),
        built(slots)[slots[j].path] == slots[j].node,
    decreases slots.len(),
{
    let rest = slots.drop_last();
    if j < slots.len() - 1 {
        assert(rest =~= slots.take(slots.len() - 1));
        lemma_orderly_prefix(slots, slots.len() - 1);
        lemma_built_value(rest, j);
        lemma_orderly_distinct(slots, j, slots.len() - 1);
    }
}

/// An orderly list builds a well-formed tree.
proof fn lemma_built_form(slots: Seq<SlotView>)
    requires
        orderly(slots),
    ensures
        well_formed(built(slots)),
    decreases slots.len(),
{
    if slots.len() > 0 {
        let rest = slots.drop_last();
        assert(rest =~= slots.take(slots.len() - 1));
        lemma_orderly_prefix(slots, slots.len() - 1);
        lemma_built_form(rest);
        assert(fits(slots, slots.len() - 1));
        lemma_insert_keeps_form(built(rest), slots.last().path, slots.last().node);
    }
}

/// Adding a placeable slot at the end keeps the list orderly and inserts it in the tree.
proof fn lemma_push_slot(slots: Seq<SlotView>, slot: SlotView)
    requires
        orderly(slots),
        placeable(built(slots), slot.path),
    ensures
        orderly(slots.push(slot)),
        built(slots.push(slot)) == built(slots).insert(slot.path, slot.node),
{
    let longer = slots.push(slot);
    assert(longer.drop_last() =~= slots);
    assert forall|k: int| 0 <= k < longer.len() implies #[trigger] fits(longer, k) by {
        if k < slots.len() {
            assert(longer.take(k) =~= slots.take(k));
            assert(fits(slots, k));
        } else {
            assert(longer.take(k) =~= slots);
        }
    }
}

/// The tree of the first `k + 1` slots is that of the first `k` with the next slot inserted.
proof fn lemma_built_next(slots: Seq<SlotView>, k: int)
    requires
        0 <= k < slots.len(),
    ensures
        built(slots.take(k + 1)) == built(slots.take(k)).insert(slots[k].path, slots[k].node),
{
    assert(slots.take(k + 1).drop_last() =~= slots.take(k));
}

/// A slot that lies beneath `root` leaves no trace once `root` is removed.
proof fn lemma_without_dropped(t: TreeView, p: Route, node: Content, root: Route)
    requires
        within(p, root),
    ensures
        without(t.insert(p, node), root) == without(t, root),
{
    assert(without(t.insert(p, node), root) =~= without(t, root));
}

/// A slot that does not lie beneath `root` can be placed as well once `root` is removed.
proof fn lemma_without_kept(t: TreeView, p: Route, node: Content, root: Route)
    requires
        placeable(t, p),
        !within(p, root),
    ensures
        placeable(without(t, root), p),
        without(t.insert(p, node), root) == without(t, root).insert(p, node),
{
    if p.len() > 1 {
        if within(p.drop_last(), root) {
            lemma_within_parent(p, root);
        }
    }
    assert(without(t.insert(p, node), root) =~= without(t, root).insert(p, node));
}

/// A directory tree held in memory.
pub struct Tree {
    entries: Vec<Slot>,
}

impl View for Tree {
    type V = TreeView;

    closed spec fn view(&self) -> TreeView {
        built(slots_of(self.entries@))
    }
}

impl Tree {
    /// The invariant of the representation: the entries stand in an order in
    /// which each could be placed after those before it.
    pub closed spec fn wf(&self) -> bool {
        orderly(slots_of(self.entries@))
    }

    /// A tree that satisfies its invariant is well formed.
    pub proof fn lemma_well_formed(&self)
        requires
            self.wf(),
        ensures
            well_formed(self@),
    {
        lemma_built_form(slots_of(self.entries@));
    }

    /// The empty tree.
    pub fn new() -> (t: Tree)
        ensures
            t.wf(),
            t@ == Map::<Route, Content>::empty(),
    {
        let t = Tree { entries: Vec::new() };
        assert(slots_of(t.entries@) =~= Seq::<SlotView>::empty());
        t
    }

    /// Tells whether the tree holds nothing.
    pub fn is_empty(&self) -> (r: bool)
        ensures
            r == (self@ == Map::<Route, Content>::empty()),
    {
        let r = self.entries.len() == 0;
        proof {
            let slots = slots_of(self.entries@);
            if !r {
                assert(built(slots).contains_key(slots.last().path));
            } else {
                assert(slots =~= Seq::<SlotView>::empty());
            }
        }
        r
    }

    /// The index of the entry at `path`, if there is one.
    fn find(&self, path: &RelPath) -> (r: Option<usize>)
        ensures
            match r {
                Some(i) => {
                    &&& i < self.entries@.len()
                    &&& self.entries@[i as int].path@ == path@
                    &&& self@.contains_key(path@)
                },
                None => !self@.contains_key(path@),
            },
    {
        let ghost slots = slots_of(self.entries@);
        let mut i: usize = 0;
        while i < self.entries.len()
            invariant
                i <= self.entries.len(),
                slots == slots_of(self.entries@),
                forall|j: int| 0 <= j < i ==> (#[trigger] slots[j]).path != path@,
            decreases self.entries.len() - i,
        {
            assert(slots[i as int].path == self.entries@[i as int].path@);
            if self.entries[i].path.same(path) {
                proof {
                    lemma_built_domain(slots, path@);
                }
                return Some(i);
            }
            i += 1;
        }
        proof {
            lemma_built_domain(slots, path@);
        }
        None
    }

    /// What stands at `path`, if anything does.
    pub fn get(&self, path: &RelPath) -> (r: Option<&Node>)
        requires
            self.wf(),
        ensures
            match r {
                Some(node) => self@.contains_key(path@) && self@[path@] == node@,
                None => !self@.contains_key(path@),
            },
    {
        match self.find(path) {
            Some(i) => {
                proof {
                    let slots = slots_of(self.entries@);
                    lemma_built_value(slots, i as int);
                    assert(slots[i as int].path == path@);
                }
                Some(&self.entries[i].node)
            },
            None => None,
        }
    }

    /// Tells whether an entry could stand at `path`.
    fn room_for(&self, path: &RelPath) -> (r: bool)
        requires
            self.wf(),
        ensures
            r == has_room(self@, path@),
    {
        if path.depth() == 0 {
            return false;
        }
        if path.depth() == 1 {
            return true;
        }
        let ghost slots = slots_of(self.entries@);
        let ghost parent = path@.drop_last();
        let mut i: usize = 0;
        while i < self.entries.len()
            invariant
                i <= self.entries.len(),
                self.wf(),
                path@.len() > 1,
                parent == path@.drop_last(),
                slots == slots_of(self.entries@),
                forall|j: int| 0 <= j < i ==> (#[trigger] slots[j]).path != parent,
            decreases self.entries.len() - i,
        {
            assert(slots[i as int].path == self.entries@[i as int].path@);
            if self.entries[i].path.is_parent_of(path) {
                proof {
                    lemma_built_value(slots, i as int);
                }
                return match self.entries[i].node {
                    Node::Dir => true,
                    _ => false,
                };
            }
            i += 1;
        }
        proof {
            lemma_built_domain(slots, parent);
        }
        false
    }

    /// Places `node` at `path` if there is room and the path is free, and
    /// tells whether it did. A tree is built from the root down: a directory
    /// has to be placed before what it holds.
    pub fn put(&mut self, path: RelPath, node: Node) -> (placed: bool)
        requires
            old(self).wf(),
        ensures
            final(self).wf(),
            placed == placeable(old(self)@, path@),
            final(self)@ == if placed {
                old(self)@.insert(path@, node@)
            } else {
                old(self)@
            },
    {
        if !self.room_for(&path) {
            return false;
        }
        if self.find(&path).is_some() {
            return false;
        }
        let ghost before = slots_of(self.entries@);
        let ghost slot = SlotView { path: path@, node: node@ };
        self.entries.push(Slot { path, node });
        proof {
            assert(slots_of(self.entries@) =~= before.push(slot));
            lemma_push_slot(before, slot);
        }
        true
    }

    /// The kind of what stands at `path`, if anything does.
    pub fn kind_at(&self, path: &RelPath) -> (r: Option<Kind>)
        requires
            self.wf(),
        ensures
            match r {
                Some(kind) => self@.contains_key(path@) && kind_of(self@[path@]) == kind,
                None => !self@.contains_key(path@),
            },
    {
        match self.get(path) {
            Some(node) => Some(node.kind()),
            None => None,
        }
    }

    /// Reads the file called `name` in the root of the tree.
    ///
    /// Only a file can be read: a directory or a link of that name is there
    /// but unreadable, for links are not followed.
    pub fn read(&self, name: &[u8]) -> (r: Reading)
        requires
            self.wf(),
        ensures
            r@ == reading(self@, name@),
    {
        let path = RelPath::single(name);
        match self.get(&path) {
            None => Reading::Absent,
            Some(Node::File(bytes)) => Reading::Content(owned(bytes.as_slice())),
            Some(_) => Reading::Unreadable,
        }
    }

    /// Removes `root` and all that lies beneath it.
    fn prune(&mut self, root: &RelPath)
        requires
            old(self).wf(),
        ensures
            final(self).wf(),
            final(self)@ == without(old(self)@, root@),
    {
        let ghost orig = slots_of(self.entries@);
        let ghost mut j: int = 0;
        let mut i: usize = 0;
        proof {
            assert(orig.take(0) =~= Seq::<SlotView>::empty());
            assert(without(built(orig.take(0)), root@) =~= Map::<Route, Content>::empty());
            assert(orig.skip(0) =~= orig);
        }
        while i < self.entries.len()
            invariant
                orderly(orig),
                0 <= j <= orig.len(),
                i <= self.entries.len(),
                self.entries.len() - i == orig.len() - j,
                slots_of(self.entries@).skip(i as int) == orig.skip(j),
                orderly(slots_of(self.entries@).take(i as int)),
                built(slots_of(self.entries@).take(i as int)) == without(
                    built(orig.take(j)),
                    root@,
                ),
            decreases self.entries.len() - i,
        {
            let ghost cur = slots_of(self.entries@);
            let ghost slot = cur[i as int];
            proof {
                assert(cur.skip(i as int)[0] == orig.skip(j)[0]);
                assert(slot == orig[j]);
                assert(slot.path == self.entries@[i as int].path@);
                lemma_built_next(orig, j);
                assert(fits(orig, j));
            }
            if self.entries[i].path.is_within(root) {
                self.entries.remove(i);
                proof {
                    let next = slots_of(self.entries@);
                    assert(next =~= cur.remove(i as int));
                    assert(next.take(i as int) =~= cur.take(i as int));
                    assert(orig.skip(j).skip(1) =~= orig.skip(j + 1));
                    assert(next.skip(i as int) =~= cur.skip(i as int).skip(1));
                    lemma_without_dropped(built(orig.take(j)), slot.path, slot.node, root@);
                    j = j + 1;
                }
            } else {
                proof {
                    lemma_without_kept(built(orig.take(j)), slot.path, slot.node, root@);
                    assert(cur.take(i + 1) =~= cur.take(i as int).push(slot));
                    lemma_push_slot(cur.take(i as int), slot);
                    assert(orig.skip(j).skip(1) =~= orig.skip(j + 1));
                    assert(cur.skip(i + 1) =~= cur.skip(i as int).skip(1));
                    j = j + 1;
                }
                i += 1;
            }
        }
        proof {
            let cur = slots_of(self.entries@);
            assert(cur.take(i as int) =~= cur);
            assert(orig.take(j) =~= orig);
        }
    }

    /// Carries out one step on this tree, with `source` as the tree that
    /// copies are taken from, and tells whether the step succeeded. A step
    /// that fails leaves the tree as it was.
    pub fn apply(&mut self, source: &Tree, op: &Op) -> (done: bool)
        requires
            old(self).wf(),
            source.wf(),
        ensures
            final(self).wf(),
            done == succeeds(old(self)@, source@, op@),
            final(self)@ == effect(old(self)@, source@, op@),
    {
        proof {
            self.lemma_well_formed();
        }
        match op.kind {
            OpKind::RemoveFile => {
                match self.kind_at(&op.path) {
                    None => false,
                    Some(Kind::Dir) => false,
                    Some(_) => {
                        proof {
                            lemma_leaf_stands_alone(self@, op.path@);
                        }
                        self.prune(&op.path);
                        true
                    },
                }
            },
            OpKind::RemoveTree => {
                match self.kind_at(&op.path) {
                    Some(Kind::Dir) => {
                        self.prune(&op.path);
                        true
                    },
                    _ => false,
                }
            },
            OpKind::CreateDir => self.put(op.path.duplicate(), Node::Dir),
            OpKind::CopyFile => {
                match source.get(&op.path) {
                    Some(Node::File(bytes)) => {
                        if !self.room_for(&op.path) {
                            return false;
                        }
                        match self.kind_at(&op.path) {
                            None => {},
                            Some(Kind::File) => {
                                proof {
                                    lemma_leaf_stands_alone(self@, op.path@);
                                }
                                self.prune(&op.path);
                            },
                            Some(_) => {
                                return false;
                            },
                        }
                        let ghost cleared = self@;
                        let placed = self.put(
                            op.path.duplicate(),
                            Node::File(owned(bytes.as_slice())),
                        );
                        proof {
                            assert(has_room(cleared, op.path@)) by {
                                if op.path@.len() > 1 {
                                    assert(op.path@.drop_last() != op.path@);
                                }
                            }
                            assert(self@ =~= old(self)@.insert(op.path@, source@[op.path@]));
                        }
                        placed
                    },
                    _ => false,
                }
            },
            OpKind::CopyLink => {
                match source.get(&op.path) {
                    Some(Node::Link(text)) => self.put(
                        op.path.duplicate(),
                        Node::Link(owned(text.as_slice())),
                    ),
                    _ => false,
                }
            },
        }
    }

    /// Carries out the steps of `plan` in order and returns how many of them
    /// failed. A failed step is skipped and the next one is tried.
    pub fn run(&mut self, source: &Tree, plan: &Vec<Op>) -> (failed: usize)
        requires
            old(self).wf(),
            source.wf(),
        ensures
            final(self).wf(),
            final(self)@ == run(old(self)@, source@, steps_of(plan@)),
            failed == failures(old(self)@, source@, steps_of(plan@)),
    {
        let ghost steps = steps_of(plan@);
        let ghost start = self@;
        let mut failed: usize = 0;
        let mut i: usize = 0;
        proof {
            assert(steps.take(0) =~= Seq::empty());
        }
        while i < plan.len()
            invariant
                i <= plan.len(),
                failed <= i,
                self.wf(),
                source.wf(),
                steps == steps_of(plan@),
                self@ == run(start, source@, steps.take(i as int)),
                failed == failures(start, source@, steps.take(i as int)),
            decreases plan.len() - i,
        {
            proof {
                assert(steps.take(i + 1).drop_last() =~= steps.take(i as int));
                assert(steps.take(i + 1).last() == plan@[i as int]@);
            }
            let done = self.apply(source, &plan[i]);
            if !done {
                failed += 1;
            }
            i += 1;
        }
        proof {
            assert(steps.take(plan.len() as int) =~= steps);
        }
        failed
    }

    /// Lists the direct children of the root, in the order of the tree.
    pub fn list(&self) -> (listing: Vec<Entry>)
        requires
            self.wf(),
        ensures
            lists(self@, entries_of(listing@)),
    {
        let ghost slots = slots_of(self.entries@);
        let ghost mut from: Seq<int> = Seq::empty();
        let mut listing: Vec<Entry> = Vec::new();
        let mut i: usize = 0;
        while i < self.entries.len()
            invariant
                i <= self.entries.len(),
                self.wf(),
                slots == slots_of(self.entries@),
                from.len() == listing@.len(),
                forall|a: int|
                    0 <= a < from.len() ==> {
                        &&& 0 <= #[trigger] from[a] < i
                        &&& entries_of(listing@)[a].path == slots[from[a]].path
                        &&& entries_of(listing@)[a].kind == kind_of(slots[from[a]].node)
                        &&& slots[from[a]].path.len() == 1
                    },
                forall|a: int, b: int| 0 <= a < b < from.len() ==> from[a] < from[b],
                forall|j: int|
                    0 <= j < i && (#[trigger] slots[j]).path.len() == 1 ==> stands_before(
                        entries_of(listing@),
                        slots[j].path,
                        listing@.len() as int,
                    ),
            decreases self.entries.len() - i,
        {
            let slot = &self.entries[i];
            let ghost earlier = entries_of(listing@);
            assert(slots[i as int] == slot@);
            if slot.path.depth() == 1 {
                let entry = Entry { path: slot.path.duplicate(), kind: slot.node.kind() };
                listing.push(entry);
                proof {
                    from = from.push(i as int);
                    let now = entries_of(listing@);
                    assert(now =~= earlier.push(entry@));
                    assert forall|j: int|
                        0 <= j < i + 1 && (#[trigger] slots[j]).path.len() == 1 implies stands_before(
                        now,
                        slots[j].path,
                        listing@.len() as int,
                    ) by {
                        if j < i {
                            assert(stands_before(earlier, slots[j].path, earlier.len() as int));
                            let a = choose|a: int|
                                0 <= a < earlier.len() && (#[trigger] earlier[a]).path
                                    == slots[j].path;
                            assert(now[a].path == slots[j].path);
                        } else {
                            assert(now[earlier.len() as int].path == slots[j].path);
                        }
                    }
                }
            }
            i += 1;
        }
        proof {
            let out = entries_of(listing@);
            assert forall|a: int| 0 <= a < out.len() implies {
                let e = #[trigger] out[a];
                e.path.len() == 1 && self@.contains_key(e.path) && kind_of(self@[e.path]) == e.kind
            } by {
                lemma_built_value(slots, from[a]);
            }
            assert forall|p: Route| p.len() == 1 && #[trigger] self@.contains_key(p) implies stands_before(
                out,
                p,
                out.len() as int,
            ) by {
                lemma_built_domain(slots, p);
                let j = choose|j: int| 0 <= j < slots.len() && (#[trigger] slots[j]).path == p;
                assert(slots[j].path.len() == 1);
            }
            assert forall|a: int, b: int| 0 <= a < b < out.len() implies (#[trigger] out[a]).path != (
            #[trigger] out[b]).path by {
                lemma_orderly_distinct(slots, from[a], from[b]);
            }
        }
        listing
    }

    /// Walks the tree: every entry once, each directory before what it holds.
    pub fn walk(&self) -> (listing: Vec<Entry>)
        requires
            self.wf(),
        ensures
            walks(self@, entries_of(listing@)),
    {
        let ghost slots = slots_of(self.entries@);
        let mut listing: Vec<Entry> = Vec::new();
        let mut i: usize = 0;
        while i < self.entries.len()
            invariant
                i <= self.entries.len(),
                slots == slots_of(self.entries@),
                listing@.len() == i,
                forall|a: int|
                    0 <= a < i ==> {
                        &&& (#[trigger] entries_of(listing@)[a]).path == slots[a].path
                        &&& entries_of(listing@)[a].kind == kind_of(slots[a].node)
                    },
            decreases self.entries.len() - i,
        {
            let slot = &self.entries[i];
            let ghost earlier = entries_of(listing@);
            assert(slots[i as int] == slot@);
            let entry = Entry { path: slot.path.duplicate(), kind: slot.node.kind() };
            listing.push(entry);
            proof {
                assert(entries_of(listing@) =~= earlier.push(entry@));
            }
            i += 1;
        }
        proof {
            let out = entries_of(listing@);
            assert forall|a: int| 0 <= a < out.len() implies {
                let e = #[trigger] out[a];
                self@.contains_key(e.path) && kind_of(self@[e.path]) == e.kind
            } by {
                lemma_built_value(slots, a);
            }
            assert forall|p: Route| #[trigger] self@.contains_key(p) implies stands_before(
                out,
                p,
                out.len() as int,
            ) by {
                lemma_built_domain(slots, p);
                let j = choose|j: int| 0 <= j < slots.len() && (#[trigger] slots[j]).path == p;
                assert(out[j].path == p);
            }
            assert forall|a: int, b: int| 0 <= a < b < out.len() implies (#[trigger] out[a]).path != (
            #[trigger] out[b]).path by {
                lemma_orderly_distinct(slots, a, b);
            }
            assert forall|a: int|
                0 <= a < out.len() && out[a].path.len() > 1 implies #[trigger] stands_before(
                out,
                out[a].path.drop_last(),
                a,
            ) by {
                let parent = out[a].path.drop_last();
                assert(fits(slots, a));
                lemma_built_domain(slots.take(a), parent);
                let j = choose|j: int|
                    0 <= j < slots.take(a).len() && (#[trigger] slots.take(a)[j]).path == parent;
                assert(out[j].path == parent);
            }
        }
        listing
    }

    /// Tells whether the two trees hold the same entries with the same content.
    pub fn same_as(&self, other: &Tree) -> (r: bool)
        requires
            self.wf(),
            other.wf(),
        ensures
            r == (self@ == other@),
    {
        if !self.held_by(other) {
            return false;
        }
        if !other.held_by(self) {
            return false;
        }
        assert(self@ =~= other@);
        true
    }

    /// Tells whether every entry of this tree stands in `other` with the same content.
    fn held_by(&self, other: &Tree) -> (r: bool)
        requires
            self.wf(),
            other.wf(),
        ensures
            r == forall|p: Route| #[trigger]
                self@.contains_key(p) ==> other@.contains_key(p) && other@[p] == self@[p],
    {
        let ghost slots = slots_of(self.entries@);
        let mut i: usize = 0;
        while i < self.entries.len()
            invariant
                i <= self.entries.len(),
                self.wf(),
                other.wf(),
                slots == slots_of(self.entries@),
                forall|j: int|
                    0 <= j < i ==> other@.contains_key((#[trigger] slots[j]).path) && other@[slots[j].path]
                        == slots[j].node,
            decreases self.entries.len() - i,
        {
            let slot = &self.entries[i];
            assert(slots[i as int] == slot@);
            proof {
                lemma_built_value(slots, i as int);
            }
            let there = match other.get(&slot.path) {
                Some(node) => node.same(&slot.node),
                None => false,
            };
            if !there {
                proof {
                    let p = slots[i as int].path;
                    assert(self@.contains_key(p));
                    assert(!(other@.contains_key(p) && other@[p] == self@[p]));
                }
                return false;
            }
            i += 1;
        }
        proof {
            assert forall|p: Route| #[trigger] self@.contains_key(p) implies other@.contains_key(p)
                && other@[p] == self@[p] by {
                lemma_built_domain(slots, p);
                let j = choose|j: int| 0 <= j < slots.len() && (#[trigger] slots[j]).path == p;
                lemma_built_value(slots, j);
            }
        }
        true
    }
}

} // verus!
