//! Relative paths: a sequence of names, one for each level below a root.
use vstd::prelude::*;
use crate::bytes::{owned, same_bytes};

verus! {

/// The mathematical value of a path: its names, outermost first.
pub type Route = Seq<Seq<u8>>;

/// The route of a direct child of the root.
pub open spec fn top(name: Seq<u8>) -> Route {
    seq![name]
}

/// Tells whether `p` is `root` itself or lies beneath it.
pub open spec fn within(p: Route, root: Route) -> bool {
    root.len() <= p.len() && p.subrange(0, root.len() as int) == root
}

/// A path relative to a root directory. The empty path names the root.
#[derive(Debug)]
pub struct RelPath {
    pub parts: Vec<Vec<u8>>,
}

impl View for RelPath {
    type V = Route;

    open spec fn view(&self) -> Route {
        Seq::new(self.parts@.len(), |i: int| self.parts@[i]@)
    }
}

impl RelPath {
    /// The path made of `parts`, outermost first.
    pub fn from_parts(parts: Vec<Vec<u8>>) -> (r: RelPath)
        ensures
            r.parts == parts,
    {
        RelPath { parts }
    }

    /// The path of the direct child called `name`.
    pub fn single(name: &[u8]) -> (r: RelPath)
        ensures
            r@ == top(name@),
    {
        let mut parts: Vec<Vec<u8>> = Vec::new();
        parts.push(owned(name));
        let r = RelPath { parts };
        assert(r@ =~= top(name@));
        r
    }

    /// The number of names in the path.
    pub fn depth(&self) -> (n: usize)
        ensures
            n == self@.len(),
    {
        self.parts.len()
    }

    /// A copy of the path.
    pub fn duplicate(&self) -> (r: RelPath)
        ensures
            r@ == self@,
    {
        let mut parts: Vec<Vec<u8>> = Vec::new();
        let mut i: usize = 0;
        while i < self.parts.len()
            invariant
                i <= self.parts.len(),
                parts@.len() == i,
                forall|j: int| 0 <= j < i ==> parts@[j]@ == self.parts@[j]@,
            decreases self.parts.len() - i,
        {
            parts.push(owned(self.parts[i].as_slice()));
            i += 1;
        }
        let r = RelPath { parts };
        assert(r@ =~= self@);
        r
    }

    /// Tells whether the two paths hold the same names.
    pub fn same(&self, other: &RelPath) -> (r: bool)
        ensures
            r == (self@ == other@),
    {
        if self.parts.len() != other.parts.len() {
            return false;
        }
        let mut i: usize = 0;
        while i < self.parts.len()
            invariant
                i <= self.parts.len(),
                self.parts.len() == other.parts.len(),
                forall|j: int| 0 <= j < i ==> self@[j] == other@[j],
            decreases self.parts.len() - i,
        {
            if !same_bytes(self.parts[i].as_slice(), other.parts[i].as_slice()) {
                assert(self@[i as int] != other@[i as int]);
                return false;
            }
            i += 1;
        }
        assert(self@ =~= other@);
        true
    }

    /// Tells whether the path names the direct child called `name`.
    pub fn is_top(&self, name: &[u8]) -> (r: bool)
        ensures
            r == (self@ == top(name@)),
    {
        if self.parts.len() != 1 {
            assert(top(name@).len() == 1);
            return false;
        }
        let r = same_bytes(self.parts[0].as_slice(), name);
        proof {
            if r {
                assert(self@ =~= top(name@));
            } else {
                assert(self@[0] != top(name@)[0]);
            }
        }
        r
    }

    /// Tells whether the path is `root` itself or lies beneath it.
    pub fn is_within(&self, root: &RelPath) -> (r: bool)
        ensures
            r == within(self@, root@),
    {
        if root.parts.len() > self.parts.len() {
            return false;
        }
        let mut i: usize = 0;
        while i < root.parts.len()
            invariant
                i <= root.parts.len(),
                root.parts.len() <= self.parts.len(),
                forall|j: int| 0 <= j < i ==> self@[j] == root@[j],
            decreases root.parts.len() - i,
        {
            if !same_bytes(self.parts[i].as_slice(), root.parts[i].as_slice()) {
                assert(self@.subrange(0, root@.len() as int)[i as int] != root@[i as int]);
                return false;
            }
            i += 1;
        }
        assert(self@.subrange(0, root@.len() as int) =~= root@);
        true
    }

    /// Tells whether the path is the directory that would hold `child`.
    pub fn is_parent_of(&self, child: &RelPath) -> (r: bool)
        ensures
            r == (child@.len() > 0 && self@ == child@.drop_last()),
    {
        if child.parts.len() == 0 || self.parts.len() != child.parts.len() - 1 {
            assert(child@.len() > 0 ==> child@.drop_last().len() == child@.len() - 1);
            return false;
        }
        let r = child.is_within(self);
        proof {
            assert(child@.drop_last() =~= child@.subrange(0, self@.len() as int));
        }
        r
    }
}

} // verus!
