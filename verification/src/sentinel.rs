//! The sentinel file and the freshness verdict drawn from its content.
use vstd::prelude::*;
use crate::bytes::{blank, is_blank, same_bytes};
use crate::model::{Content, TreeView};
use crate::path::top;

verus! {

/// What an attempt to read a sentinel file found.
#[derive(Debug)]
pub enum Reading {
    /// No file of that name exists.
    Absent,
    /// Something is there, but its content could not be read.
    Unreadable,
    /// The file was read; these are its bytes.
    Content(Vec<u8>),
}

/// The mathematical value of a [`Reading`].
pub enum ReadingView {
    Absent,
    Unreadable,
    Content(Seq<u8>),
}

impl View for Reading {
    type V = ReadingView;

    open spec fn view(&self) -> ReadingView {
        match self {
            Reading::Absent => ReadingView::Absent,
            Reading::Unreadable => ReadingView::Unreadable,
            Reading::Content(bytes) => ReadingView::Content(bytes@),
        }
    }
}

/// What reading the file called `name` in the root of `t` finds. Only a file
/// can be read: anything else of that name is there but unreadable.
pub open spec fn reading(t: TreeView, name: Seq<u8>) -> ReadingView {
    if !t.contains_key(top(name)) {
        ReadingView::Absent
    } else {
        match t[top(name)] {
            Content::File(bytes) => ReadingView::Content(bytes),
            _ => ReadingView::Unreadable,
        }
    }
}

/// What the two sentinels say about the target.
#[derive(Clone, Copy, Debug, PartialEq, Eq, Structural)]
pub enum Verdict {
    /// The source has no sentinel: the producer has not finished.
    NotReady,
    /// The source sentinel could not be read.
    Unreadable,
    /// The source sentinel is empty or all whitespace.
    Blank,
    /// The target already holds the same sentinel bytes.
    Current,
    /// The target holds no sentinel or another one: it has to be rebuilt.
    Stale,
}

/// The verdict for a source reading and a target reading.
///
/// Only a readable, non-blank source sentinel can make the target stale, and
/// it does so unless the target's sentinel was read and is the same, byte
/// for byte.
pub open spec fn verdict(source: ReadingView, target: ReadingView) -> Verdict {
    match source {
        ReadingView::Absent => Verdict::NotReady,
        ReadingView::Unreadable => Verdict::Unreadable,
        ReadingView::Content(bytes) => if is_blank(bytes) {
            Verdict::Blank
        } else if target == ReadingView::Content(bytes) {
            Verdict::Current
        } else {
            Verdict::Stale
        },
    }
}

/// Decides whether the target has to be rebuilt.
pub fn assess(source: &Reading, target: &Reading) -> (v: Verdict)
    ensures
        v == verdict(source@, target@),
{
    match source {
        Reading::Absent => Verdict::NotReady,
        Reading::Unreadable => Verdict::Unreadable,
        Reading::Content(bytes) => {
            if blank(bytes.as_slice()) {
                Verdict::Blank
            } else {
                match target {
                    Reading::Content(held) => {
                        if same_bytes(held.as_slice(), bytes.as_slice()) {
                            Verdict::Current
                        } else {
                            Verdict::Stale
                        }
                    },
                    _ => Verdict::Stale,
                }
            }
        },
    }
}

impl Verdict {
    /// Tells whether this verdict asks for the target to be rebuilt.
    pub fn calls_for_rebuild(&self) -> (r: bool)
        ensures
            r == (*self == Verdict::Stale),
    {
        match self {
            Verdict::Stale => true,
            _ => false,
        }
    }
}

} // verus!
