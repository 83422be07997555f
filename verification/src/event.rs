//! Change notifications for the watched source directory, and how they are answered.
//!
//! The watch is an inotify watch. An event carries the mask that the kernel
//! reported and, where it concerns a child of the directory, the child's name.
use vstd::prelude::*;
use nix::sys::inotify::AddWatchFlags;
use crate::bytes::same_bytes;

verus! {

/// A file that was open for writing was closed.
pub const CLOSE_WRITE: u32 = 0x0000_0008;

/// A child of the watched directory was deleted.
pub const DELETE: u32 = 0x0000_0200;

/// The watched directory itself was deleted.
pub const DELETE_SELF: u32 = 0x0000_0400;

/// The watched directory itself was moved.
pub const MOVE_SELF: u32 = 0x0000_0800;

/// The events that the watch has to report.
pub const WATCHED: u32 = CLOSE_WRITE | DELETE | MOVE_SELF | DELETE_SELF;

/// The bits of `nix::sys::inotify::AddWatchFlags::IN_CLOSE_WRITE`, which nix
/// takes from libc's constant of the same name. Trusted: that the value is
/// the kernel's `0x8`.
#[verifier::external_body]
fn close_write_bits() -> (bits: u32)
    ensures
        bits == CLOSE_WRITE,
{
    AddWatchFlags::IN_CLOSE_WRITE.bits()
}

/// The bits of `nix::sys::inotify::AddWatchFlags::IN_DELETE`, which nix takes
/// from libc's constant of the same name. Trusted: that the value is the
/// kernel's `0x200`.
#[verifier::external_body]
fn delete_bits() -> (bits: u32)
    ensures
        bits == DELETE,
{
    AddWatchFlags::IN_DELETE.bits()
}

/// The bits of `nix::sys::inotify::AddWatchFlags::IN_DELETE_SELF`, which nix
/// takes from libc's constant of the same name. Trusted: that the value is
/// the kernel's `0x400`.
#[verifier::external_body]
fn delete_self_bits() -> (bits: u32)
    ensures
        bits == DELETE_SELF,
{
    AddWatchFlags::IN_DELETE_SELF.bits()
}

/// The bits of `nix::sys::inotify::AddWatchFlags::IN_MOVE_SELF`, which nix
/// takes from libc's constant of the same name. Trusted: that the value is
/// the kernel's `0x800`.
#[verifier::external_body]
fn move_self_bits() -> (bits: u32)
    ensures
        bits == MOVE_SELF,
{
    AddWatchFlags::IN_MOVE_SELF.bits()
}

/// The mask to register the watch with: the four kinds of event that the
/// dispatcher answers, and no other.
pub fn watch_mask() -> (mask: u32)
    ensures
        mask == WATCHED,
{
    close_write_bits() | delete_bits() | move_self_bits() | delete_self_bits()
}

/// One notification.
#[derive(Debug)]
pub struct Event {
    /// The event mask as the kernel reported it.
    pub mask: u32,
    /// The name of the child that the event concerns, if it concerns one.
    pub name: Option<Vec<u8>>,
}

/// The mathematical value of an [`Event`].
pub struct EventView {
    pub mask: u32,
    pub name: Option<Seq<u8>>,
}

impl View for Event {
    type V = EventView;

    open spec fn view(&self) -> EventView {
        EventView {
            mask: self.mask,
            name: match self.name {
                Some(name) => Some(name@),
                None => None,
            },
        }
    }
}

/// Why the dispatcher stopped.
#[derive(Clone, Copy, Debug, PartialEq, Eq, Structural)]
pub enum Fault {
    /// The watched directory was deleted or moved away.
    SourceGone,
    /// The next batch of events could not be read.
    ReadFailed,
}

/// What the caller has to do in answer to an event.
#[derive(Clone, Copy, Debug, PartialEq, Eq, Structural)]
pub enum Reaction {
    /// Populate the target from the source.
    Populate,
    /// Empty the target.
    Cleanup,
    /// Nothing.
    Ignore,
    /// Stop for good and report the fault.
    Stop(Fault),
}

/// The answer to an event.
///
/// An event that names the sentinel and reports exactly that it was written
/// and closed asks for a populate; one that names the sentinel and reports
/// exactly that it was deleted asks for a cleanup. Any other event stops the
/// dispatcher if it says that the watched directory itself was deleted or
/// moved, and is ignored if not.
pub open spec fn reaction(event: EventView, sentinel: Seq<u8>) -> Reaction {
    if event.name == Some(sentinel) && event.mask == CLOSE_WRITE {
        Reaction::Populate
    } else if event.name == Some(sentinel) && event.mask == DELETE {
        Reaction::Cleanup
    } else if event.mask & (DELETE_SELF | MOVE_SELF) != 0 {
        Reaction::Stop(Fault::SourceGone)
    } else {
        Reaction::Ignore
    }
}

/// Decides what to do in answer to `event`.
pub fn dispatch(event: &Event, sentinel: &[u8]) -> (r: Reaction)
    ensures
        r == reaction(event@, sentinel@),
{
    let named = match &event.name {
        Some(name) => same_bytes(name.as_slice(), sentinel),
        None => false,
    };
    if named && event.mask == close_write_bits() {
        Reaction::Populate
    } else if named && event.mask == delete_bits() {
        Reaction::Cleanup
    } else if event.mask & (delete_self_bits() | move_self_bits()) != 0 {
        Reaction::Stop(Fault::SourceGone)
    } else {
        Reaction::Ignore
    }
}

/// The two states of the dispatcher.
#[derive(Clone, Copy, Debug, PartialEq, Eq, Structural)]
pub enum Phase {
    /// Events are answered.
    Running,
    /// A fault was met: nothing is answered any more.
    Terminated,
}

/// The state after an event, and the answer to it. A running dispatcher
/// gives the event's own answer and terminates if that is to stop; a
/// terminated one ignores everything.
pub open spec fn step(phase: Phase, event: EventView, sentinel: Seq<u8>) -> (Phase, Reaction) {
    if phase == Phase::Terminated {
        (Phase::Terminated, Reaction::Ignore)
    } else {
        let r = reaction(event, sentinel);
        (
            if r is Stop {
                Phase::Terminated
            } else {
                Phase::Running
            },
            r,
        )
    }
}

/// The state after a batch of events, each answered before the next is looked at.
pub open spec fn phase_after(phase: Phase, events: Seq<EventView>, sentinel: Seq<u8>) -> Phase
    decreases events.len(),
{
    if events.len() == 0 {
        phase
    } else {
        step(phase_after(phase, events.drop_last(), sentinel), events.last(), sentinel).0
    }
}

/// The answers to a batch of events, one for each, in their order.
pub open spec fn answers(phase: Phase, events: Seq<EventView>, sentinel: Seq<u8>) -> Seq<Reaction>
    decreases events.len(),
{
    if events.len() == 0 {
        Seq::empty()
    } else {
        answers(phase, events.drop_last(), sentinel).push(
            step(phase_after(phase, events.drop_last(), sentinel), events.last(), sentinel).1,
        )
    }
}

/// The mathematical value of a batch of events.
pub open spec fn events_of(batch: Seq<Event>) -> Seq<EventView> {
    batch.map_values(|e: Event| e@)
}

/// The dispatcher: it answers events until a fault terminates it.
#[derive(Debug)]
pub struct Dispatcher {
    phase: Phase,
}

impl Dispatcher {
    /// The state of the dispatcher.
    pub closed spec fn spec_phase(&self) -> Phase {
        self.phase
    }

    /// A running dispatcher.
    pub fn new() -> (d: Dispatcher)
        ensures
            d.spec_phase() == Phase::Running,
    {
        Dispatcher { phase: Phase::Running }
    }

    /// The state of the dispatcher.
    #[verifier::when_used_as_spec(spec_phase)]
    pub fn phase(&self) -> (p: Phase)
        ensures
            p == self.spec_phase(),
    {
        self.phase
    }

    /// Tells whether the dispatcher has terminated.
    pub fn is_terminated(&self) -> (r: bool)
        ensures
            r == (self.spec_phase() == Phase::Terminated),
    {
        match self.phase {
            Phase::Terminated => true,
            Phase::Running => false,
        }
    }

    /// Answers one event.
    pub fn handle(&mut self, event: &Event, sentinel: &[u8]) -> (r: Reaction)
        ensures
            (final(self).spec_phase(), r) == step(old(self).spec_phase(), event@, sentinel@),
    {
        if self.is_terminated() {
            return Reaction::Ignore;
        }
        let r = dispatch(event, sentinel);
        match r {
            Reaction::Stop(_) => {
                self.phase = Phase::Terminated;
            },
            _ => {},
        }
        r
    }

    /// Answers a batch of events in the order in which they were delivered.
    /// The result holds one answer for each event; after an answer that
    /// stops the dispatcher, all further ones are to ignore.
    pub fn handle_all(&mut self, batch: &Vec<Event>, sentinel: &[u8]) -> (out: Vec<Reaction>)
        ensures
            final(self).spec_phase() == phase_after(
                old(self).spec_phase(),
                events_of(batch@),
                sentinel@,
            ),
            out@ == answers(old(self).spec_phase(), events_of(batch@), sentinel@),
    {
        let ghost events = events_of(batch@);
        let ghost start = self.spec_phase();
        let mut out: Vec<Reaction> = Vec::new();
        let mut i: usize = 0;
        proof {
            assert(events.take(0) =~= Seq::<EventView>::empty());
        }
        while i < batch.len()
            invariant
                i <= batch.len(),
                events == events_of(batch@),
                self.spec_phase() == phase_after(start, events.take(i as int), sentinel@),
                out@ == answers(start, events.take(i as int), sentinel@),
            decreases batch.len() - i,
        {
            proof {
                assert(events.take(i + 1).drop_last() =~= events.take(i as int));
                assert(events.take(i + 1).last() == batch@[i as int]@);
            }
            let r = self.handle(&batch[i], sentinel);
            out.push(r);
            i += 1;
        }
        proof {
            assert(events.take(batch.len() as int) =~= events);
        }
        out
    }

    /// Records that the next batch of events could not be read: the
    /// dispatcher terminates. A running dispatcher answers with the fault, a
    /// terminated one has nothing more to say.
    pub fn read_failed(&mut self) -> (r: Reaction)
        ensures
            final(self).spec_phase() == Phase::Terminated,
            r == if old(self).spec_phase() == Phase::Running {
                Reaction::Stop(Fault::ReadFailed)
            } else {
                Reaction::Ignore
            },
    {
        if self.is_terminated() {
            return Reaction::Ignore;
        }
        self.phase = Phase::Terminated;
        Reaction::Stop(Fault::ReadFailed)
    }
}

/// The watch reports every event that the dispatcher answers: an event that
/// is not ignored has one of the watched bits in its mask.
pub proof fn lemma_watch_covers_answers(event: EventView, sentinel: Seq<u8>)
    requires
        reaction(event, sentinel) != Reaction::Ignore,
    ensures
        event.mask & WATCHED != 0,
{
    let mask = event.mask;
    assert(mask == 0x8u32 || mask == 0x200u32 || mask & (0x400u32 | 0x800u32) != 0 ==> mask & (
    0x8u32 | 0x200u32 | 0x800u32 | 0x400u32) != 0) by (bit_vector);
}

/// Events are answered strictly in the order of their delivery: to answer
/// two batches one after the other is to answer their concatenation.
pub proof fn lemma_batches_chain(
    phase: Phase,
    first: Seq<EventView>,
    second: Seq<EventView>,
    sentinel: Seq<u8>,
)
    ensures
        phase_after(phase, first + second, sentinel) == phase_after(
            phase_after(phase, first, sentinel),
            second,
            sentinel,
        ),
        answers(phase, first + second, sentinel) == answers(phase, first, sentinel) + answers(
            phase_after(phase, first, sentinel),
            second,
            sentinel,
        ),
    decreases second.len(),
{
    if second.len() == 0 {
        assert(first + second =~= first);
        assert(answers(phase, first, sentinel) + Seq::<Reaction>::empty() =~= answers(
            phase,
            first,
            sentinel,
        ));
    } else {
        lemma_batches_chain(phase, first, second.drop_last(), sentinel);
        assert((first + second).drop_last() =~= first + second.drop_last());
        assert((first + second).last() == second.last());
        let middle = phase_after(phase, first, sentinel);
        let r = step(phase_after(middle, second.drop_last(), sentinel), second.last(), sentinel).1;
        assert((answers(phase, first, sentinel) + answers(middle, second.drop_last(), sentinel)).push(
            r,
        ) =~= answers(phase, first, sentinel) + answers(middle, second.drop_last(), sentinel).push(
            r,
        ));
    }
}

/// There is one answer for each event of a batch.
pub proof fn lemma_one_answer_each(phase: Phase, events: Seq<EventView>, sentinel: Seq<u8>)
    ensures
        answers(phase, events, sentinel).len() == events.len(),
    decreases events.len(),
{
    if events.len() > 0 {
        lemma_one_answer_each(phase, events.drop_last(), sentinel);
    }
}

/// A terminated dispatcher stays terminated and ignores whatever arrives.
pub proof fn lemma_terminated_is_final(events: Seq<EventView>, sentinel: Seq<u8>)
    ensures
        phase_after(Phase::Terminated, events, sentinel) == Phase::Terminated,
        forall|i: int|
            0 <= i < events.len() ==> #[trigger] answers(Phase::Terminated, events, sentinel)[i]
                == Reaction::Ignore,
        answers(Phase::Terminated, events, sentinel).len() == events.len(),
    decreases events.len(),
{
    if events.len() > 0 {
        lemma_terminated_is_final(events.drop_last(), sentinel);
    }
}

} // verus!
