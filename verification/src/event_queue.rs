//! The fixed-capacity, tick-scoped event queue.
//!
//! Events produced during a tick are copied into a tick-scoped arena and a
//! type-tagged handle is recorded in a queue with a fixed maximum element
//! count. Pushing past the capacity fails rather than overwriting: callers
//! size the queue to the worst-case tick load and treat overflow as a
//! recoverable drop. The queue is read only after all producers for the tick
//! have finished, and reset once between ticks; the arena is discarded
//! wholesale, so stored types must hold no owned resources.

use vstd::prelude::*;

verus! {

/// Failure of a push onto a full queue: the event is dropped for this tick.
#[derive(Clone, Copy, Debug, PartialEq, Eq, Structural)]
pub struct QueueFull;

/// A type-tagged handle into the tick arena: a stable per-type identifier
/// plus the slot index of the event's bytes. Both become invalid when the
/// arena is reset at the tick boundary.
#[derive(Debug, Clone, Copy, PartialEq, Eq, Structural)]
pub struct TypedBumpPtr {
    id: u64,
    elem: usize,
}

impl TypedBumpPtr {
    /// A handle from a type identifier and an arena slot.
    pub fn new(id: u64, elem: usize) -> (r: TypedBumpPtr)
        ensures
            r.id_spec() == id,
            r.elem_spec() == elem,
    {
        TypedBumpPtr { id, elem }
    }

    /// The stable identifier of the pointee's type.
    pub closed spec fn id_spec(self) -> u64 {
        self.id
    }

    /// The arena slot of the pointee.
    pub closed spec fn elem_spec(self) -> usize {
        self.elem
    }

    /// The stable identifier of the pointee's type. A consumer must check
    /// it before interpreting the slot.
    pub fn id(&self) -> (r: u64)
        ensures
            r == self.id_spec(),
    {
        self.id
    }

    /// The arena slot of the pointee.
    pub fn elem(&self) -> (r: usize)
        ensures
            r == self.elem_spec(),
    {
        self.elem
    }
}

/// A fixed-capacity queue: a vector that never grows past the element count
/// it was created with, plus that fixed capacity.
pub struct RawQueue<T> {
    elems: Vec<T>,
    capacity: usize,
}

impl<T: Copy> RawQueue<T> {
    /// The elements pushed since the last reset, oldest first.
    pub closed spec fn view_spec(self) -> Seq<T> {
        self.elems@
    }

    /// The fixed maximum element count.
    pub closed spec fn capacity_spec(self) -> int {
        self.capacity as int
    }

    /// The queue never holds more than its capacity.
    pub closed spec fn wf(self) -> bool {
        self.elems@.len() <= self.capacity
    }

    /// An empty queue that will hold at most `size` elements per tick.
    pub fn new(size: usize) -> (r: RawQueue<T>)
        ensures
            r.wf(),
            r.view_spec() == Seq::<T>::empty(),
            r.capacity_spec() == size,
    {
        RawQueue { elems: Vec::with_capacity(size), capacity: size }
    }

    /// Claims the next slot and records `elem` in it. Succeeds exactly when
    /// the queue still has room this tick; on a full queue the element is
    /// dropped and the push reports failure.
    pub fn push(&mut self, elem: T) -> (r: Result<(), QueueFull>)
        requires
            old(self).wf(),
        ensures
            final(self).wf(),
            final(self).capacity_spec() == old(self).capacity_spec(),
            old(self).view_spec().len() < old(self).capacity_spec() ==> r is Ok
                && final(self).view_spec() == old(self).view_spec().push(elem),
            old(self).view_spec().len() >= old(self).capacity_spec() ==> r
                == Err::<(), QueueFull>(QueueFull) && final(self).view_spec() == old(
                self,
            ).view_spec(),
    {
        if self.elems.len() < self.capacity {
            self.elems.push(elem);
            Ok(())
        } else {
            Err(QueueFull)
        }
    }

    /// All elements pushed since the last reset, in push order. Callers run
    /// this only after a barrier guarantees no producer is still active.
    pub fn iter(&self) -> (r: &[T])
        ensures
            r@ == self.view_spec(),
    {
        self.elems.as_slice()
    }

    /// Restores the write cursor to zero between ticks. No destructors run:
    /// the elements are handles into an arena that is discarded wholesale.
    pub fn reset(&mut self)
        ensures
            final(self).wf(),
            final(self).view_spec() == Seq::<T>::empty(),
            final(self).capacity_spec() == old(self).capacity_spec(),
    {
        self.elems.clear();
    }
}

} // verus!
