//! The identifier allocator: a counter that only moves forward.
use vstd::prelude::*;

verus! {

/// Hands out record identifiers 1, 2, 3, ... The counter is the last value
/// handed out, so saving it and restoring it later continues the sequence.
pub struct IdAllocator {
    counter: u64,
}

impl IdAllocator {
    pub closed spec fn value(&self) -> u64 {
        self.counter
    }

    /// A counter that has handed out nothing yet.
    pub fn new() -> (r: IdAllocator)
        ensures
            r.value() == 0,
    {
        IdAllocator { counter: 0 }
    }

    /// A counter resumed from a value saved by `current`.
    pub fn restore(saved: u64) -> (r: IdAllocator)
        ensures
            r.value() == saved,
    {
        IdAllocator { counter: saved }
    }

    /// The last identifier handed out (0 if none), as it is to be saved.
    pub fn current(&self) -> (r: u64)
        ensures
            r == self.value(),
    {
        self.counter
    }

    /// Records `id` as handed out, if it is above the last identifier.
    pub fn advance_to(&mut self, id: u64)
        ensures
            final(self).value() == if id > old(self).value() {
                id
            } else {
                old(self).value()
            },
    {
        if id > self.counter {
            self.counter = id;
        }
    }

    /// Hands out the identifier after the last one, and records it.
    pub fn next(&mut self) -> (r: u64)
        requires
            old(self).value() < u64::MAX,
        ensures
            r == old(self).value() + 1,
            final(self).value() == r,
    {
        self.counter = self.counter + 1;
        self.counter
    }
}

} // verus!
