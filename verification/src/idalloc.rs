//! Correlation-id allocation.
//!
//! One allocator per connection hands out the ids that link a request to its
//! eventual response. The counter starts at 0 and increases by one on every
//! allocation; when it reaches `u32::MAX` it is wrapped back to 0 before use,
//! so `u32::MAX` itself is never handed out and the sequence of ids repeats
//! with period `u32::MAX`.

use vstd::prelude::*;

verus! {

/// The id handed out by the `count`-th allocation (counting from 0) of a
/// fresh allocator.
pub open spec fn nth_id(count: nat) -> nat {
    count % (u32::MAX as nat)
}

/// A monotonically increasing counter with explicit wraparound.
pub struct IdAllocator {
    /// The next id to hand out (or `u32::MAX`, which is wrapped to 0 first).
    pub next: u32,
    /// How many ids have been handed out so far.
    pub allocated: Ghost<nat>,
}

impl IdAllocator {
    /// The counter is in step with the number of allocations made so far.
    pub open spec fn wf(&self) -> bool {
        if self.next == u32::MAX {
            self.allocated@ % (u32::MAX as nat) == 0 && self.allocated@ > 0
        } else {
            self.next as nat == self.allocated@ % (u32::MAX as nat)
        }
    }

    /// A fresh allocator, which hands out 0 first.
    pub fn new() -> (r: IdAllocator)
        ensures
            r.wf(),
            r.next == 0,
            r.allocated@ == 0,
    {
        IdAllocator { next: 0, allocated: Ghost(0) }
    }

    /// Hand out the next id. Exactly the policy above: wrap to 0 when the
    /// counter stands at `u32::MAX`, then return and step the counter.
    pub fn allocate(&mut self) -> (id: u32)
        ensures
            id == if old(self).next == u32::MAX { 0u32 } else { old(self).next },
            final(self).next == id + 1,
            final(self).allocated@ == old(self).allocated@ + 1,
            old(self).wf() ==> final(self).wf() && id as nat == nth_id(old(self).allocated@),
    {
        if self.next == u32::MAX {
            self.next = 0;
        }
        let id = self.next;
        self.next = id + 1;
        proof {
            self.allocated@ = self.allocated@ + 1;
        }
        id
    }
}

/// Wraparound law: starting from a fresh allocator, the first `u32::MAX`
/// allocations hand out 0 through `u32::MAX - 1`, and the allocation after
/// those — the `u32::MAX + 1`-th — hands out 0 again.
pub proof fn lemma_id_wraparound()
    ensures
        forall|k: nat| k < u32::MAX as nat ==> nth_id(k) == k,
        nth_id(u32::MAX as nat) == 0,
{
}

} // verus!
