//! Slot bookkeeping of the GPU debris buffer.
//!
//! Freshly fractured grains are appended to a fixed-capacity GPU buffer; beyond capacity the
//! excess is silently dropped (there is no recycling). The caller performs the actual buffer writes
//! and compute dispatches; this module decides how many grains fit, where they go, and how many
//! 64-thread workgroups cover a pass.

use vstd::prelude::*;

verus! {

/// Threads per compute workgroup of the debris passes.
pub const WORKGROUP_SIZE: u32 = 64;

/// The buffer's capacity and the number of grains it holds.
pub struct DebrisSlots {
    capacity: u32,
    count: u32,
}

impl DebrisSlots {
    pub closed spec fn capacity_spec(&self) -> nat {
        self.capacity as nat
    }

    pub closed spec fn count_spec(&self) -> nat {
        self.count as nat
    }

    /// The buffer never holds more grains than it has room for.
    pub open spec fn wf(&self) -> bool {
        self.count_spec() <= self.capacity_spec()
    }

    /// An empty buffer of `capacity` grains.
    pub fn new(capacity: u32) -> (s: DebrisSlots)
        ensures
            s.wf(),
            s.capacity_spec() == capacity,
            s.count_spec() == 0,
    {
        DebrisSlots { capacity, count: 0 }
    }

    /// Grains held.
    pub fn count(&self) -> (n: u32)
        ensures
            n == self.count_spec(),
    {
        self.count
    }

    /// Grain capacity.
    pub fn capacity(&self) -> (n: u32)
        ensures
            n == self.capacity_spec(),
    {
        self.capacity
    }

    /// Append `incoming` grains: returns `(take, first)` — the leading `take` of them are written
    /// starting at slot `first`; the rest do not fit and are dropped.
    pub fn append(&mut self, incoming: usize) -> (r: (usize, u32))
        requires
            old(self).wf(),
        ensures
            final(self).wf(),
            final(self).capacity_spec() == old(self).capacity_spec(),
            r.1 == old(self).count_spec(),
            r.0 == if incoming <= old(self).capacity_spec() - old(self).count_spec() {
                incoming as int
            } else {
                old(self).capacity_spec() - old(self).count_spec()
            },
            final(self).count_spec() == old(self).count_spec() + r.0,
    {
        let room = (self.capacity - self.count) as usize;
        let take = if incoming < room {
            incoming
        } else {
            room
        };
        let first = self.count;
        self.count = self.count + take as u32;
        (take, first)
    }
}

/// Workgroups needed to cover `threads` threads: the ceiling of `threads / 64`.
pub fn workgroups(threads: u32) -> (g: u32)
    ensures
        g * WORKGROUP_SIZE >= threads,
        g == 0 || (g - 1) * WORKGROUP_SIZE < threads,
{
    let g = threads / WORKGROUP_SIZE + if threads % WORKGROUP_SIZE == 0 {
        0
    } else {
        1
    };
    g
}

} // verus!
