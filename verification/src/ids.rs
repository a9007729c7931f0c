//! Entity identifiers and the allocator that issues them.

use vstd::prelude::*;

verus! {

/// Identifier of a node: nonzero, unique within one graph store, never
/// recycled.
#[derive(Copy, Clone, Eq, PartialEq, Structural, Hash, Debug)]
pub struct NodeId(pub u64);

/// Identifier of an edge: nonzero, unique within one graph store, never
/// recycled.
#[derive(Copy, Clone, Eq, PartialEq, Structural, Hash, Debug)]
pub struct EdgeId(pub u64);

/// Issues unique, strictly increasing, nonzero 64-bit identifiers; the
/// graph store keeps one allocator per entity kind.
pub struct IdAllocator {
    issued: u64,
}

impl IdAllocator {
    /// How many identifiers have been issued so far; the next one is this
    /// count plus one.
    pub closed spec fn spec_issued(self) -> u64 {
        self.issued
    }

    pub fn new() -> (r: IdAllocator)
        ensures
            r.spec_issued() == 0,
    {
        IdAllocator { issued: 0 }
    }

    /// Issue the next identifier: one more than everything issued before,
    /// hence nonzero and never repeated.
    pub fn next_id(&mut self) -> (r: u64)
        requires
            old(self).spec_issued() < u64::MAX,
        ensures
            r == old(self).spec_issued() + 1,
            final(self).spec_issued() == r,
            r >= 1,
    {
        self.issued = self.issued + 1;
        self.issued
    }
}

} // verus!
