//! The per-allocation header: a transient mark bit and a root-reference
//! count. One header is tracked by the registry for every managed value.

use vstd::prelude::*;

verus! {

/// Header of one allocation record.
///
/// `marked` is recomputed by every collection cycle; `root_count` counts the
/// live handles that are currently rooted at this record and is the only
/// liveness signal examined before the graph walk.
#[derive(Clone, Copy)]
pub struct GcBoxHeader {
    pub(crate) marked: bool,
    pub(crate) root_count: u32,
}

impl GcBoxHeader {
    /// The mark bit, as contracts see it.
    pub closed spec fn spec_marked(&self) -> bool {
        self.marked
    }

    /// The root count, as contracts see it.
    pub closed spec fn spec_root_count(&self) -> nat {
        self.root_count as nat
    }

    /// A fresh header: unmarked, with the single root of the handle that is
    /// being created around the new allocation.
    pub fn new() -> (h: GcBoxHeader)
        ensures
            !h.spec_marked(),
            h.spec_root_count() == 1,
    {
        GcBoxHeader { marked: false, root_count: 1 }
    }

    /// Reads the root count.
    pub fn root_count(&self) -> (n: u32)
        ensures
            n as int == self.spec_root_count(),
    {
        self.root_count
    }

    /// Returns true if this record has a root count of more than 0.
    pub fn is_rooted(&self) -> (b: bool)
        ensures
            b == (self.spec_root_count() > 0),
    {
        self.root_count > 0
    }

    /// Reads the mark bit.
    pub fn marked(&self) -> (b: bool)
        ensures
            b == self.spec_marked(),
    {
        self.marked
    }

    /// Sets the mark bit. Not recursive.
    pub fn mark(&mut self)
        ensures
            final(self).spec_marked(),
            final(self).spec_root_count() == old(self).spec_root_count(),
    {
        self.marked = true;
    }

    /// Clears the mark bit. Not recursive.
    pub fn unmark(&mut self)
        ensures
            !final(self).spec_marked(),
            final(self).spec_root_count() == old(self).spec_root_count(),
    {
        self.marked = false;
    }

    /// Adds one root vote. Overflow is a contract violation and is excluded,
    /// so that the count can never silently wrap to zero.
    pub fn inc_root_count(&mut self)
        requires
            old(self).spec_root_count() < u32::MAX,
        ensures
            final(self).spec_root_count() == old(self).spec_root_count() + 1,
            final(self).spec_marked() == old(self).spec_marked(),
    {
        self.root_count = self.root_count + 1;
    }

    /// Removes one root vote. Underflow indicates a bookkeeping bug in the
    /// handle logic and is excluded, never coerced.
    pub fn dec_root_count(&mut self)
        requires
            old(self).spec_root_count() > 0,
        ensures
            final(self).spec_root_count() == old(self).spec_root_count() - 1,
            final(self).spec_marked() == old(self).spec_marked(),
    {
        self.root_count = self.root_count - 1;
    }
}

} // verus!
