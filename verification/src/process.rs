use vstd::prelude::*;

use crate::memory::paging::PageTableManager;

verus! {

/// A process: its id and its address space.
pub struct Process {
    id: usize,
    ptm: PageTableManager,
}

impl Process {
    /// The process's address space.
    pub closed spec fn spec_ptm(&self) -> PageTableManager {
        self.ptm
    }

    /// The process's id.
    pub closed spec fn spec_id(&self) -> usize {
        self.id
    }

    /// A process with the address space `ptm`; every process gets id 0.
    pub fn new(ptm: PageTableManager) -> (r: Self)
        ensures
            r.spec_id() == 0,
            r.spec_ptm() == ptm,
    {
        Self { id: 0, ptm }
    }

    /// The process's address space, to work on it.
    pub fn ptm_mut(&mut self) -> (r: &mut PageTableManager)
        ensures
            *r == old(self).spec_ptm(),
            final(self).spec_ptm() == *final(r),
            final(self).spec_id() == old(self).spec_id(),
    {
        &mut self.ptm
    }

    /// The process's id.
    pub fn id(&self) -> (r: usize)
        ensures
            r == self.spec_id(),
    {
        self.id
    }
}

} // verus!
