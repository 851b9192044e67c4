use vstd::prelude::*;

use vstd::hash_map::HashMapWithView;

verus! {

broadcast use vstd::std_specs::hash::group_hash_axioms;

/// The 64-bit word at `addr`; memory never written reads as zero.
pub open spec fn read_word(m: Map<u64, u64>, addr: u64) -> u64 {
    if m.contains_key(addr) {
        m[addr]
    } else {
        0
    }
}

/// Physical memory as the page table code sees it: 64-bit words by address.
pub struct PhysicalMemory {
    words: HashMapWithView<u64, u64>,
}

impl PhysicalMemory {
    /// The words written so far, by address.
    pub closed spec fn view(&self) -> Map<u64, u64> {
        self.words@
    }

    /// Memory that reads as zero everywhere.
    pub fn new() -> (r: Self)
        ensures
            r@ == Map::<u64, u64>::empty(),
    {
        PhysicalMemory { words: HashMapWithView::new() }
    }

    /// The word at `addr`.
    pub fn read(&self, addr: u64) -> (r: u64)
        ensures
            r == read_word(self@, addr),
    {
        match self.words.get(&addr) {
            Some(v) => *v,
            None => 0,
        }
    }

    /// Stores `value` at `addr`.
    pub fn write(&mut self, addr: u64, value: u64)
        ensures
            final(self)@ == old(self)@.insert(addr, value),
    {
        self.words.insert(addr, value);
    }
}

} // verus!
