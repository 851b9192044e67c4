use vstd::prelude::*;

use crate::memory::pmm::PhysicalAddress;
use crate::memory::PS_USIZE;

verus! {

/// Start of the page that holds `address`.
pub fn containing_page(address: usize) -> (r: PhysicalAddress)
    ensures
        r == address - address % PS_USIZE,
        r % (PS_USIZE as u64) == 0,
{
    let remainder = address % PS_USIZE;
    proof {
        vstd::arithmetic::div_mod::lemma_fundamental_div_mod(address as int, PS_USIZE as int);
        vstd::arithmetic::div_mod::lemma_mod_multiples_basic(address as int / PS_USIZE as int, PS_USIZE as int);
    }
    (address - remainder) as PhysicalAddress
}

} // verus!
