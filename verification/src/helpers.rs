use vstd::prelude::*;

use crate::memory::paging::{valid_phy_bits, PageTableManager, PtmError, VirtualAddress};
use crate::memory::pmm::PhysicalAddress;

verus! {

/// Value of an ASCII hexadecimal digit, either case.
pub open spec fn hex_digit(c: u8) -> int {
    if 48 <= c <= 57 {
        c - 48
    } else if 97 <= c <= 102 {
        c - 87
    } else {
        c - 55
    }
}

/// An ASCII hexadecimal digit, either case.
pub open spec fn is_hex_digit(c: u8) -> bool {
    (48 <= c <= 57) || (97 <= c <= 102) || (65 <= c <= 70)
}

/// `base` to the power `e`.
pub open spec fn pow(base: int, e: nat) -> int
    decreases e,
{
    if e == 0 {
        1
    } else {
        base * pow(base, (e - 1) as nat)
    }
}

/// The term `atou` adds for the byte `k` places from the end of `s`.
pub open spec fn atou_term(s: Seq<u8>, base: int, k: int) -> int {
    hex_digit(s[s.len() - 1 - k]) * pow(base, k as nat)
}

/// Sum of the terms for the bytes `lo` to `hi - 1` places from the end of `s`.
pub open spec fn atou_range(s: Seq<u8>, base: int, lo: int, hi: int) -> int
    decreases hi - lo,
{
    if hi <= lo {
        0
    } else {
        atou_range(s, base, lo, hi - 1) + atou_term(s, base, hi - 1)
    }
}

/// What `atou` returns: the digits of `s` read from the right, the last byte
/// skipped, the digit `k` places from the end weighted by `base^k`.
pub open spec fn atou_value(s: Seq<u8>, base: int) -> int {
    atou_range(s, base, 1, s.len() as int)
}

/// Every power of `base` up to `e` fits in a `usize`.
pub open spec fn powers_fit(base: int, e: nat) -> bool {
    forall|k: nat| k <= e ==> #[trigger] pow(base, k) <= usize::MAX
}

proof fn lemma_pow_nonneg(base: int, e: nat)
    requires
        base >= 0,
    ensures
        pow(base, e) >= 0,
    decreases e,
{
    if e > 0 {
        lemma_pow_nonneg(base, (e - 1) as nat);
        assert(base * pow(base, (e - 1) as nat) >= 0) by (nonlinear_arith)
            requires
                base >= 0,
                pow(base, (e - 1) as nat) >= 0,
        ;
    }
}

proof fn lemma_atou_range_grows(s: Seq<u8>, base: int, lo: int, hi: int, hi2: int)
    requires
        base >= 0,
        1 <= lo,
        hi <= hi2 <= s.len(),
        forall|j: int| 0 <= j < s.len() - 1 ==> is_hex_digit(#[trigger] s[j]),
    ensures
        0 <= atou_range(s, base, lo, hi) <= atou_range(s, base, lo, hi2),
    decreases hi2 - lo,
{
    if hi2 > lo {
        if hi < hi2 {
            lemma_atou_range_grows(s, base, lo, hi, hi2 - 1);
        } else {
            lemma_atou_range_grows(s, base, lo, hi2 - 1, hi2 - 1);
        }
        lemma_pow_nonneg(base, (hi2 - 1) as nat);
        let d = hex_digit(s[s.len() - 1 - (hi2 - 1)]);
        assert(is_hex_digit(s[s.len() - 1 - (hi2 - 1)]));
        assert(d * pow(base, (hi2 - 1) as nat) >= 0) by (nonlinear_arith)
            requires
                d >= 0,
                pow(base, (hi2 - 1) as nat) >= 0,
        ;
    }
}

/// Reads the digits of `bytes` in `base`, ignoring the last byte, with
/// digits weighted one place higher than usual: the digit `k` places from
/// the end counts `base^k` times. `None` when `base` is over 16.
pub fn atou(bytes: &[u8], base: u8) -> (r: Option<usize>)
    requires
        base <= 16 ==> {
            &&& forall|j: int| 0 <= j < bytes@.len() - 1 ==> is_hex_digit(#[trigger] bytes@[j])
            &&& bytes@.len() >= 1 ==> powers_fit(base as int, (bytes@.len() - 1) as nat)
            &&& atou_value(bytes@, base as int) <= usize::MAX
        },
    ensures
        base > 16 ==> r is None,
        base <= 16 ==> r == Some(atou_value(bytes@, base as int) as usize),
{
    if base > 16 {
        return None;
    }
    let n = bytes.len();
    if n <= 1 {
        return Some(0);
    }
    let mut sum: usize = 0;
    let mut power: usize = 1;
    let mut i: usize = 1;
    while i < n
        invariant
            1 <= i <= n,
            n == bytes@.len(),
            base <= 16,
            power == pow(base as int, (i - 1) as nat),
            powers_fit(base as int, (n - 1) as nat),
            forall|j: int| 0 <= j < n - 1 ==> is_hex_digit(#[trigger] bytes@[j]),
            sum == atou_range(bytes@, base as int, 1, i as int),
            atou_value(bytes@, base as int) <= usize::MAX,
        decreases n - i,
    {
        proof {
            assert(pow(base as int, i as nat) == base * pow(base as int, (i - 1) as nat));
            assert(pow(base as int, i as nat) <= usize::MAX);
        }
        proof {
            assert((power as int) * (base as int) == (base as int) * (power as int)) by (
            nonlinear_arith);
        }
        power = power * (base as usize);
        assert(power == pow(base as int, i as nat));
        let mut ch = bytes[n - 1 - i];
        if 65 <= ch && ch <= 90 {
            ch = ch + 32;
        }
        let idx: usize = if ch <= 57 {
            (ch - 48) as usize
        } else {
            (ch - 87) as usize
        };
        proof {
            assert(is_hex_digit(bytes@[n - 1 - i]));
            assert(idx == hex_digit(bytes@[n - 1 - i]));
            lemma_atou_range_grows(bytes@, base as int, 1, i + 1, n as int);
            lemma_pow_nonneg(base as int, i as nat);
            assert(sum + idx * power == atou_range(bytes@, base as int, 1, i + 1));
            lemma_atou_range_grows(bytes@, base as int, 1, i as int, i as int);
            assert(idx * power <= usize::MAX);
        }
        sum = sum + idx * power;
        i = i + 1;
    }
    Some(sum)
}

/// Maps the physical page `phy_addr` where it can be reached: through the
/// window of `o_ptm` when there is a manager, otherwise in the bootloader's
/// direct map at offset `hhdm`.
pub fn map_phy_temp(
    phy_addr: PhysicalAddress,
    o_ptm: &mut Option<PageTableManager>,
    use_hhdm: bool,
    hhdm: u64,
    b: u8,
) -> (r: Result<VirtualAddress, PtmError>)
    requires
        valid_phy_bits(b),
        (*old(o_ptm) is None || use_hhdm) ==> phy_addr + hhdm <= u64::MAX,
    ensures
        *old(o_ptm) is None ==> r == Ok::<u64, PtmError>((phy_addr + hhdm) as u64) && *final(o_ptm)
            == *old(o_ptm),
        *old(o_ptm) is Some ==> *final(o_ptm) is Some && {
            let before = (*old(o_ptm))->0;
            let after = (*final(o_ptm))->0;
            &&& after.phy_addr == before.phy_addr
            &&& after.mmap_tracker == before.mmap_tracker
            &&& use_hhdm ==> r == Ok::<u64, PtmError>((phy_addr + hhdm) as u64)
                && after.tmp_entry == before.tmp_entry
            &&& !use_hhdm ==> r == Ok::<u64, PtmError>(before.tmp_address) && after.tmp_entry.0
                == (((before.tmp_entry.0 & !crate::memory::paging::phy_mask(b)) | (phy_addr
                & crate::memory::paging::phy_mask(b))) & crate::memory::paging::phy_mask(b)) | (
            crate::memory::paging::paging_flags::PAGING_RW
                | crate::memory::paging::paging_flags::PAGING_PRESENT)
        },
{
    match o_ptm {
        Some(ptm) => ptm.map_temp(phy_addr, use_hhdm, hhdm, b),
        None => Ok(phy_addr + hhdm),
    }
}

/// The physical page the window of `o_ptm` shows; 0 without a manager.
pub fn get_temp_addr(o_ptm: &Option<PageTableManager>, use_hhdm: bool, b: u8) -> (r:
    PhysicalAddress)
    requires
        valid_phy_bits(b),
    ensures
        r == match o_ptm {
            Some(ptm) => if use_hhdm {
                0
            } else {
                ptm.tmp_entry.0 & crate::memory::paging::phy_mask(b)
            },
            None => 0,
        },
{
    match o_ptm {
        Some(ptm) => ptm.get_temp(use_hhdm, b),
        None => 0,
    }
}

} // verus!
