use hobkey::drivers::acpi::{ACPISDTHeader, Xsdp, Xsdt, SDT_HEADER_SIZE};
use hobkey::drivers::acpi_driver::containing_page;
use hobkey::memory::mmap::MmapTracker;
use hobkey::memory::paging::PageTableManager;
use hobkey::memory::phys::PhysicalMemory;
use hobkey::timers::apic::{Apic, MADT};

/// A table with signature `sig` and `extra` bytes after its header, whose
/// checksum byte makes it sum to zero.
fn table(sig: &[u8; 4], extra: &[u8]) -> Vec<u8> {
    let mut t = vec![0u8; SDT_HEADER_SIZE];
    t[0..4].copy_from_slice(sig);
    let len = (SDT_HEADER_SIZE + extra.len()) as u32;
    t[4..8].copy_from_slice(&len.to_le_bytes());
    t[8] = 1;
    t[10..16].copy_from_slice(b"HOBKEY");
    t.extend_from_slice(extra);
    let sum: u8 = t.iter().fold(0u8, |a, b| a.wrapping_add(*b));
    t[9] = 0u8.wrapping_sub(sum);
    t
}

fn xsdt(entries: &[u64]) -> Vec<u8> {
    let mut body = Vec::new();
    for e in entries {
        body.extend_from_slice(&e.to_le_bytes());
    }
    table(b"XSDT", &body)
}

fn manager() -> (PageTableManager, PhysicalMemory, Vec<u64>) {
    let mut ptm = PageTableManager::from_parts(0x1000, 0xffff_ffff_9000_0000, 0, 0, 0);
    ptm.mmap_tracker = Some(MmapTracker::new(0x100_0000_0000, 0x200_0000_0000));
    (ptm, PhysicalMemory::new(), vec![0x6000, 0x5000, 0x4000, 0x3000])
}

#[test]
fn header_fields_read_little_endian() {
    let t = table(b"APIC", &[0; 8]);
    let h = ACPISDTHeader::from_bytes(&t);
    assert_eq!(&h.signature, b"APIC");
    assert_eq!(h.length, 44);
    assert_eq!(h.revision, 1);
    assert_eq!(&h.oem_id, b"HOBKEY");
}

#[test]
fn checksum_accepts_zero_sum() {
    let t = table(b"APIC", &[1, 2, 3, 4, 5, 6, 7, 8]);
    assert!(ACPISDTHeader::validate_checksum(&t));
}

#[test]
fn checksum_rejects_corrupted_table() {
    let mut t = table(b"APIC", &[1, 2, 3, 4, 5, 6, 7, 8]);
    t[40] ^= 0x10;
    assert!(!ACPISDTHeader::validate_checksum(&t));
}

#[test]
fn checksum_covers_only_the_stated_length() {
    let mut t = table(b"APIC", &[1, 2, 3, 4]);
    t.push(0x55);
    assert!(ACPISDTHeader::validate_checksum(&t));
}

#[test]
fn xsdp_fields() {
    let mut b = vec![0u8; 36];
    b[0..8].copy_from_slice(b"RSD PTR ");
    b[15] = 2;
    b[16..20].copy_from_slice(&0x1234u32.to_le_bytes());
    b[20..24].copy_from_slice(&36u32.to_le_bytes());
    b[24..32].copy_from_slice(&0x7ffe_0000u64.to_le_bytes());
    let x = Xsdp::from_bytes(&b);
    assert_eq!(&x.signature, b"RSD PTR ");
    assert_eq!(x.revision, 2);
    assert_eq!(x.rsdt_address, 0x1234);
    assert_eq!(x.length, 36);
    assert_eq!(x.xsdt_address, 0x7ffe_0000);
}

#[test]
fn xsdt_entry_count() {
    let x = xsdt(&[0x1000, 0x2000, 0x3000]);
    let parsed = Xsdt::from_bytes(&x);
    assert_eq!(parsed.entry_count(), 3);
    assert_eq!(parsed.first_entry, 0x1000);
}

#[test]
fn find_table_maps_the_first_valid_match() {
    let x = xsdt(&[0x7_0000, 0x8_0010]);
    let parsed = Xsdt::from_bytes(&x);
    let tables = vec![table(b"FACP", &[0; 4]), table(b"APIC", &[0; 8])];
    let (mut ptm, mut mem, mut frames) = manager();
    let r = parsed.find_table(&x, &tables, "APIC", &mut ptm, &mut mem, &mut frames, false, 48);
    assert_eq!(r, Some(0x100_0000_0000));
    assert_eq!(ptm.get_physical(&mem, 0x100_0000_0000, false, 48), Ok(0x8_0000));
}

#[test]
fn find_table_reads_nothing_after_the_match() {
    let x = xsdt(&[0x7_0000, 0x8_0010, 0x9_0000]);
    let parsed = Xsdt::from_bytes(&x);
    let tables = vec![table(b"APIC", &[0; 8]), Vec::new(), vec![1, 2]];
    let (mut ptm, mut mem, mut frames) = manager();
    let r = parsed.find_table(&x, &tables, "APIC", &mut ptm, &mut mem, &mut frames, false, 48);
    assert_eq!(r, Some(0x100_0000_0000));
    assert_eq!(ptm.get_physical(&mem, 0x100_0000_0000, false, 48), Ok(0x7_0000));
}

#[test]
fn find_table_step_decides_per_entry() {
    let x = xsdt(&[0x7_0000, 0x8_0010]);
    let parsed = Xsdt::from_bytes(&x);
    let facp = table(b"FACP", &[0; 4]);
    let apic = table(b"APIC", &[0; 8]);
    assert_eq!(parsed.find_table_step(&x, 0, &facp, "APIC"), None);
    assert_eq!(parsed.find_table_step(&x, 1, &apic, "APIC"), Some((0x8_0010, apic.len())));
    assert_eq!(parsed.find_table_step(&x, 1, &apic, "APIC!"), None);
}

#[test]
fn find_table_skips_a_bad_checksum() {
    let x = xsdt(&[0x7_0000, 0x8_0000]);
    let parsed = Xsdt::from_bytes(&x);
    let mut bad = table(b"APIC", &[0; 8]);
    bad[9] = bad[9].wrapping_add(1);
    let tables = vec![bad, table(b"APIC", &[0; 8])];
    let (mut ptm, mut mem, mut frames) = manager();
    let r = parsed.find_table(&x, &tables, "APIC", &mut ptm, &mut mem, &mut frames, false, 48);
    assert_eq!(r, Some(0x100_0000_0000));
    assert_eq!(ptm.get_physical(&mem, 0x100_0000_0000, false, 48), Ok(0x8_0000));
}

#[test]
fn find_table_points_the_window_back() {
    let x = xsdt(&[0x7_0000]);
    let parsed = Xsdt::from_bytes(&x);
    let tables = vec![table(b"APIC", &[0; 8])];
    let (mut ptm, mut mem, mut frames) = manager();
    assert!(ptm.map_temp(0x6_6000, false, 0, 48).is_ok());
    let r = parsed.find_table(&x, &tables, "APIC", &mut ptm, &mut mem, &mut frames, false, 48);
    assert_eq!(r, Some(0x100_0000_0000));
    assert_eq!(ptm.get_temp(false, 48), 0x6_6000);
    assert_eq!(ptm.tmp_entry.0, 0x6_6003);
}

#[test]
fn find_table_without_match_is_none() {
    let x = xsdt(&[0x7_0000]);
    let parsed = Xsdt::from_bytes(&x);
    let tables = vec![table(b"FACP", &[0; 4])];
    let (mut ptm, mut mem, mut frames) = manager();
    let r = parsed.find_table(&x, &tables, "APIC", &mut ptm, &mut mem, &mut frames, false, 48);
    assert_eq!(r, None);
    assert_eq!(frames.len(), 4);
    let r = parsed.find_table(&x, &tables, "FACPX", &mut ptm, &mut mem, &mut frames, false, 48);
    assert_eq!(r, None);
}

#[test]
fn xsdt_new_maps_the_table() {
    let mut b = vec![0u8; 36];
    b[24..32].copy_from_slice(&0x9_0000u64.to_le_bytes());
    let xsdp = Xsdp::from_bytes(&b);
    let (mut ptm, mut mem, mut frames) = manager();
    let r = Xsdt::new(&xsdp, 52, &mut ptm, &mut mem, &mut frames, false, 48);
    assert_eq!(r, Some(0x100_0000_0000));
    assert_eq!(ptm.get_physical(&mem, 0x100_0000_0000, false, 48), Ok(0x9_0000));
}

#[test]
fn containing_page_of_addresses() {
    assert_eq!(containing_page(0x1fff), 0x1000);
    assert_eq!(containing_page(0x2000), 0x2000);
    assert_eq!(containing_page(0), 0);
}

#[test]
fn madt_fields() {
    let mut extra = Vec::new();
    extra.extend_from_slice(&0xfee0_0000u32.to_le_bytes());
    extra.extend_from_slice(&1u32.to_le_bytes());
    let t = table(b"APIC", &extra);
    let m = MADT::from_bytes(&t);
    assert_eq!(m.local_apic, 0xfee0_0000);
    assert_eq!(m.flags, 1);
    assert_eq!(m.header.length, 44);
}

#[test]
fn apic_register_addresses() {
    let apic = Apic { address: 0xfee0_0000 };
    assert_eq!(apic.get_sivr(), 0xfee0_00f0);
    assert_eq!(apic.get_tpr(), 0xfee0_0080);
    assert_eq!(apic.get_tivr(), 0xfee0_0320);
    assert_eq!(apic.get_dcnf(), 0xfee0_03e0);
    assert_eq!(apic.get_icnt(), 0xfee0_0380);
}
