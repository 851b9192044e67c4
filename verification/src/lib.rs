//! Kernel-side logic of the Hobkey hobby kernel: physical page bookkeeping,
//! page-table entry encoding and walking, virtual range tracking, the heap
//! allocator, PCI class decoding, ACPI tables, PSF fonts, text drawing and
//! USTAR archives.
pub mod drivers;
pub mod helpers;
pub mod idt;
pub mod io;
pub mod memory;
pub mod process;
pub mod timers;
pub mod ustar;
