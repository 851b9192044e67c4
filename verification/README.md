# hobkey

The logic of the Hobkey hobby kernel as a library in which every function
in `src/` carries a proved contract.

- `memory`: the physical page manager, page-table entries and the page-table
  walker, virtual range tracking for `mmap`, and the heap allocator with its
  block metadata and free list.
- `drivers`: PCI configuration addresses and class codes, the serial port's
  setup sequence, ACPI tables, and the network controller's records.
- `io`: PSF fonts, glyph expansion and text drawing on a framebuffer.
- `ustar`: reading members of a tar archive.
- `idt`, `timers`, `process`, `helpers`: interrupt gates, local APIC
  registers, processes and small address helpers.

Operations that touch hardware (port I/O, page-table registers, system
calls) are not in the library: its functions return what is to be written,
or take what was read. `app/` is the program around it: it runs the boot
sequence against a machine described in memory, holds the spin locks, the
global allocator and the port access.
