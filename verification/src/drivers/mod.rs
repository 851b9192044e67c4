//! Device drivers: PCI configuration space, the serial port, ACPI tables and
//! the network controller.
pub mod acpi;
pub mod acpi_driver;
pub mod ethernet;
pub mod pci;
pub mod serial;
