//! Interrupt timers.
pub mod apic;
