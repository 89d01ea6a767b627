//! RISC-V, 64 bits: three-level tables under one root register, and interrupts through the
//! platform controller.
pub mod context;
pub mod exceptions;
pub mod irq;
pub mod mmu;
pub mod sbi;
pub mod semihosting;
pub mod timer;
