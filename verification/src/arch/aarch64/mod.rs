//! Arm, 64 bits: one root register for the kernel's half and one for the process's.
pub mod context;
pub mod exceptions;
pub mod isa;
pub mod mmu;
pub mod semihosting;
pub mod timer;
