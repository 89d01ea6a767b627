//! What depends on the architecture: addresses, page tables, interrupts and saved registers. Each
//! architecture has a module of its own with the same surface; only the deciding and computing is
//! here, and what touches a register is handed to the caller.
pub mod aarch64;
pub mod heartbeat;
pub mod kernel_map;
pub mod riscv64;
