//! The capability core of a small microkernel.
pub mod abi;
pub mod arch;
pub mod bench;
pub mod boot;
pub mod cap;
pub mod console;
pub mod cpu;
pub mod drivers;
pub mod frames;
pub mod heap;
pub mod ipc;
pub mod machine;
pub mod memory;
pub mod model;
pub mod paging;
pub mod pci;
pub mod revoke;
pub mod sched;
pub mod slots;
pub mod smp;
pub mod stack;
pub mod tables;
pub mod thread;
pub mod untyped;
