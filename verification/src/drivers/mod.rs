//! Drivers, as far as they decide anything. A driver reaches into no global: it is told where its
//! device is, and says what is to be written there.
use vstd::prelude::*;

pub mod ns16550;
pub mod plic;

verus! {

/// A 32-bit register, and what goes into it.
#[derive(Debug, Clone, Copy, PartialEq, Eq, Structural)]
pub struct Write32 {
    pub addr: usize,
    pub value: u32,
}

} // verus!
