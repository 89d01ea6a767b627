//! What the system-call interface fixes and the scheduler only passes on.
use vstd::prelude::*;

verus! {

/// Why a system call was refused.
#[derive(Debug, Clone, Copy, PartialEq, Eq, Structural)]
pub enum Error {
    /// The name or the slot does not resolve.
    NoSuchSlot,
    /// The object is not of the kind, or not in the state, that the call is for.
    WrongObject,
    /// Not now, or not like this.
    NotPermitted,
    /// There is no memory or no slot left.
    OutOfMemory,
    /// The thread is not one the invoked endpoint supervises.
    NotSupervised,
    /// The thread is supervised here and has not died.
    StillAlive,
}

/// The numbers the interface gives to a thread's death.
#[derive(Debug, Clone, Copy, PartialEq, Eq, Structural)]
pub struct FaultAbi {
    /// The event word of a clean exit.
    pub event_exit: u64,
    /// The event word of a fault.
    pub event_fault: u64,
    /// The slot in which a builder leaves the supervision endpoint for a thread it starts.
    pub fault_ep_slot: u64,
}

} // verus!
