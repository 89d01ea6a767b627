//! How the emulator is told to stop.
use vstd::prelude::*;

verus! {

/// The status of a run that went well.
pub const EXIT_SUCCESS: u32 = 0;

/// The status of one that did not.
pub const EXIT_FAILURE: u32 = 1;

/// The operation that ends the emulator.
pub const SYS_EXIT: u64 = 0x18;

/// The two words that go with the operation: that the program has ended, and its status.
pub fn exit(code: u32) -> (block: [u64; 2])
    ensures
        block@ == seq![0x2_0026u64, code as u64],
{
    let block: [u64; 2] = [0x2_0026, code as u64];
    assert(block@ =~= seq![0x2_0026u64, code as u64]);
    block
}

} // verus!
