//! How the emulator is told to stop.
use vstd::prelude::*;

verus! {

/// The status of a run that went well.
pub const EXIT_SUCCESS: u32 = 0;

/// The status of one that did not.
pub const EXIT_FAILURE: u32 = 1;

/// The word that, written to the finisher's register, ends the emulator with status `code`. The
/// register has room for the lower half of it.
pub fn exit(code: u32) -> (word: u32)
    ensures
        word == (if code == 0 {
            0x5555
        } else {
            0x3333 | (code << 16)
        }),
        word & 0xffff == (if code == 0 {
            0x5555u32
        } else {
            0x3333u32
        }),
        code != 0 ==> word >> 16 == code & 0xffff,
{
    if code == 0 {
        assert(0x5555u32 & 0xffff == 0x5555) by (bit_vector);
        0x5555
    } else {
        let word: u32 = 0x3333 | (code << 16);
        assert(word & 0xffff == 0x3333 && word >> 16 == code & 0xffff) by (bit_vector)
            requires
                word == 0x3333u32 | (code << 16),
        ;
        word
    }
}

} // verus!
