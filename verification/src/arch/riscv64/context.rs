//! The registers of a thread that is not running, and how a thread that never ran is given some.
use vstd::prelude::*;

verus! {

/// The registers a switch saves, in the order in which it saves them. The last word is padding.
#[derive(Debug, Clone, Copy, PartialEq, Eq, Structural)]
pub struct Context {
    /// Where the switch returns to.
    pub ra: u64,
    pub s0: u64,
    pub s1: u64,
    pub s2: u64,
    pub s3: u64,
    pub s4: u64,
    pub s5: u64,
    pub s6: u64,
    pub s7: u64,
    pub s8: u64,
    pub s9: u64,
    pub s10: u64,
    pub s11: u64,
    pub pad: u64,
}

/// Every register zero, and a return to `ra`.
pub open spec fn cleared(ra: u64) -> Context {
    Context {
        ra,
        s0: 0,
        s1: 0,
        s2: 0,
        s3: 0,
        s4: 0,
        s5: 0,
        s6: 0,
        s7: 0,
        s8: 0,
        s9: 0,
        s10: 0,
        s11: 0,
        pad: 0,
    }
}

impl Context {
    fn bare(ra: u64) -> (c: Context)
        ensures
            c == cleared(ra),
    {
        Context {
            ra,
            s0: 0,
            s1: 0,
            s2: 0,
            s3: 0,
            s4: 0,
            s5: 0,
            s6: 0,
            s7: 0,
            s8: 0,
            s9: 0,
            s10: 0,
            s11: 0,
            pad: 0,
        }
    }

    /// What a new kernel thread starts with: the first switch to it lands in `trampoline`, which
    /// finds what to call at `closure_at`, and how, in `call_shim`.
    pub fn for_kernel_thread(trampoline: u64, closure_at: u64, call_shim: u64) -> (c: Context)
        ensures
            c == (Context { s0: closure_at, s1: call_shim, ..cleared(trampoline) }),
    {
        let mut c = Context::bare(trampoline);
        c.s0 = closure_at;
        c.s1 = call_shim;
        c
    }

    /// What a new user thread starts with: the first switch to it lands in `trampoline`, which
    /// enters user mode at `entry`, on the stack `user_sp`, with the three arguments.
    pub fn for_user_thread(trampoline: u64, entry: u64, user_sp: u64, args: [u64; 3]) -> (c: Context)
        ensures
            c == (Context {
                s0: entry,
                s1: user_sp,
                s2: args@[0],
                s3: args@[1],
                s4: args@[2],
                ..cleared(trampoline)
            }),
    {
        let mut c = Context::bare(trampoline);
        c.s0 = entry;
        c.s1 = user_sp;
        c.s2 = args[0];
        c.s3 = args[1];
        c.s4 = args[2];
        c
    }
}

/// **A thread that never ran finds nothing of anybody else's**: every register but the one that the
/// switch returns through is zero.
pub proof fn law_a_new_context_is_clear(ra: u64)
    ensures
        ({
            let c = cleared(ra);
            &&& c.ra == ra
            &&& c.s0 == 0 && c.s1 == 0 && c.s2 == 0 && c.s3 == 0 && c.s4 == 0 && c.s5 == 0
            &&& c.s6 == 0 && c.s7 == 0 && c.s8 == 0 && c.s9 == 0 && c.s10 == 0 && c.s11 == 0
            &&& c.pad == 0
        }),
{
}

} // verus!
