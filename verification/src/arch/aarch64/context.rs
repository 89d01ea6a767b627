//! The registers of a thread that is not running, and how a thread that never ran is given some.
use vstd::prelude::*;

verus! {

/// The registers a switch saves, in the order in which it saves them.
#[derive(Debug, Clone, Copy, PartialEq, Eq, Structural)]
pub struct Context {
    pub x19: u64,
    pub x20: u64,
    pub x21: u64,
    pub x22: u64,
    pub x23: u64,
    pub x24: u64,
    pub x25: u64,
    pub x26: u64,
    pub x27: u64,
    pub x28: u64,
    /// The frame pointer. Zero in a new thread: a backtrace ends there.
    pub x29: u64,
    /// Where the switch returns to.
    pub x30: u64,
}

/// Every register zero, and a return to `x30`.
pub open spec fn cleared(x30: u64) -> Context {
    Context {
        x19: 0,
        x20: 0,
        x21: 0,
        x22: 0,
        x23: 0,
        x24: 0,
        x25: 0,
        x26: 0,
        x27: 0,
        x28: 0,
        x29: 0,
        x30,
    }
}

impl Context {
    fn bare(x30: u64) -> (c: Context)
        ensures
            c == cleared(x30),
    {
        Context {
            x19: 0,
            x20: 0,
            x21: 0,
            x22: 0,
            x23: 0,
            x24: 0,
            x25: 0,
            x26: 0,
            x27: 0,
            x28: 0,
            x29: 0,
            x30,
        }
    }

    /// What a new kernel thread starts with: the first switch to it lands in `trampoline`, which
    /// finds what to call at `closure_at`, and how, in `call_shim`.
    pub fn for_kernel_thread(trampoline: u64, closure_at: u64, call_shim: u64) -> (c: Context)
        ensures
            c == (Context { x19: closure_at, x20: call_shim, ..cleared(trampoline) }),
    {
        let mut c = Context::bare(trampoline);
        c.x19 = closure_at;
        c.x20 = call_shim;
        c
    }

    /// What a new user thread starts with: the first switch to it lands in `trampoline`, which
    /// enters user mode at `entry`, on the stack `user_sp`, with the three arguments.
    pub fn for_user_thread(trampoline: u64, entry: u64, user_sp: u64, args: [u64; 3]) -> (c: Context)
        ensures
            c == (Context {
                x19: entry,
                x20: user_sp,
                x21: args@[0],
                x22: args@[1],
                x23: args@[2],
                ..cleared(trampoline)
            }),
    {
        let mut c = Context::bare(trampoline);
        c.x19 = entry;
        c.x20 = user_sp;
        c.x21 = args[0];
        c.x22 = args[1];
        c.x23 = args[2];
        c
    }
}

/// **A thread that never ran finds nothing of anybody else's**: every register but the one that the
/// switch returns through is zero.
pub proof fn law_a_new_context_is_clear(x30: u64)
    ensures
        ({
            let c = cleared(x30);
            &&& c.x30 == x30
            &&& c.x19 == 0 && c.x20 == 0 && c.x21 == 0 && c.x22 == 0 && c.x23 == 0 && c.x24 == 0
            &&& c.x25 == 0 && c.x26 == 0 && c.x27 == 0 && c.x28 == 0 && c.x29 == 0
        }),
{
}

} // verus!
