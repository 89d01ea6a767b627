//! Calls into the firmware, as the registers they are made with.
use vstd::prelude::*;

use crate::arch::riscv64::mmu::Shootdown;

verus! {

/// A call: extension and function, and four arguments.
#[derive(Debug, Clone, Copy, PartialEq, Eq)]
pub struct SbiCall {
    pub extension: u64,
    pub function: u64,
    pub args: (u64, u64, u64, u64),
}

pub const HSM: u64 = 0x0048_534d;

pub const IPI: u64 = 0x0073_5049;

pub const RFENCE: u64 = 0x5246_4e43;

pub const TIME: u64 = 0x5449_4d45;

/// Start core `hart` at the physical address `entry`, with `context` in its second argument.
pub fn psci_cpu_on(hart: u64, entry: u64, context: u64) -> (c: SbiCall)
    ensures
        c == (SbiCall { extension: HSM, function: 0, args: (hart, entry, context, 0) }),
{
    SbiCall { extension: HSM, function: 0, args: (hart, entry, context, 0) }
}

/// Poke core `hart`.
pub fn sbi_send_ipi(hart: usize) -> (c: SbiCall)
    requires
        hart < 32,
    ensures
        c == (SbiCall { extension: IPI, function: 0, args: (1u64 << (hart as u64), 0, 0, 0) }),
{
    SbiCall { extension: IPI, function: 0, args: (1u64 << (hart as u64), 0, 0, 0) }
}

/// Have other cores forget a translation.
pub fn sbi_remote_sfence_vma(s: Shootdown) -> (c: SbiCall)
    ensures
        c == (SbiCall { extension: RFENCE, function: 1, args: (s.harts as u64, 0, s.va, s.size) }),
{
    SbiCall { extension: RFENCE, function: 1, args: (s.harts as u64, 0, s.va, s.size) }
}

/// Interrupt when the counter reaches `deadline`.
pub fn sbi_set_timer(deadline: u64) -> (c: SbiCall)
    ensures
        c == (SbiCall { extension: TIME, function: 0, args: (deadline, 0, 0, 0) }),
{
    SbiCall { extension: TIME, function: 0, args: (deadline, 0, 0, 0) }
}

} // verus!
