//! Exceptions: what a saved frame holds, what a class means, and what is done about it.
use vstd::prelude::*;

use crate::arch::heartbeat;

verus! {

/// The registers an exception saves.
#[derive(Debug, Clone, Copy)]
pub struct TrapFrame {
    /// The general registers.
    pub x: [u64; 31],
    /// Where the interrupted code goes on.
    pub elr: u64,
    /// The state it was in.
    pub spsr: u64,
    /// Keeps the frame a multiple of sixteen bytes.
    pub pad: u64,
}

/// The exception classes that have a name.
pub const EC_UNKNOWN: u64 = 0x00;

pub const EC_TRAPPED_WFI_WFE: u64 = 0x01;

pub const EC_ILLEGAL_EXECUTION_STATE: u64 = 0x0e;

pub const EC_SVC64: u64 = 0x15;

pub const EC_TRAPPED_MSR_MRS: u64 = 0x18;

pub const EC_INSTRUCTION_ABORT_LOWER_EL: u64 = 0x20;

pub const EC_INSTRUCTION_ABORT_SAME_EL: u64 = 0x21;

pub const EC_PC_ALIGNMENT_FAULT: u64 = 0x22;

pub const EC_DATA_ABORT_LOWER_EL: u64 = 0x24;

pub const EC_DATA_ABORT_SAME_EL: u64 = 0x25;

pub const EC_SP_ALIGNMENT_FAULT: u64 = 0x26;

pub const EC_SERROR: u64 = 0x2f;

pub const EC_BREAKPOINT_LOWER_EL: u64 = 0x30;

pub const EC_BREAKPOINT_SAME_EL: u64 = 0x31;

pub const EC_BRK64: u64 = 0x3c;

/// The class in the syndrome `esr`.
pub open spec fn class_of(esr: u64) -> u64 {
    (esr >> 26) & 0x3f
}

/// The name of an exception class.
pub open spec fn ec_text(class: u64) -> Seq<char> {
    if class == EC_UNKNOWN {
        "Unknown reason"@
    } else if class == EC_TRAPPED_WFI_WFE {
        "Trapped WFI/WFE"@
    } else if class == EC_ILLEGAL_EXECUTION_STATE {
        "Illegal execution state"@
    } else if class == EC_SVC64 {
        "SVC (syscall) from AArch64"@
    } else if class == EC_TRAPPED_MSR_MRS {
        "Trapped system register access"@
    } else if class == EC_INSTRUCTION_ABORT_LOWER_EL {
        "Instruction abort from a lower EL"@
    } else if class == EC_INSTRUCTION_ABORT_SAME_EL {
        "Instruction abort from the same EL"@
    } else if class == EC_PC_ALIGNMENT_FAULT {
        "PC alignment fault"@
    } else if class == EC_DATA_ABORT_LOWER_EL {
        "Data abort from a lower EL"@
    } else if class == EC_DATA_ABORT_SAME_EL {
        "Data abort from the same EL"@
    } else if class == EC_SP_ALIGNMENT_FAULT {
        "SP alignment fault"@
    } else if class == EC_SERROR {
        "SError"@
    } else if class == EC_BREAKPOINT_LOWER_EL {
        "Breakpoint from a lower EL"@
    } else if class == EC_BREAKPOINT_SAME_EL {
        "Breakpoint from the same EL"@
    } else if class == EC_BRK64 {
        "BRK instruction"@
    } else {
        "unrecognized exception class"@
    }
}

/// The name of an exception class.
pub fn ec_name(class: u64) -> (name: &'static str)
    ensures
        name@ == ec_text(class),
{
    if class == EC_UNKNOWN {
        "Unknown reason"
    } else if class == EC_TRAPPED_WFI_WFE {
        "Trapped WFI/WFE"
    } else if class == EC_ILLEGAL_EXECUTION_STATE {
        "Illegal execution state"
    } else if class == EC_SVC64 {
        "SVC (syscall) from AArch64"
    } else if class == EC_TRAPPED_MSR_MRS {
        "Trapped system register access"
    } else if class == EC_INSTRUCTION_ABORT_LOWER_EL {
        "Instruction abort from a lower EL"
    } else if class == EC_INSTRUCTION_ABORT_SAME_EL {
        "Instruction abort from the same EL"
    } else if class == EC_PC_ALIGNMENT_FAULT {
        "PC alignment fault"
    } else if class == EC_DATA_ABORT_LOWER_EL {
        "Data abort from a lower EL"
    } else if class == EC_DATA_ABORT_SAME_EL {
        "Data abort from the same EL"
    } else if class == EC_SP_ALIGNMENT_FAULT {
        "SP alignment fault"
    } else if class == EC_SERROR {
        "SError"
    } else if class == EC_BREAKPOINT_LOWER_EL {
        "Breakpoint from a lower EL"
    } else if class == EC_BREAKPOINT_SAME_EL {
        "Breakpoint from the same EL"
    } else if class == EC_BRK64 {
        "BRK instruction"
    } else {
        "unrecognized exception class"
    }
}

/// Where an exception came from, by its slot in the vector table: four groups of four.
pub open spec fn group_text(index: u64) -> Seq<char> {
    if index < 4 {
        "Current EL, SP_EL0"@
    } else if index < 8 {
        "Current EL, SP_ELx"@
    } else if index < 12 {
        "Lower EL, AArch64"@
    } else if index < 16 {
        "Lower EL, AArch32"@
    } else {
        "<vector index out of range>"@
    }
}

/// What kind of exception it was, by its slot.
pub open spec fn kind_text(index: u64) -> Seq<char> {
    if index >= 16 {
        ""@
    } else if index % 4 == 0 {
        "Synchronous"@
    } else if index % 4 == 1 {
        "IRQ"@
    } else if index % 4 == 2 {
        "FIQ"@
    } else {
        "SError"@
    }
}

/// Where an exception came from and what kind it was, by its slot in the vector table.
pub fn vector_name(index: u64) -> (name: (&'static str, &'static str))
    ensures
        name.0@ == group_text(index),
        name.1@ == kind_text(index),
{
    let group = if index < 4 {
        "Current EL, SP_EL0"
    } else if index < 8 {
        "Current EL, SP_ELx"
    } else if index < 12 {
        "Lower EL, AArch64"
    } else if index < 16 {
        "Lower EL, AArch32"
    } else {
        "<vector index out of range>"
    };
    let kind = if index >= 16 {
        ""
    } else if index % 4 == 0 {
        "Synchronous"
    } else if index % 4 == 1 {
        "IRQ"
    } else if index % 4 == 2 {
        "FIQ"
    } else {
        "SError"
    };
    (group, kind)
}

/// Does the fault address register mean anything for this class? For any other it holds what an
/// earlier fault left there.
pub fn far_is_meaningful(class: u64) -> (r: bool)
    ensures
        r == (class == EC_INSTRUCTION_ABORT_LOWER_EL || class == EC_INSTRUCTION_ABORT_SAME_EL
            || class == EC_DATA_ABORT_LOWER_EL || class == EC_DATA_ABORT_SAME_EL || class
            == EC_PC_ALIGNMENT_FAULT),
{
    class == EC_INSTRUCTION_ABORT_LOWER_EL || class == EC_INSTRUCTION_ABORT_SAME_EL || class
        == EC_DATA_ABORT_LOWER_EL || class == EC_DATA_ABORT_SAME_EL || class
        == EC_PC_ALIGNMENT_FAULT
}

/// The address that faulted, where the syndrome says that there is one.
pub open spec fn far_of(esr: u64, far: u64) -> Option<u64> {
    let c = class_of(esr);
    if c == EC_INSTRUCTION_ABORT_LOWER_EL || c == EC_INSTRUCTION_ABORT_SAME_EL || c
        == EC_DATA_ABORT_LOWER_EL || c == EC_DATA_ABORT_SAME_EL || c == EC_PC_ALIGNMENT_FAULT {
        Some(far)
    } else {
        None
    }
}

/// Everything that is known of an exception nobody handles.
#[derive(Debug, Clone, Copy)]
pub struct Report {
    pub class: u64,
    pub esr: u64,
    /// The address that faulted, where there is one.
    pub far: Option<u64>,
    /// The instruction that did it.
    pub elr: u64,
    pub spsr: u64,
    pub x: [u64; 31],
}

/// What the kernel does about an exception.
pub enum Outcome {
    /// Go on.
    Resume,
    /// Say what happened, and stop.
    Fatal(Report),
}

/// Put together everything that is known of an exception, `far` being the fault address register.
fn fatal(frame: &TrapFrame, esr: u64, far: u64) -> (r: Report)
    ensures
        r.class == class_of(esr),
        r.esr == esr,
        r.elr == frame.elr,
        r.spsr == frame.spsr,
        r.x@ == frame.x@,
        r.far == far_of(esr, far),
{
    let class: u64 = (esr >> 26) & 0x3f;
    Report {
        class,
        esr,
        far: if far_is_meaningful(class) {
            Some(far)
        } else {
            None
        },
        elr: frame.elr,
        spsr: frame.spsr,
        x: frame.x,
    }
}

/// **Decide about an exception.** A breakpoint is counted and stepped over, which takes four bytes:
/// the return address points at it, not behind it. Anything else is the end.
pub fn exception_dispatch(frame: &mut TrapFrame, breakpoints: &mut u64, esr: u64, far: u64) -> (o:
    Outcome)
    requires
        class_of(esr) == EC_BRK64 ==> old(frame).elr <= u64::MAX - 4,
    ensures
        final(frame).x@ == old(frame).x@,
        final(frame).spsr == old(frame).spsr,
        if class_of(esr) == EC_BRK64 {
            &&& o is Resume
            &&& final(frame).elr == old(frame).elr + 4
            &&& *final(breakpoints) == heartbeat::bump(*old(breakpoints))
        } else {
            &&& o matches Outcome::Fatal(r) && r.class == class_of(esr) && r.esr == esr && r.far
                == far_of(esr, far) && r.elr == old(frame).elr && r.spsr == old(frame).spsr && r.x@ == old(frame).x@
            &&& final(frame).elr == old(frame).elr
            &&& *final(breakpoints) == *old(breakpoints)
        },
{
    let class: u64 = (esr >> 26) & 0x3f;
    if class == EC_BRK64 {
        *breakpoints = breakpoints.wrapping_add(1);
        frame.elr = frame.elr + 4;
        Outcome::Resume
    } else {
        Outcome::Fatal(fatal(frame, esr, far))
    }
}

/// The registers in row `row` of a dump, from the first up to, not including, the second: four to a
/// row, and what is left in the last.
pub fn print_reg_row(row: usize) -> (span: (usize, usize))
    requires
        row < 8,
    ensures
        span.0 == 4 * row,
        span.1 == (if 4 * row + 4 <= 31 {
            4 * row + 4
        } else {
            31
        }),
{
    let first: usize = row * 4;
    let end: usize = if first + 4 <= 31 {
        first + 4
    } else {
        31
    };
    (first, end)
}

/// **A dump shows every register once.**
pub proof fn law_the_dump_shows_every_register(i: int)
    requires
        0 <= i < 31,
    ensures
        i / 4 < 8,
        4 * (i / 4) <= i,
        i < (if 4 * (i / 4) + 4 <= 31 {
            4 * (i / 4) + 4
        } else {
            31
        }),
{
}

/// **The class is six bits of the syndrome**, whatever the others are.
pub proof fn law_the_class_is_six_bits(esr: u64)
    ensures
        class_of(esr) == (esr / 0x400_0000) % 64,
{
    assert((esr >> 26) & 0x3f == (esr / 0x400_0000) % 64) by (bit_vector);
}

/// **An address is reported with an abort and a misaligned instruction, and with nothing else.** Where
/// one is, it is the one the fault address register held.
pub proof fn law_when_there_is_an_address(esr: u64, far: u64)
    ensures
        far_of(esr, far) is Some <==> 0x20 <= class_of(esr) <= 0x22 || 0x24 <= class_of(esr)
            <= 0x25,
        far_of(esr, far) is Some ==> far_of(esr, far)->0 == far,
{
}

/// **Every class has the name of its number**, and one whose number has none is said not to be
/// recognized.
pub proof fn law_every_class_has_its_name(class: u64)
    ensures
        class == 0x00 ==> ec_text(class) == "Unknown reason"@,
        class == 0x01 ==> ec_text(class) == "Trapped WFI/WFE"@,
        class == 0x0e ==> ec_text(class) == "Illegal execution state"@,
        class == 0x15 ==> ec_text(class) == "SVC (syscall) from AArch64"@,
        class == 0x18 ==> ec_text(class) == "Trapped system register access"@,
        class == 0x20 ==> ec_text(class) == "Instruction abort from a lower EL"@,
        class == 0x21 ==> ec_text(class) == "Instruction abort from the same EL"@,
        class == 0x22 ==> ec_text(class) == "PC alignment fault"@,
        class == 0x24 ==> ec_text(class) == "Data abort from a lower EL"@,
        class == 0x25 ==> ec_text(class) == "Data abort from the same EL"@,
        class == 0x26 ==> ec_text(class) == "SP alignment fault"@,
        class == 0x2f ==> ec_text(class) == "SError"@,
        class == 0x30 ==> ec_text(class) == "Breakpoint from a lower EL"@,
        class == 0x31 ==> ec_text(class) == "Breakpoint from the same EL"@,
        class == 0x3c ==> ec_text(class) == "BRK instruction"@,
        !seq![
            0u64,
            1,
            0x0e,
            0x15,
            0x18,
            0x20,
            0x21,
            0x22,
            0x24,
            0x25,
            0x26,
            0x2f,
            0x30,
            0x31,
            0x3c,
        ].contains(class) ==> ec_text(class) == "unrecognized exception class"@,
{
    let s = seq![
        0u64,
        1,
        0x0e,
        0x15,
        0x18,
        0x20,
        0x21,
        0x22,
        0x24,
        0x25,
        0x26,
        0x2f,
        0x30,
        0x31,
        0x3c,
    ];
    if !s.contains(class) {
        assert(s[0] != class && s[1] != class && s[2] != class && s[3] != class && s[4] != class
            && s[5] != class && s[6] != class && s[7] != class && s[8] != class && s[9] != class
            && s[10] != class && s[11] != class && s[12] != class && s[13] != class && s[14]
            != class);
    }
}

/// **The vector table is four groups of four**: where an exception came from is its group, and what
/// kind it was is its place in the group, the same in every group.
pub proof fn law_the_table_is_four_groups_of_four(group: u64, place: u64)
    requires
        group < 4,
        place < 4,
    ensures
        ({
            let i = (4 * group + place) as u64;
            &&& group_text(i) == group_text((4 * group) as u64)
            &&& kind_text(i) == kind_text(place)
            &&& group == 0 ==> group_text(i) == "Current EL, SP_EL0"@
            &&& group == 1 ==> group_text(i) == "Current EL, SP_ELx"@
            &&& group == 2 ==> group_text(i) == "Lower EL, AArch64"@
            &&& group == 3 ==> group_text(i) == "Lower EL, AArch32"@
            &&& place == 0 ==> kind_text(i) == "Synchronous"@
            &&& place == 1 ==> kind_text(i) == "IRQ"@
            &&& place == 2 ==> kind_text(i) == "FIQ"@
            &&& place == 3 ==> kind_text(i) == "SError"@
        }),
{
}

} // verus!
