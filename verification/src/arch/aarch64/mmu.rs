//! Virtual memory: the kernel in the upper half under its own root register, so that the other one
//! can be swapped from process to process.
use aarch64_cpu::registers::TCR_EL1;
use vstd::prelude::*;

use crate::arch::kernel_map;
use crate::arch::kernel_map::ImageLayout;
use crate::frames::Region;
use crate::paging::{Extent, Flags, HalfView, MapError, PageMap, PAGE_SIZE};
use crate::tables;
use crate::tables::Tables;

verus! {

/// How many bits of address the tables right below a root cover.
pub const TOP_SHIFT: u32 = 39;

/// Where the kernel lives, virtually. Only the bits that are not translated are set, so a kernel
/// address and its physical address pick the same entries of the tables.
pub const KERNEL_VA_BASE: u64 = 0xffff_0000_0000_0000;

/// The console's registers.
pub const UART_BASE: u64 = 0x0900_0000;

pub const UART_SIZE: u64 = 0x1000;

/// The physical address `pa`, as the kernel names it.
pub fn phys_to_virt(pa: u64) -> (va: u64)
    ensures
        va == pa | KERNEL_VA_BASE,
        pa < 0x1_0000_0000_0000 ==> va == pa + KERNEL_VA_BASE,
{
    proof {
        if pa < 0x1_0000_0000_0000 {
            law_direct_map_round_trip(pa);
        }
    }
    pa | KERNEL_VA_BASE
}

/// The physical address behind the kernel's name `va`.
pub fn virt_to_phys(va: u64) -> (pa: u64)
    ensures
        pa == va & !KERNEL_VA_BASE,
        va >= KERNEL_VA_BASE ==> pa == va - KERNEL_VA_BASE,
{
    assert(va >= 0xffff_0000_0000_0000 ==> va & !0xffff_0000_0000_0000 == va
        - 0xffff_0000_0000_0000) by (bit_vector);
    va & !KERNEL_VA_BASE
}

/// **The direct map is exact both ways**: naming a physical address and masking the name gives the
/// address back, and the name picks the same entry of every table.
pub proof fn law_direct_map_round_trip(pa: u64)
    requires
        pa < 0x1_0000_0000_0000,
    ensures
        (pa | KERNEL_VA_BASE) & !KERNEL_VA_BASE == pa,
        pa | KERNEL_VA_BASE == pa + KERNEL_VA_BASE,
        ((pa | KERNEL_VA_BASE) >> 39) & 0x1ff == (pa >> 39) & 0x1ff,
        ((pa | KERNEL_VA_BASE) >> 30) & 0x1ff == (pa >> 30) & 0x1ff,
        ((pa | KERNEL_VA_BASE) >> 21) & 0x1ff == (pa >> 21) & 0x1ff,
        ((pa | KERNEL_VA_BASE) >> 12) & 0x1ff == (pa >> 12) & 0x1ff,
{
    let base: u64 = 0xffff_0000_0000_0000;
    assert((pa | base) & !base == pa && pa | base == pa + base && ((pa | base) >> 39) & 0x1ff == (pa
        >> 39) & 0x1ff && ((pa | base) >> 30) & 0x1ff == (pa >> 30) & 0x1ff && ((pa | base) >> 21)
        & 0x1ff == (pa >> 21) & 0x1ff && ((pa | base) >> 12) & 0x1ff == (pa >> 12) & 0x1ff)
        by (bit_vector)
        requires
            base == 0xffff_0000_0000_0000u64,
            pa < 0x1_0000_0000_0000,
    ;
}

/// The devices the kernel maps.
pub open spec fn device_windows() -> Seq<Region> {
    seq![Region { start: UART_BASE, size: UART_SIZE }]
}

/// A half with nothing mapped in it: the kernel's.
pub open spec fn empty_high() -> HalfView {
    HalfView { first: KERNEL_VA_BASE, last: u64::MAX, extents: Seq::empty() }
}

/// Map everything the kernel needs: memory, its image, its stack above a hole, and the console.
pub fn map_everything(m: &mut PageMap, l: ImageLayout, ram: &Vec<Region>) -> (r: Result<
    (),
    MapError,
>)
    requires
        old(m).wf(),
        l.above(KERNEL_VA_BASE),
        kernel_map::nameable(KERNEL_VA_BASE, ram@),
    ensures
        final(m).wf(),
        ({
            let plan = kernel_map::plan(KERNEL_VA_BASE, l, ram@, device_windows());
            let (h, refused) = kernel_map::run(old(m)@, plan);
            &&& final(m)@ == h
            &&& r == match refused {
                Some(why) => Err::<(), MapError>(why),
                None => Ok(()),
            }
        }),
{
    let mut windows: Vec<Region> = Vec::new();
    windows.push(Region { start: UART_BASE, size: UART_SIZE });
    assert(windows@ =~= device_windows());
    kernel_map::map_everything(m, KERNEL_VA_BASE, l, ram, &windows)
}

/// What is wrong with a map that the kernel was about to switch to.
#[derive(Debug, Clone, Copy, PartialEq, Eq, Structural)]
pub enum Unsound {
    /// A run of pages was refused.
    Refused(MapError),
    /// The code that switches is not mapped.
    CodeUnmapped,
    /// It is mapped to another frame.
    CodeElsewhere,
    /// It is not executable.
    CodeNotExecutable,
    /// It is writable.
    CodeWritable,
    /// The stack is not mapped.
    StackUnmapped,
    /// It is mapped to another frame.
    StackElsewhere,
    /// It is not writable.
    StackNotWritable,
    /// The console is not mapped.
    UartUnmapped,
    /// It is mapped to something else.
    UartElsewhere,
    /// It cannot be written to.
    UartNotWritable,
    /// The guard page below the stack is mapped.
    GuardMapped,
    /// The guard page below another core's stack is mapped.
    SecondaryGuardMapped,
}

/// What is wrong with the code at `here`.
pub open spec fn code_flaw(h: HalfView, here: u64) -> Option<Unsound> {
    match h.translation(here) {
        None => Some(Unsound::CodeUnmapped),
        Some((pa, f)) => if pa != here & !KERNEL_VA_BASE {
            Some(Unsound::CodeElsewhere)
        } else if !f.kernel_executable {
            Some(Unsound::CodeNotExecutable)
        } else if f.writable {
            Some(Unsound::CodeWritable)
        } else {
            None
        },
    }
}

/// What is wrong with the stack at `sp`.
pub open spec fn stack_flaw(h: HalfView, sp: u64) -> Option<Unsound> {
    match h.translation(sp) {
        None => Some(Unsound::StackUnmapped),
        Some((pa, f)) => if pa != sp & !KERNEL_VA_BASE {
            Some(Unsound::StackElsewhere)
        } else if !f.writable {
            Some(Unsound::StackNotWritable)
        } else {
            None
        },
    }
}

/// What is wrong with the console.
pub open spec fn uart_flaw(h: HalfView) -> Option<Unsound> {
    match h.translation(UART_BASE | KERNEL_VA_BASE) {
        None => Some(Unsound::UartUnmapped),
        Some((pa, f)) => if pa != UART_BASE {
            Some(Unsound::UartElsewhere)
        } else if !f.writable {
            Some(Unsound::UartNotWritable)
        } else {
            None
        },
    }
}

/// What is wrong, if anything: the first of the things that would kill the machine. The code that
/// switches must be mapped where it was linked, executable and not writable; the stack and the
/// console must be mapped where they are, and writable; no guard page must be mapped, below whichever
/// stack.
pub open spec fn flaw(h: HalfView, here: u64, sp: u64, l: ImageLayout) -> Option<Unsound> {
    if code_flaw(h, here) is Some {
        code_flaw(h, here)
    } else if stack_flaw(h, sp) is Some {
        stack_flaw(h, sp)
    } else if uart_flaw(h) is Some {
        uart_flaw(h)
    } else if h.translation(l.stack_guard) is Some {
        Some(Unsound::GuardMapped)
    } else if kernel_map::guard_mapped(h, l) {
        Some(Unsound::SecondaryGuardMapped)
    } else {
        None
    }
}

/// **Walk the map and check the things that would kill the machine**, `here` being an address in
/// the code that is about to switch to it and `sp` its stack pointer.
pub fn verify(m: &PageMap, here: u64, sp: u64, l: ImageLayout) -> (r: Result<(), Unsound>)
    requires
        m.wf(),
        crate::smp::region_fits(l.secondary_stacks),
    ensures
        r == match flaw(m@, here, sp, l) {
            Some(why) => Err::<(), Unsound>(why),
            None => Ok(()),
        },
{
    match m.translate(here) {
        None => {
            return Err(Unsound::CodeUnmapped);
        },
        Some((pa, flags)) => {
            if pa != virt_to_phys(here) {
                return Err(Unsound::CodeElsewhere);
            }
            if !flags.kernel_executable {
                return Err(Unsound::CodeNotExecutable);
            }
            if flags.writable {
                return Err(Unsound::CodeWritable);
            }
        },
    }
    match m.translate(sp) {
        None => {
            return Err(Unsound::StackUnmapped);
        },
        Some((pa, flags)) => {
            if pa != virt_to_phys(sp) {
                return Err(Unsound::StackElsewhere);
            }
            if !flags.writable {
                return Err(Unsound::StackNotWritable);
            }
        },
    }
    match m.translate(phys_to_virt(UART_BASE)) {
        None => {
            return Err(Unsound::UartUnmapped);
        },
        Some((pa, flags)) => {
            if pa != UART_BASE {
                return Err(Unsound::UartElsewhere);
            }
            if !flags.writable {
                return Err(Unsound::UartNotWritable);
            }
        },
    }
    if m.translate(l.stack_guard).is_some() {
        return Err(Unsound::GuardMapped);
    }
    if kernel_map::secondary_guard_is_mapped(m, l) {
        return Err(Unsound::SecondaryGuardMapped);
    }
    Ok(())
}

/// **Build the kernel's map and check it.**
pub fn init(l: ImageLayout, ram: &Vec<Region>, here: u64, sp: u64) -> (r: Result<PageMap, Unsound>)
    requires
        l.above(KERNEL_VA_BASE),
        kernel_map::nameable(KERNEL_VA_BASE, ram@),
    ensures
        ({
            let plan = kernel_map::plan(KERNEL_VA_BASE, l, ram@, device_windows());
            let (h, refused) = kernel_map::run(empty_high(), plan);
            let wrong = match refused {
                Some(why) => Some(Unsound::Refused(why)),
                None => flaw(h, here, sp, l),
            };
            match r {
                Ok(m) => wrong is None && m.wf() && m@ == h,
                Err(why) => wrong == Some(why),
            }
        }),
{
    let mut m = PageMap::new(KERNEL_VA_BASE, u64::MAX);
    assert(m@ =~= empty_high());
    match map_everything(&mut m, l, ram) {
        Ok(()) => {},
        Err(why) => {
            return Err(Unsound::Refused(why));
        },
    }
    match verify(&m, here, sp, l) {
        Ok(()) => {},
        Err(why) => {
            return Err(why);
        },
    }
    Ok(m)
}

/// **On a sane machine the kernel's map is sound.** Nothing is refused and nothing is found wrong,
/// wherever in the code the switch is made from and wherever on the stack.
pub proof fn law_the_map_is_sound(l: ImageLayout, ram: Seq<Region>, here: u64, sp: u64)
    requires
        kernel_map::sane(empty_high(), KERNEL_VA_BASE, l, ram, device_windows()),
        l.text_start <= here < l.text_end,
        l.stack_bottom <= sp < l.stack_top,
    ensures
        ({
            let plan = kernel_map::plan(KERNEL_VA_BASE, l, ram, device_windows());
            let (h, refused) = kernel_map::run(empty_high(), plan);
            refused is None && flaw(h, here, sp, l) is None
        }),
{
    let w = device_windows();
    let uart = UART_BASE | KERNEL_VA_BASE;
    law_direct_map_round_trip(UART_BASE);
    assert(w[0] == (Region { start: UART_BASE, size: UART_SIZE }));
    assert(kernel_map::in_regions(w, UART_BASE as int));
    kernel_map::law_the_kernel_map(empty_high(), KERNEL_VA_BASE, l, ram, w, here);
    kernel_map::law_the_kernel_map(empty_high(), KERNEL_VA_BASE, l, ram, w, sp);
    kernel_map::law_the_kernel_map(empty_high(), KERNEL_VA_BASE, l, ram, w, uart);
    kernel_map::law_the_kernel_map(empty_high(), KERNEL_VA_BASE, l, ram, w, l.stack_guard);
    kernel_map::law_no_guard_page_is_mapped(empty_high(), KERNEL_VA_BASE, l, ram, w);
    assert(here & !0xffff_0000_0000_0000u64 == here - 0xffff_0000_0000_0000u64) by (bit_vector)
        requires
            here >= 0xffff_0000_0000_0000u64,
    ;
    assert(sp & !0xffff_0000_0000_0000u64 == sp - 0xffff_0000_0000_0000u64) by (bit_vector)
        requires
            sp >= 0xffff_0000_0000_0000u64,
    ;
}

/// Map one page into the kernel's half, `supply` being the frames there are for the tables on the
/// way down. What is mapped already is never overwritten.
pub fn map_page(
    kernel: &mut PageMap,
    tables: &mut Tables,
    supply: &mut Vec<u64>,
    va: u64,
    pa: u64,
    flags: Flags,
) -> (r: Result<(), MapError>)
    requires
        old(kernel).wf(),
        old(tables).wf(),
    ensures
        final(kernel).wf(),
        final(tables).wf(),
        final(tables).top == old(tables).top,
        tables::page_mapped(
            old(kernel)@,
            old(tables).have@,
            old(supply)@,
            old(tables).top,
            (Extent { va, pa, pages: 1, flags }),
            final(kernel)@,
            final(tables).have@,
            final(supply)@,
            r,
        ),
{
    tables.map_page(kernel, supply, va, pa, flags)
}

/// Unmap one page of the kernel's half, and say which frame it was. The caller frees the frame, and
/// has every core forget the translation by the operand [`flush_tlb`] gives.
pub fn unmap_page(kernel: &mut PageMap, va: u64) -> (r: Result<u64, MapError>)
    requires
        old(kernel).wf(),
    ensures
        final(kernel).wf(),
        if va % PAGE_SIZE != 0 {
            r == Err::<u64, MapError>(MapError::Misaligned) && *final(kernel) == *old(kernel)
        } else {
            match old(kernel)@.translation(va) {
                None => r == Err::<u64, MapError>(MapError::NotMapped) && *final(kernel) == *old(
                    kernel,
                ),
                Some(t) => r == Ok::<u64, MapError>(t.0) && old(kernel)@.loses(final(kernel)@, va),
            }
        },
{
    kernel.unmap(va)
}

/// The operand that names the page at `va` when its translation is to be forgotten.
pub fn flush_tlb(va: u64) -> (operand: u64)
    ensures
        operand == va >> 12,
        operand == va / PAGE_SIZE,
{
    assert(va >> 12 == va / 4096) by (bit_vector);
    va >> 12
}

/// What a kernel address translates to.
pub fn translate(kernel: &PageMap, va: u64) -> (r: Option<(u64, Flags)>)
    requires
        kernel.wf(),
    ensures
        r == kernel@.translation(va),
{
    kernel.translate(va)
}

/// How the tables are walked, but for the size of physical addresses: 48 bits of address in either
/// half, pages of 4 KiB, tables in memory that is cached and shared, and no walks at all for the
/// lower half, where there is nothing yet.
pub const WALK: u64 = 0xb510_3590;

/// The word that tells the hardware how to walk, for a processor whose physical addresses are of
/// size `pa_range`.
pub open spec fn walk_word(pa_range: u64) -> u64 {
    WALK | ((pa_range & 7) << 32)
}

/// The translation control word, put together from the fields that `aarch64_cpu` defines for
/// `TCR_EL1`. A field's value is its bits moved to the field's place, cut to its width, and a sum
/// of field values is all their bits together; the claim is which bits those are.
#[verifier::external_body]
fn control_fields(pa_range: u64) -> (word: u64)
    ensures
        word == walk_word(pa_range),
{
    let low = TCR_EL1::T0SZ.val(16) + TCR_EL1::TG0::KiB_4 + TCR_EL1::SH0::Inner
        + TCR_EL1::ORGN0::WriteBack_ReadAlloc_WriteAlloc_Cacheable
        + TCR_EL1::IRGN0::WriteBack_ReadAlloc_WriteAlloc_Cacheable
        + TCR_EL1::EPD0::DisableTTBR0Walks;
    let high = TCR_EL1::T1SZ.val(16) + TCR_EL1::TG1::KiB_4 + TCR_EL1::SH1::Inner
        + TCR_EL1::ORGN1::WriteBack_ReadAlloc_WriteAlloc_Cacheable
        + TCR_EL1::IRGN1::WriteBack_ReadAlloc_WriteAlloc_Cacheable
        + TCR_EL1::EPD1::EnableTTBR1Walks;
    (low + high + TCR_EL1::IPS.val(pa_range)).value
}

/// What is written to switch to the kernel's own tables.
#[derive(Debug, Clone, Copy, PartialEq, Eq, Structural)]
pub struct Install {
    /// How to walk.
    pub tcr: u64,
    /// Where the upper half's tables are.
    pub ttbr1: u64,
}

/// **Switch to the tables at `root`**, on a processor whose physical addresses are of size
/// `pa_range`: what is written to the two registers, the first one first.
pub fn install(root: u64, pa_range: u64) -> (i: Install)
    ensures
        i.tcr == walk_word(pa_range),
        i.ttbr1 == root & 0x0000_ffff_ffff_fffe,
{
    Install { tcr: control_fields(pa_range), ttbr1: root & 0x0000_ffff_ffff_fffe }
}

/// The tables the upper half is walked through, `ttbr1` being its register.
pub fn kernel_root(ttbr1: u64) -> (root: u64)
    ensures
        root == ttbr1 & 0x0000_ffff_ffff_fffe,
{
    ttbr1 & 0x0000_ffff_ffff_fffe
}

/// **Nothing is reachable below the kernel, and the kernel's tables are the ones that were
/// installed.** The lower half is not walked; the upper half is, over 48 bits and in pages of 4 KiB;
/// the size of physical addresses is the processor's own; and a root on a page boundary is read back
/// as it was written.
pub proof fn law_only_the_kernel_is_walked(root: u64, pa_range: u64)
    requires
        root < 0x1_0000_0000_0000,
        root % 4096 == 0,
    ensures
        (walk_word(pa_range) >> 7) & 1 == 1,
        (walk_word(pa_range) >> 23) & 1 == 0,
        (walk_word(pa_range) >> 16) & 0x3f == 64 - 48,
        (walk_word(pa_range) >> 30) & 3 == 2,
        (walk_word(pa_range) >> 32) & 7 == pa_range & 7,
        (root & 0x0000_ffff_ffff_fffe) & 0x0000_ffff_ffff_fffe == root,
{
    let word = walk_word(pa_range);
    assert((word >> 7) & 1 == 1 && (word >> 23) & 1 == 0 && (word >> 16) & 0x3f == 16 && (word >> 30)
        & 3 == 2 && (word >> 32) & 7 == pa_range & 7) by (bit_vector)
        requires
            word == 0xb510_3590u64 | ((pa_range & 7) << 32),
    ;
    assert((root & 0x0000_ffff_ffff_fffe) & 0x0000_ffff_ffff_fffe == root) by (bit_vector)
        requires
            root < 0x1_0000_0000_0000,
            root % 4096 == 0,
    ;
}

/// Is translation on, `sctlr` being the control register?
pub fn is_enabled(sctlr: u64) -> (on: bool)
    ensures
        on == (sctlr & 1 == 1),
{
    sctlr & 1 == 1
}

/// **What a sound map is.** Nothing is found wrong exactly if the running code is where it was linked
/// for, can be run and cannot be written, the stack in use is where it was linked for and can be
/// written, the console is there and can be written, and no guard page is mapped.
pub proof fn law_what_a_sound_map_is(h: HalfView, here: u64, sp: u64, l: ImageLayout)
    requires
        here >= KERNEL_VA_BASE,
        sp >= KERNEL_VA_BASE,
    ensures
        flaw(h, here, sp, l) is None <==> {
            let (code, stack) = (h.translation(here), h.translation(sp));
            let uart = h.translation((UART_BASE + KERNEL_VA_BASE) as u64);
            &&& code is Some && (code->0).0 + KERNEL_VA_BASE == here
            &&& (code->0).1.kernel_executable && !(code->0).1.writable
            &&& stack is Some && (stack->0).0 + KERNEL_VA_BASE == sp && (stack->0).1.writable
            &&& uart is Some && (uart->0).0 == UART_BASE && (uart->0).1.writable
            &&& h.translation(l.stack_guard) is None
            &&& !kernel_map::guard_mapped(h, l)
        },
{
    law_direct_map_round_trip(UART_BASE);
    assert(here & !0xffff_0000_0000_0000u64 == here - 0xffff_0000_0000_0000u64) by (bit_vector)
        requires
            here >= 0xffff_0000_0000_0000u64,
    ;
    assert(sp & !0xffff_0000_0000_0000u64 == sp - 0xffff_0000_0000_0000u64) by (bit_vector)
        requires
            sp >= 0xffff_0000_0000_0000u64,
    ;
}

/// **What is found wrong is so.**
pub proof fn law_what_is_found_wrong_is_so(h: HalfView, here: u64, sp: u64, l: ImageLayout)
    ensures
        match flaw(h, here, sp, l) {
            Some(Unsound::CodeUnmapped) => h.translation(here) is None,
            Some(Unsound::CodeElsewhere) => (h.translation(here)->0).0 != here & !KERNEL_VA_BASE,
            Some(Unsound::CodeNotExecutable) => !(h.translation(here)->0).1.kernel_executable,
            Some(Unsound::CodeWritable) => (h.translation(here)->0).1.writable,
            Some(Unsound::StackUnmapped) => h.translation(sp) is None,
            Some(Unsound::StackElsewhere) => (h.translation(sp)->0).0 != sp & !KERNEL_VA_BASE,
            Some(Unsound::StackNotWritable) => !(h.translation(sp)->0).1.writable,
            Some(Unsound::UartUnmapped) => h.translation(UART_BASE | KERNEL_VA_BASE) is None,
            Some(Unsound::UartElsewhere) => (h.translation(UART_BASE | KERNEL_VA_BASE)->0).0
                != UART_BASE,
            Some(Unsound::UartNotWritable) => !(h.translation(
                UART_BASE | KERNEL_VA_BASE,
            )->0).1.writable,
            Some(Unsound::GuardMapped) => h.translation(l.stack_guard) is Some,
            Some(Unsound::SecondaryGuardMapped) => kernel_map::guard_mapped(h, l),
            Some(Unsound::Refused(_)) => false,
            None => true,
        },
{
}

/// **How both halves are walked**: alike, over 48 bits of address and pages of 4 KiB, through tables in
/// memory that is shared and cached, whatever the size of physical addresses.
pub proof fn law_both_halves_are_walked_alike(pa_range: u64)
    ensures
        ({
            let w = walk_word(pa_range);
            &&& w & 0x3f == 16 && (w >> 16) & 0x3f == 16
            &&& (w >> 8) & 3 == 1 && (w >> 24) & 3 == 1
            &&& (w >> 10) & 3 == 1 && (w >> 26) & 3 == 1
            &&& (w >> 12) & 3 == 3 && (w >> 28) & 3 == 3
            &&& (w >> 14) & 3 == 0 && (w >> 30) & 3 == 2
            &&& (w >> 32) == pa_range & 7
        }),
{
    let w = walk_word(pa_range);
    assert(w & 0x3f == 16 && (w >> 16) & 0x3f == 16 && (w >> 8) & 3 == 1 && (w >> 24) & 3 == 1 && (w
        >> 10) & 3 == 1 && (w >> 26) & 3 == 1 && (w >> 12) & 3 == 3 && (w >> 28) & 3 == 3 && (w
        >> 14) & 3 == 0 && (w >> 30) & 3 == 2 && (w >> 32) == pa_range & 7) by (bit_vector)
        requires
            w == 0xb510_3590u64 | ((pa_range & 7) << 32),
    ;
}

} // verus!
