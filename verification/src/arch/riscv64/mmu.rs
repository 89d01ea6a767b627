//! Virtual memory: the high half for the kernel, the low half for processes, both under one root
//! register.
//!
//! There is one root register for the whole address space, so every process's root table carries
//! the kernel's upper entries, and switching processes rewrites the register.
use vstd::prelude::*;

use crate::arch::kernel_map;
use crate::arch::kernel_map::ImageLayout;
use crate::frames::Region;
use crate::paging::{Extent, Flags, HalfView, MapError, PageMap, ENTRIES, PAGE_SIZE};
use crate::tables;
use crate::tables::Tables;

verus! {

/// How many bits of address the tables right below a root cover.
pub const TOP_SHIFT: u32 = 30;

/// The lowest address of the kernel's half.
pub const KERNEL_VA_BASE: u64 = 0xffff_ffc0_0000_0000;

/// The highest address of a process's half.
pub const USER_VA_LAST: u64 = 0x0000_003f_ffff_ffff;

/// The console's registers.
pub const UART_BASE: u64 = 0x1000_0000;

pub const UART_SIZE: u64 = 0x1000;

/// The page whose first word ends the emulator.
pub const FINISHER_BASE: u64 = 0x10_0000;

/// The window of the memory-mapped transports.
pub const VIRTIO_MMIO_BASE: u64 = 0x1000_1000;

pub const VIRTIO_MMIO_SIZE: u64 = 0x8000;

/// The interrupt of the first transport; the others follow.
pub const VIRTIO_IRQ_BASE: u32 = 1;

pub const VIRTIO_SLOT_STRIDE: u64 = 0x1000;

pub const VIRTIO_SLOTS: u64 = 8;

/// Configuration space, and how many buses of it are mapped.
pub const PCI_ECAM_BASE: u64 = 0x3000_0000;

pub const PCI_ECAM_BUSES: u16 = 1;

pub const PCI_ECAM_MAPPED: u64 = 0x10_0000;

/// Where base address registers are placed, and how much of the window is mapped.
pub const PCI_BAR_BASE: u64 = 0x4000_0000;

pub const PCI_BAR_MAPPED: u64 = 0x20_0000;

/// The interrupt of the first legacy line; the other three follow.
pub const PCI_IRQ_BASE: u32 = 32;

/// The physical address `pa`, as the kernel names it.
pub fn phys_to_virt(pa: u64) -> (va: u64)
    requires
        pa <= u64::MAX - KERNEL_VA_BASE,
    ensures
        va == pa + KERNEL_VA_BASE,
{
    pa + KERNEL_VA_BASE
}

/// The physical address behind the kernel's name `va`.
pub fn virt_to_phys(va: u64) -> (pa: u64)
    requires
        va >= KERNEL_VA_BASE,
    ensures
        pa == va - KERNEL_VA_BASE,
{
    va - KERNEL_VA_BASE
}

/// A leaf of the top level: a gigabyte at `pa`, readable, writable and executable, for the few
/// instructions until the real tables stand.
pub open spec fn giga(pa: u64) -> u64 {
    ((pa >> 12) << 10) | 0xcf
}

/// The table the kernel boots on: the gigabytes that hold the console and the kernel, each at its
/// own address and again in the high half.
pub open spec fn boot_entry(i: int) -> u64 {
    if i == 0 || i == 256 {
        giga(0)
    } else if i == 2 || i == 258 {
        giga(0x8000_0000)
    } else {
        0
    }
}

/// The table the kernel boots on.
pub fn boot_table() -> (t: [u64; 512])
    ensures
        forall|i: int| 0 <= i < 512 ==> #[trigger] t@[i] == boot_entry(i),
{
    let mut t: [u64; 512] = [0; 512];
    let low: u64 = (0u64 >> 12 << 10) | 0xcf;
    let high: u64 = (0x8000_0000u64 >> 12 << 10) | 0xcf;
    t[0] = low;
    t[2] = high;
    t[256] = low;
    t[258] = high;
    t
}

/// **The boot table maps low and high alike.** A kernel address stands 256 entries above its
/// physical address in the top-level table, so the two copies of a leaf serve both.
pub proof fn law_the_high_half_is_an_alias(pa: u64)
    requires
        pa < 0x40_0000_0000,
    ensures
        (((pa + KERNEL_VA_BASE) as u64) >> 30) & 0x1ff == ((pa >> 30) & 0x1ff) + 256,
        boot_entry(((pa >> 30) & 0x1ff) as int) == boot_entry(((pa >> 30) & 0x1ff) + 256),
{
    assert((((pa + 0xffff_ffc0_0000_0000u64) as u64) >> 30) & 0x1ff == ((pa >> 30) & 0x1ff) + 256)
        by (bit_vector)
        requires
            pa < 0x40_0000_0000,
    ;
    assert((pa >> 30) & 0x1ff < 256) by (bit_vector)
        requires
            pa < 0x40_0000_0000,
    ;
}

/// **The direct map is exact both ways.**
pub proof fn law_direct_map_round_trip(pa: u64)
    requires
        pa <= u64::MAX - KERNEL_VA_BASE,
    ensures
        (pa + KERNEL_VA_BASE) - KERNEL_VA_BASE == pa,
        KERNEL_VA_BASE <= pa + KERNEL_VA_BASE <= u64::MAX,
{
}

/// The word that installs an address space: the mode, the address-space number, and the page of
/// the root table.
pub open spec fn satp(root: u64, asid: u16) -> u64 {
    (8u64 << 60) | ((asid as u64) << 44) | (root >> 12)
}

/// The word that installs the address space rooted at `root` under the number `asid`.
pub fn ttbr0_value(root: u64, asid: u16) -> (word: u64)
    ensures
        word == satp(root, asid),
{
    (8u64 << 60) | ((asid as u64) << 44) | (root >> 12)
}

/// **Nothing in the word spills into its neighbour**: mode, number and root can be read back.
pub proof fn law_satp_fields(root: u64, asid: u16)
    requires
        root < 0x100_0000_0000_0000,
        root & 0xfff == 0,
    ensures
        satp(root, asid) >> 60 == 8,
        (satp(root, asid) >> 44) & 0xffff == asid,
        root_of(satp(root, asid)) == root,
{
    let word = (8u64 << 60) | ((asid as u64) << 44) | (root >> 12);
    assert(word >> 60 == 8 && (word >> 44) & 0xffff == asid && (word & 0xfff_ffff_ffff) << 12
        == root) by (bit_vector)
        requires
            word == (8u64 << 60) | ((asid as u64) << 44) | (root >> 12),
            root < 0x100_0000_0000_0000,
            root & 0xfff == 0,
    ;
}

/// The root table a word installs.
pub open spec fn root_of(satp: u64) -> u64 {
    (satp & 0xfff_ffff_ffff) << 12
}

/// The root table of the address space that `satp` installs.
pub fn current_user_root(satp: u64) -> (root: u64)
    ensures
        root == root_of(satp),
{
    (satp & 0xfff_ffff_ffff) << 12
}

/// Is paging on under `satp`?
pub fn is_enabled(satp: u64) -> (on: bool)
    ensures
        on == (satp >> 60 != 0),
{
    satp >> 60 != 0
}

/// What a thread without an address space runs on: the kernel's own root, whose low half is empty.
pub fn reserved_root(kernel_root: u64) -> (word: u64)
    ensures
        word == satp(kernel_root, 0),
{
    ttbr0_value(kernel_root, 0)
}

/// The root register of a core, and the root the kernel itself runs on.
#[derive(Debug, Clone, Copy, PartialEq, Eq, Structural)]
pub struct RootRegister {
    pub satp: u64,
    pub kernel_root: u64,
}

/// Install the address space that `word` names. The caller writes the register and flushes.
pub fn switch_user_root(core: &mut RootRegister, word: u64)
    ensures
        *final(core) == (RootRegister { satp: word, ..*old(core) }),
{
    core.satp = word;
}

/// Fall back to an address space with nothing of a process in it.
pub fn deactivate_user(core: &mut RootRegister)
    ensures
        *final(core) == (RootRegister { satp: satp(old(core).kernel_root, 0), ..*old(core) }),
{
    let word: u64 = reserved_root(core.kernel_root);
    switch_user_root(core, word);
}

/// The devices the kernel maps, `plic` being the interrupt controller if the machine has told.
pub open spec fn device_windows(plic: Option<Region>) -> Seq<Region> {
    seq![Region { start: UART_BASE, size: UART_SIZE }] + (match plic {
        Some(r) => seq![r],
        None => Seq::empty(),
    }) + seq![
        Region { start: FINISHER_BASE, size: PAGE_SIZE },
        Region { start: VIRTIO_MMIO_BASE, size: VIRTIO_MMIO_SIZE },
        Region { start: PCI_ECAM_BASE, size: PCI_ECAM_MAPPED },
        Region { start: PCI_BAR_BASE, size: PCI_BAR_MAPPED },
    ]
}

fn devices(plic: Option<Region>) -> (out: Vec<Region>)
    ensures
        out@ == device_windows(plic),
{
    let mut out: Vec<Region> = Vec::new();
    out.push(Region { start: UART_BASE, size: UART_SIZE });
    if let Some(r) = plic {
        out.push(r);
    }
    out.push(Region { start: FINISHER_BASE, size: PAGE_SIZE });
    out.push(Region { start: VIRTIO_MMIO_BASE, size: VIRTIO_MMIO_SIZE });
    out.push(Region { start: PCI_ECAM_BASE, size: PCI_ECAM_MAPPED });
    out.push(Region { start: PCI_BAR_BASE, size: PCI_BAR_MAPPED });
    assert(out@ =~= device_windows(plic));
    out
}

/// **The fixed windows are whole pages and do not overlap.**
pub proof fn law_the_windows_are_apart()
    ensures
        kernel_map::whole(device_windows(None)),
        kernel_map::apart(device_windows(None)),
{
}

/// A half with nothing mapped in it: the kernel's.
pub open spec fn empty_high() -> HalfView {
    HalfView { first: KERNEL_VA_BASE, last: u64::MAX, extents: Seq::empty() }
}

/// Map everything the kernel needs: memory, its image, its stack above a hole, and the devices.
pub fn map_everything(m: &mut PageMap, l: ImageLayout, ram: &Vec<Region>, plic: Option<Region>) -> (r:
    Result<(), MapError>)
    requires
        old(m).wf(),
        l.above(KERNEL_VA_BASE),
        kernel_map::nameable(KERNEL_VA_BASE, ram@),
        plic matches Some(p) ==> KERNEL_VA_BASE + p.spec_end() <= u64::MAX,
    ensures
        final(m).wf(),
        ({
            let plan = kernel_map::plan(KERNEL_VA_BASE, l, ram@, device_windows(plic));
            let (h, refused) = kernel_map::run(old(m)@, plan);
            &&& final(m)@ == h
            &&& r == match refused {
                Some(why) => Err::<(), MapError>(why),
                None => Ok(()),
            }
        }),
{
    let windows = devices(plic);
    kernel_map::map_everything(m, KERNEL_VA_BASE, l, ram, &windows)
}

/// What is wrong with a map that the kernel was about to switch to.
#[derive(Debug, Clone, Copy, PartialEq, Eq, Structural)]
pub enum Unsound {
    /// A run of pages was refused.
    Refused(MapError),
    /// The code that switches is not mapped.
    CodeUnmapped,
    /// It is mapped to another frame.
    CodeElsewhere,
    /// It is not executable.
    CodeNotExecutable,
    /// It is writable.
    CodeWritable,
    /// The console is not mapped.
    UartUnmapped,
    /// The guard page below the stack is mapped.
    GuardMapped,
    /// The guard page below another core's stack is mapped.
    SecondaryGuardMapped,
}

/// What is wrong, if anything: the first of the things that would kill the machine.
pub open spec fn flaw(h: HalfView, here: u64, l: ImageLayout) -> Option<Unsound> {
    match h.translation(here) {
        None => Some(Unsound::CodeUnmapped),
        Some((pa, f)) => if pa != here - KERNEL_VA_BASE {
            Some(Unsound::CodeElsewhere)
        } else if !f.kernel_executable {
            Some(Unsound::CodeNotExecutable)
        } else if f.writable {
            Some(Unsound::CodeWritable)
        } else if h.translation((UART_BASE + KERNEL_VA_BASE) as u64) is None {
            Some(Unsound::UartUnmapped)
        } else if h.translation(l.stack_guard) is Some {
            Some(Unsound::GuardMapped)
        } else if kernel_map::guard_mapped(h, l) {
            Some(Unsound::SecondaryGuardMapped)
        } else {
            None
        },
    }
}

/// **Walk the map and check the things that would kill the machine**, `here` being an address in
/// the code that is about to switch to it.
pub fn verify(m: &PageMap, here: u64, l: ImageLayout) -> (r: Result<(), Unsound>)
    requires
        m.wf(),
        here >= KERNEL_VA_BASE,
        crate::smp::region_fits(l.secondary_stacks),
    ensures
        r == match flaw(m@, here, l) {
            Some(why) => Err::<(), Unsound>(why),
            None => Ok(()),
        },
{
    match m.translate(here) {
        None => {
            return Err(Unsound::CodeUnmapped);
        },
        Some((pa, flags)) => {
            if pa != virt_to_phys(here) {
                return Err(Unsound::CodeElsewhere);
            }
            if !flags.kernel_executable {
                return Err(Unsound::CodeNotExecutable);
            }
            if flags.writable {
                return Err(Unsound::CodeWritable);
            }
        },
    }
    if m.translate(phys_to_virt(UART_BASE)).is_none() {
        return Err(Unsound::UartUnmapped);
    }
    if m.translate(l.stack_guard).is_some() {
        return Err(Unsound::GuardMapped);
    }
    if kernel_map::secondary_guard_is_mapped(m, l) {
        return Err(Unsound::SecondaryGuardMapped);
    }
    Ok(())
}

/// **Build the kernel's map and check it.** `Ok` holds the map, and the word that installs it at
/// `root`.
pub fn init(
    l: ImageLayout,
    ram: &Vec<Region>,
    plic: Option<Region>,
    root: u64,
    here: u64,
) -> (r: Result<(PageMap, u64), Unsound>)
    requires
        l.above(KERNEL_VA_BASE),
        kernel_map::nameable(KERNEL_VA_BASE, ram@),
        plic matches Some(p) ==> KERNEL_VA_BASE + p.spec_end() <= u64::MAX,
        here >= KERNEL_VA_BASE,
    ensures
        ({
            let plan = kernel_map::plan(KERNEL_VA_BASE, l, ram@, device_windows(plic));
            let (h, refused) = kernel_map::run(empty_high(), plan);
            let wrong = match refused {
                Some(why) => Some(Unsound::Refused(why)),
                None => flaw(h, here, l),
            };
            match r {
                Ok((m, word)) => wrong is None && m.wf() && m@ == h && word == satp(root, 0),
                Err(why) => wrong == Some(why),
            }
        }),
{
    let mut m = PageMap::new(KERNEL_VA_BASE, u64::MAX);
    assert(m@ =~= empty_high());
    match map_everything(&mut m, l, ram, plic) {
        Ok(()) => {},
        Err(why) => {
            return Err(Unsound::Refused(why));
        },
    }
    match verify(&m, here, l) {
        Ok(()) => {},
        Err(why) => {
            return Err(why);
        },
    }
    Ok((m, ttbr0_value(root, 0)))
}

/// **On a sane machine the kernel's map is sound.** Nothing is refused and nothing is found wrong,
/// wherever in the code the switch is made from.
pub proof fn law_the_map_is_sound(l: ImageLayout, ram: Seq<Region>, plic: Option<Region>, here: u64)
    requires
        kernel_map::sane(empty_high(), KERNEL_VA_BASE, l, ram, device_windows(plic)),
        l.text_start <= here < l.text_end,
    ensures
        ({
            let plan = kernel_map::plan(KERNEL_VA_BASE, l, ram, device_windows(plic));
            let (h, refused) = kernel_map::run(empty_high(), plan);
            refused is None && flaw(h, here, l) is None
        }),
{
    let w = device_windows(plic);
    let uart = (UART_BASE + KERNEL_VA_BASE) as u64;
    assert(w[0] == (Region { start: UART_BASE, size: UART_SIZE }));
    assert(kernel_map::in_regions(w, UART_BASE as int));
    kernel_map::law_the_kernel_map(empty_high(), KERNEL_VA_BASE, l, ram, w, here);
    kernel_map::law_the_kernel_map(empty_high(), KERNEL_VA_BASE, l, ram, w, uart);
    kernel_map::law_the_kernel_map(empty_high(), KERNEL_VA_BASE, l, ram, w, l.stack_guard);
    kernel_map::law_no_guard_page_is_mapped(empty_high(), KERNEL_VA_BASE, l, ram, w);
}

/// The widest address-space number the register has room for.
pub const SATP_ASID_WIDTH: u32 = 16;

/// The register with every bit of the address-space number set: what a probe writes, to read back
/// which of them the hardware keeps.
pub fn asid_probe(present: u64) -> (word: u64)
    ensures
        word == present | (0xffffu64 << 44),
        word >> 60 == present >> 60,
        root_of(word) == root_of(present),
{
    let word: u64 = present | (0xffffu64 << 44);
    assert(word >> 60 == present >> 60 && (word & 0xfff_ffff_ffff) << 12 == (present
        & 0xfff_ffff_ffff) << 12) by (bit_vector)
        requires
            word == present | (0xffffu64 << 44),
    ;
    word
}

/// How many of the lowest `n` bits of `x` are set.
pub open spec fn ones(x: u64, n: nat) -> nat
    decreases n,
{
    if n == 0 {
        0
    } else {
        ones(x, (n - 1) as nat) + if (x >> ((n - 1) as u64)) & 1 == 1 {
            1nat
        } else {
            0nat
        }
    }
}

/// How many bits of the address-space number the hardware keeps, `readback` being what the register
/// held after the probe. The bits need not be adjacent, so they are counted.
pub fn implemented_asid_bits(readback: u64) -> (n: usize)
    ensures
        n == ones((readback >> 44) & 0xffff, SATP_ASID_WIDTH as nat),
        n <= SATP_ASID_WIDTH,
{
    let field: u64 = (readback >> 44) & 0xffff;
    let mut n: usize = 0;
    let mut i: u32 = 0;
    while i < SATP_ASID_WIDTH
        invariant
            i <= SATP_ASID_WIDTH,
            n == ones(field, i as nat),
            n <= i,
        decreases SATP_ASID_WIDTH - i,
    {
        if (field >> (i as u64)) & 1 == 1 {
            n += 1;
        }
        i += 1;
    }
    n
}

/// The number that stands for a probe not made yet.
pub const UNPROBED: usize = usize::MAX;

/// How many bits of the address-space number the hardware keeps, once that has been probed.
pub fn asid_bits(probed: usize) -> (n: usize)
    requires
        probed != UNPROBED,
    ensures
        n == probed,
{
    probed
}

/// **Give a process's root table the kernel's half**, so one root register sees both. The process's
/// own half stays as it is.
pub fn share_kernel_half(root: &mut [u64; 512], kernel_root: &[u64; 512])
    ensures
        forall|i: int|
            0 <= i < ENTRIES ==> #[trigger] final(root)@[i] == (if i < 256 {
                old(root)@[i]
            } else {
                kernel_root@[i]
            }),
{
    let mut i: usize = 256;
    while i < ENTRIES
        invariant
            256 <= i <= ENTRIES,
            root@.len() == ENTRIES,
            forall|j: int|
                0 <= j < ENTRIES ==> #[trigger] root@[j] == (if 256 <= j < i {
                    kernel_root@[j]
                } else {
                    old(root)@[j]
                }),
        decreases ENTRIES - i,
    {
        root[i] = kernel_root[i];
        i += 1;
    }
}

/// Map one page into the kernel's half, `supply` being the frames there are for the tables on the
/// way down.
pub fn map_page(
    kernel: &mut PageMap,
    tables: &mut Tables,
    supply: &mut Vec<u64>,
    va: u64,
    pa: u64,
    flags: Flags,
) -> (r: Result<(), MapError>)
    requires
        old(kernel).wf(),
        old(tables).wf(),
    ensures
        final(kernel).wf(),
        final(tables).wf(),
        final(tables).top == old(tables).top,
        tables::page_mapped(
            old(kernel)@,
            old(tables).have@,
            old(supply)@,
            old(tables).top,
            (Extent { va, pa, pages: 1, flags }),
            final(kernel)@,
            final(tables).have@,
            final(supply)@,
            r,
        ),
{
    tables.map_page(kernel, supply, va, pa, flags)
}

/// A page other cores may still remember a translation of, and which cores those are.
#[derive(Debug, Clone, Copy, PartialEq, Eq, Structural)]
pub struct Shootdown {
    /// One bit for each core.
    pub harts: usize,
    pub va: u64,
    pub size: u64,
}

/// Forget the translation of the page at `va`. The caller has forgotten it on this core, `cpu`; the
/// result says where else it has to be forgotten, `online` having a bit for each core that is up.
pub fn flush_tlb(va: u64, online: usize, cpu: usize) -> (r: Option<Shootdown>)
    requires
        cpu < 32,
    ensures
        ({
            let others = online & !(1usize << cpu);
            r == (if others != 0 {
                Some(Shootdown { harts: others, va, size: PAGE_SIZE })
            } else {
                None
            })
        }),
{
    let others: usize = online & !(1usize << cpu);
    if others != 0 {
        Some(Shootdown { harts: others, va, size: PAGE_SIZE })
    } else {
        None
    }
}

/// **Every other core that is up is told, and this one is not.**
pub proof fn law_shootdown_reaches_the_others(online: usize, cpu: usize, hart: usize)
    requires
        cpu < 32,
        hart < 32,
    ensures
        (online & !(1usize << cpu)) & (1usize << hart) != 0 <==> hart != cpu && online & (1usize
            << hart) != 0,
{
    assert((online & !(1usize << cpu)) & (1usize << hart) != 0 <==> hart != cpu && online & (1usize
        << hart) != 0) by (bit_vector)
        requires
            cpu < 32,
            hart < 32,
    ;
}

/// Unmap one page of the kernel's half, and say which frame it was and where its translation has to
/// be forgotten.
pub fn unmap_page(kernel: &mut PageMap, va: u64, online: usize, cpu: usize) -> (r: Result<
    (u64, Option<Shootdown>),
    MapError,
>)
    requires
        old(kernel).wf(),
        cpu < 32,
    ensures
        final(kernel).wf(),
        if va % PAGE_SIZE != 0 {
            r matches Err(e) && e == MapError::Misaligned && *final(kernel) == *old(kernel)
        } else {
            match old(kernel)@.translation(va) {
                None => r matches Err(e) && e == MapError::NotMapped && *final(kernel) == *old(
                    kernel,
                ),
                Some(t) => {
                    &&& r matches Ok(got) && got.0 == t.0 && got.1 == (if online & !(1usize << cpu)
                        != 0 {
                        Some(
                            Shootdown { harts: online & !(1usize << cpu), va, size: PAGE_SIZE },
                        )
                    } else {
                        None
                    })
                    &&& old(kernel)@.loses(final(kernel)@, va)
                },
            }
        },
{
    match kernel.unmap(va) {
        Ok(pa) => Ok((pa, flush_tlb(va, online, cpu))),
        Err(why) => Err(why),
    }
}

/// What a kernel address translates to.
pub fn translate(kernel: &PageMap, va: u64) -> (r: Option<(u64, Flags)>)
    requires
        kernel.wf(),
    ensures
        r == kernel@.translation(va),
{
    kernel.translate(va)
}

/// What an address translates to in a process's half.
pub fn translate_at(space: &PageMap, va: u64) -> (r: Option<(u64, Flags)>)
    requires
        space.user_half(),
    ensures
        r == space@.translation(va),
{
    space.translate(va)
}

/// What an address translates to in the half of the process that is installed.
pub fn translate_user(installed: &PageMap, va: u64) -> (r: Option<(u64, Flags)>)
    requires
        installed.user_half(),
    ensures
        r == installed@.translation(va),
{
    translate_at(installed, va)
}

/// May user mode read the byte at `va`?
pub fn user_can_read(installed: &PageMap, va: u64) -> (r: bool)
    requires
        installed.user_half(),
    ensures
        r == (installed@.translation(va) matches Some((_, f)) && f.user_accessible),
        va >= KERNEL_VA_BASE ==> !r,
{
    proof {
        if va >= KERNEL_VA_BASE {
            law_user_mode_cannot_reach_the_kernel(*installed, va);
        }
    }
    match translate_user(installed, va) {
        Some((_, f)) => f.user_accessible,
        None => false,
    }
}

/// May user mode write the byte at `va`?
pub fn user_can_write(installed: &PageMap, va: u64) -> (r: bool)
    requires
        installed.user_half(),
    ensures
        r == (installed@.translation(va) matches Some((_, f)) && f.user_accessible && f.writable),
        va >= KERNEL_VA_BASE ==> !r,
{
    proof {
        if va >= KERNEL_VA_BASE {
            law_user_mode_cannot_reach_the_kernel(*installed, va);
        }
    }
    match translate_user(installed, va) {
        Some((_, f)) => f.user_accessible && f.writable,
        None => false,
    }
}

/// Does `va` translate to anything, in either half? What user mode may do there is not asked.
pub fn is_mapped_in_current_space(installed: &PageMap, kernel: &PageMap, va: u64) -> (r: bool)
    requires
        installed.user_half(),
        kernel.wf(),
    ensures
        r == (installed@.translation(va) is Some || kernel@.translation(va) is Some),
{
    installed.translate(va).is_some() || kernel.translate(va).is_some()
}

/// Map the page at `va` of a process's half to the frame `phys`, which is owned already, `supply`
/// being the frames there are for the tables on the way down.
pub fn map_current_user_frame(
    installed: &mut PageMap,
    tables: &mut Tables,
    supply: &mut Vec<u64>,
    va: u64,
    phys: u64,
    flags: Flags,
) -> (r: Result<(), MapError>)
    requires
        old(installed).user_half(),
        old(tables).wf(),
    ensures
        final(installed).user_half(),
        final(tables).wf(),
        final(tables).top == old(tables).top,
        tables::page_mapped(
            old(installed)@,
            old(tables).have@,
            old(supply)@,
            old(tables).top,
            (Extent { va, pa: phys, pages: 1, flags }),
            final(installed)@,
            final(tables).have@,
            final(supply)@,
            r,
        ),
{
    tables.map_page(installed, supply, va, phys, flags)
}

/// Map the page at `va` of a process's half to a fresh frame: the last of `supply`, and those before
/// it for the tables on the way down. Says which frame it is. `OutOfFrames`, and nothing changed, if
/// there is none.
pub fn map_current_user_page(
    installed: &mut PageMap,
    tables: &mut Tables,
    supply: &mut Vec<u64>,
    va: u64,
    flags: Flags,
) -> (r: Result<u64, MapError>)
    requires
        old(installed).user_half(),
        old(tables).wf(),
    ensures
        final(installed).user_half(),
        final(tables).wf(),
        final(tables).top == old(tables).top,
        if old(supply)@.len() == 0 {
            &&& r == Err::<u64, MapError>(MapError::OutOfFrames)
            &&& final(installed)@ == old(installed)@
            &&& final(tables).have@ == old(tables).have@
            &&& final(supply)@ == old(supply)@
        } else {
            let leaf = old(supply)@.last();
            &&& r matches Ok(frame) ==> frame == leaf
            &&& tables::page_mapped(
                old(installed)@,
                old(tables).have@,
                old(supply)@.drop_last(),
                old(tables).top,
                (Extent { va, pa: leaf, pages: 1, flags }),
                final(installed)@,
                final(tables).have@,
                final(supply)@,
                match r {
                    Ok(_) => Ok::<(), MapError>(()),
                    Err(why) => Err::<(), MapError>(why),
                },
            )
        },
{
    let leaf: u64 = match supply.pop() {
        Some(leaf) => leaf,
        None => {
            return Err(MapError::OutOfFrames);
        },
    };
    match map_current_user_frame(installed, tables, supply, va, leaf, flags) {
        Ok(()) => Ok(leaf),
        Err(why) => Err(why),
    }
}

/// Unmap the page at `va` of a process's half. `None`, and nothing changed, if there is none.
pub fn unmap_user_at(space: &mut PageMap, va: u64) -> (r: Option<u64>)
    requires
        old(space).user_half(),
    ensures
        final(space).user_half(),
        match old(space)@.translation(va) {
            Some(t) if va % PAGE_SIZE == 0 => r == Some(t.0) && old(space)@.loses(final(space)@, va),
            _ => r is None && *final(space) == *old(space),
        },
{
    match space.unmap(va) {
        Ok(pa) => Some(pa),
        Err(_) => None,
    }
}

/// **User mode cannot reach the kernel's memory.** An address of the kernel's half is open to
/// nobody's process, whatever the process has mapped.
pub proof fn law_user_mode_cannot_reach_the_kernel(installed: PageMap, va: u64)
    requires
        installed.user_half(),
        va >= KERNEL_VA_BASE,
    ensures
        installed@.translation(va) is None,
{
    crate::paging::lemma_above_the_half(installed@, va);
}

/// **The boot table maps two gigabytes, twice.** An entry of the lower half, and the same one of the
/// upper half, leads to the gigabyte of its own number; only the console's and the kernel's lead
/// anywhere; and what they lead to can be read, written and run, by the kernel alone.
pub proof fn law_the_boot_table_maps_two_gigabytes(i: int)
    requires
        0 <= i < 512,
    ensures
        boot_entry(i) != 0 <==> i % 256 == 0 || i % 256 == 2,
        boot_entry(i) != 0 ==> {
            &&& (boot_entry(i) >> 10) << 12 == (i % 256) * 0x4000_0000
            &&& boot_entry(i) & 0x3ff == 0xcf
        },
{
    assert(((0u64 >> 12) << 10) | 0xcf == 0xcf && ((0x8000_0000u64 >> 12) << 10) | 0xcf
        == 0x2000_00cf && ((0xcfu64 >> 10) << 12) == 0 && ((0x2000_00cfu64 >> 10) << 12)
        == 0x8000_0000 && 0xcfu64 & 0x3ff == 0xcf && 0x2000_00cfu64 & 0x3ff == 0xcf) by (bit_vector);
}

/// **What a sound map is.** Nothing is found wrong exactly if the running code is at its distance and
/// can be run but not written, the console is mapped, and no guard page is.
pub proof fn law_what_a_sound_map_is(h: HalfView, here: u64, l: ImageLayout)
    ensures
        flaw(h, here, l) is None <==> {
            &&& h.translation(here) is Some
            &&& (h.translation(here)->0).0 + KERNEL_VA_BASE == here
            &&& (h.translation(here)->0).1.kernel_executable
            &&& !(h.translation(here)->0).1.writable
            &&& h.translation((UART_BASE + KERNEL_VA_BASE) as u64) is Some
            &&& h.translation(l.stack_guard) is None
            &&& !kernel_map::guard_mapped(h, l)
        },
        flaw(h, here, l) == Some(Unsound::CodeUnmapped) <==> h.translation(here) is None,
        flaw(h, here, l) == Some(Unsound::CodeElsewhere) ==> (h.translation(here)->0).0
            + KERNEL_VA_BASE != here,
        flaw(h, here, l) == Some(Unsound::CodeNotExecutable) ==> !(h.translation(
            here,
        )->0).1.kernel_executable,
        flaw(h, here, l) == Some(Unsound::CodeWritable) ==> (h.translation(here)->0).1.writable,
        flaw(h, here, l) == Some(Unsound::UartUnmapped) ==> h.translation(
            (UART_BASE + KERNEL_VA_BASE) as u64,
        ) is None,
        flaw(h, here, l) == Some(Unsound::GuardMapped) ==> h.translation(l.stack_guard) is Some,
        flaw(h, here, l) == Some(Unsound::SecondaryGuardMapped) ==> kernel_map::guard_mapped(h, l),
{
}

/// **Which physical bytes are a device's**: the console's, the finisher's, those of the devices in
/// memory, of the bus's configuration and of its registers, and the interrupt controller's if there is
/// one.
pub proof fn law_which_bytes_are_a_devices(plic: Option<Region>, b: int)
    ensures
        kernel_map::in_regions(device_windows(plic), b) <==> {
            ||| UART_BASE <= b < UART_BASE + UART_SIZE
            ||| FINISHER_BASE <= b < FINISHER_BASE + PAGE_SIZE
            ||| VIRTIO_MMIO_BASE <= b < VIRTIO_MMIO_BASE + VIRTIO_MMIO_SIZE
            ||| PCI_ECAM_BASE <= b < PCI_ECAM_BASE + PCI_ECAM_MAPPED
            ||| PCI_BAR_BASE <= b < PCI_BAR_BASE + PCI_BAR_MAPPED
            ||| plic is Some && (plic->0).start <= b < (plic->0).start + (plic->0).size
        },
{
    let w = device_windows(plic);
    let n: int = if plic is Some {
        2
    } else {
        1
    };
    assert(w[0] == (Region { start: UART_BASE, size: UART_SIZE }));
    if plic is Some {
        assert(w[1] == plic->0);
    }
    assert(w[n] == (Region { start: FINISHER_BASE, size: PAGE_SIZE }));
    assert(w[n + 1] == (Region { start: VIRTIO_MMIO_BASE, size: VIRTIO_MMIO_SIZE }));
    assert(w[n + 2] == (Region { start: PCI_ECAM_BASE, size: PCI_ECAM_MAPPED }));
    assert(w[n + 3] == (Region { start: PCI_BAR_BASE, size: PCI_BAR_MAPPED }));
    assert(w.len() == n + 4);
}

/// **Counting the bits that are set.** The count is the size of the set of their places.
pub proof fn law_ones_are_counted(x: u64, n: nat)
    ensures
        Set::new(|i: int| 0 <= i < n && (x >> (i as u64)) & 1 == 1).finite(),
        ones(x, n) == Set::new(|i: int| 0 <= i < n && (x >> (i as u64)) & 1 == 1).len(),
    decreases n,
{
    let s = Set::new(|i: int| 0 <= i < n && (x >> (i as u64)) & 1 == 1);
    if n == 0 {
        assert(s =~= Set::empty());
    } else {
        let m = (n - 1) as nat;
        let t = Set::new(|i: int| 0 <= i < m && (x >> (i as u64)) & 1 == 1);
        law_ones_are_counted(x, m);
        if (x >> (m as u64)) & 1 == 1 {
            assert(s =~= t.insert(m as int));
        } else {
            assert(s =~= t);
        }
    }
}

} // verus!
