//! Finding the disk on the bus and bringing it up.
//!
//! What is read from and written to configuration space is the caller's; here it is decided which
//! function is the disk, where its base address registers go, which of its capabilities count, and
//! in what order things are switched on: memory decoding once every register has an address, and
//! mastering the bus last.
use vstd::prelude::*;

use crate::arch::riscv64::mmu::{PCI_BAR_BASE, PCI_BAR_MAPPED, PCI_IRQ_BASE};

verus! {

/// A function on the bus.
#[derive(Debug, Clone, Copy, PartialEq, Eq, Structural)]
pub struct Bdf {
    pub bus: u8,
    pub dev: u8,
    pub func: u8,
}

/// A function that answered, and what it says it is.
#[derive(Debug, Clone, Copy, PartialEq, Eq, Structural)]
pub struct Function {
    pub bdf: Bdf,
    pub vendor: u16,
    pub device: u16,
}

pub const VIRTIO_VENDOR: u16 = 0x1af4;

/// The disk this kernel drives,
pub const VIRTIO_BLK_MODERN: u16 = 0x1042;

/// and the older kind, which it does not.
pub const VIRTIO_BLK_TRANSITIONAL: u16 = 0x1001;

/// Registers of configuration space.
pub const COMMAND: u64 = 0x04;

pub const BAR0: u64 = 0x10;

/// The bits that make a function answer at its addresses, and let it reach memory.
pub const CMD_MEMORY_SPACE: u16 = 2;

pub const CMD_BUS_MASTER: u16 = 4;

/// A base address register: where it is, how much it decodes, and whether it is two words.
#[derive(Debug, Clone, Copy, PartialEq, Eq, Structural)]
pub struct Bar {
    pub base: u64,
    pub size: u64,
    pub is_64: bool,
}

/// The kinds of capability that count.
pub const CAP_COMMON: u8 = 1;

pub const CAP_NOTIFY: u8 = 2;

pub const CAP_ISR: u8 = 3;

/// A capability: part of one of the function's base address registers.
#[derive(Debug, Clone, Copy, PartialEq, Eq, Structural)]
pub struct VirtioCap {
    pub cfg_type: u8,
    pub bar: u8,
    pub offset: u32,
    pub length: u32,
    pub notify_off_multiplier: u32,
}

/// A word of configuration space, and what goes into it.
#[derive(Debug, Clone, Copy, PartialEq, Eq, Structural)]
pub struct CfgWrite {
    pub off: u64,
    pub value: u32,
}

/// A disk that was brought up.
#[derive(Debug, Clone, Copy, PartialEq, Eq, Structural)]
pub struct PciBlockDevice {
    pub bdf: Bdf,
    pub common: u64,
    pub notify_base: u64,
    pub notify_mult: u32,
    pub isr: u64,
    pub intid: u32,
}

/// The first disk of the kind this kernel drives, among the first `n` functions.
pub open spec fn first_disk(functions: Seq<Function>, n: int) -> Option<Bdf>
    decreases n,
{
    if n <= 0 {
        None
    } else if first_disk(functions, n - 1) is Some {
        first_disk(functions, n - 1)
    } else if functions[n - 1].vendor == VIRTIO_VENDOR && functions[n - 1].device
        == VIRTIO_BLK_MODERN {
        Some(functions[n - 1].bdf)
    } else {
        None
    }
}

/// Which function is the disk?
pub fn pick(functions: &Vec<Function>) -> (r: Option<Bdf>)
    ensures
        r == first_disk(functions@, functions@.len() as int),
{
    let mut found: Option<Bdf> = None;
    let mut i: usize = 0;
    while i < functions.len()
        invariant
            i <= functions@.len(),
            found == first_disk(functions@, i as int),
        decreases functions@.len() - i,
    {
        if found.is_none() && functions[i].vendor == VIRTIO_VENDOR && functions[i].device
            == VIRTIO_BLK_MODERN {
            found = Some(functions[i].bdf);
        }
        i += 1;
    }
    found
}

/// The first multiple of `unit` that is not below `x`.
pub open spec fn round_up(x: int, unit: int) -> int {
    if x % unit == 0 {
        x
    } else {
        x - x % unit + unit
    }
}

/// What a register is aligned to: its size, and no less than sixteen.
pub open spec fn unit_of(bar: Bar) -> int {
    if bar.size >= 0x10 {
        bar.size as int
    } else {
        0x10
    }
}

/// One past the window in which registers are placed.
pub open spec fn window_end() -> int {
    PCI_BAR_BASE + PCI_BAR_MAPPED
}

/// The registers so far, where the next one goes, what has been written, and whether there was room
/// for all of them.
#[verifier::ext_equal]
pub struct Placing {
    pub bars: Seq<Option<Bar>>,
    pub next: int,
    pub writes: Seq<CfgWrite>,
    pub room: bool,
}

/// What is written to place register `i` at `base`.
pub open spec fn bar_writes(i: int, bar: Bar, base: int) -> Seq<CfgWrite> {
    let off = (BAR0 + 4 * i) as u64;
    if bar.is_64 {
        seq![
            CfgWrite { off, value: (base as u32) | 0b100 },
            CfgWrite { off: (off + 4) as u64, value: ((base as u64) >> 32) as u32 },
        ]
    } else {
        seq![CfgWrite { off, value: (base as u32) | 0 }]
    }
}

/// The first `n` registers, each placed unless it has a place: at the first address that it can
/// have, one after another, until one does not fit.
pub open spec fn placed(bars: Seq<Option<Bar>>, n: int) -> Placing
    decreases n,
{
    if n <= 0 {
        Placing { bars, next: PCI_BAR_BASE as int, writes: Seq::empty(), room: true }
    } else {
        let p = placed(bars, n - 1);
        match bars[n - 1] {
            Some(bar) if p.room && bar.base == 0 => {
                let base = round_up(p.next, unit_of(bar));
                if base + bar.size > window_end() {
                    Placing { room: false, ..p }
                } else {
                    Placing {
                        bars: p.bars.update(n - 1, Some(Bar { base: base as u64, ..bar })),
                        next: base + bar.size,
                        writes: p.writes + bar_writes(n - 1, bar, base),
                        room: true,
                    }
                }
            },
            _ => p,
        }
    }
}

/// How many base address registers a function has.
pub const BARS: usize = 6;

/// Does every register end where addresses do, at the latest?
pub open spec fn bars_fit(bars: Seq<Option<Bar>>) -> bool {
    forall|i: int|
        0 <= i < bars.len() ==> ((#[trigger] bars[i]) matches Some(bar) ==> bar.base + bar.size
            <= u64::MAX)
}

/// As long as there is room, the next register goes into the window.
proof fn lemma_placed(bars: Seq<Option<Bar>>, n: int)
    requires
        0 <= n <= bars.len(),
        bars_fit(bars),
    ensures
        PCI_BAR_BASE <= placed(bars, n).next <= window_end(),
        placed(bars, n).bars.len() == bars.len(),
        bars_fit(placed(bars, n).bars),
        forall|i: int| n <= i < bars.len() ==> placed(bars, n).bars[i] == bars[i],
    decreases n,
{
    if n > 0 {
        lemma_placed(bars, n - 1);
        let p = placed(bars, n - 1);
        let q = placed(bars, n);
        if let Some(bar) = bars[n - 1] {
            if p.room && bar.base == 0 {
                lemma_round_up(p.next, unit_of(bar));
            }
        }
        assert forall|i: int| 0 <= i < q.bars.len() implies ((#[trigger] q.bars[i]) matches Some(
            bar,
        ) ==> bar.base + bar.size <= u64::MAX) by {
            assert(p.bars[i] matches Some(bar) ==> bar.base + bar.size <= u64::MAX);
        }
    }
}

proof fn lemma_round_up(x: int, unit: int)
    requires
        0 <= x,
        0 < unit,
    ensures
        x <= round_up(x, unit) < x + unit,
        round_up(x, unit) % unit == 0,
{
    if x % unit != 0 {
        assert((x - x % unit + unit) % unit == 0) by (nonlinear_arith)
            requires
                0 < unit,
        ;
    }
}

/// **Place every register that has no place yet.** What is to be written, and whether there was
/// room for all.
pub fn place_bars(bars: &mut Vec<Option<Bar>>) -> (r: (Vec<CfgWrite>, bool))
    requires
        old(bars)@.len() == BARS,
        bars_fit(old(bars)@),
    ensures
        ({
            let p = placed(old(bars)@, BARS as int);
            &&& final(bars)@ == p.bars
            &&& r.0@ == p.writes
            &&& r.1 == p.room
        }),
        bars_fit(final(bars)@),
        final(bars)@.len() == BARS,
{
    let ghost all = bars@;
    let end: u64 = PCI_BAR_BASE + PCI_BAR_MAPPED;
    let mut writes: Vec<CfgWrite> = Vec::new();
    let mut next: u64 = PCI_BAR_BASE;
    let mut room = true;
    let mut i: usize = 0;
    while i < BARS
        invariant
            i <= BARS,
            end == window_end(),
            all.len() == BARS,
            bars_fit(all),
            bars@ == placed(all, i as int).bars,
            next == placed(all, i as int).next,
            writes@ == placed(all, i as int).writes,
            room == placed(all, i as int).room,
        decreases BARS - i,
    {
        proof {
            lemma_placed(all, i as int);
        }
        if room {
            if let Some(bar) = bars[i] {
                if bar.base == 0 {
                    let unit: u64 = if bar.size >= 0x10 {
                        bar.size
                    } else {
                        0x10
                    };
                    let rest: u64 = next % unit;
                    proof {
                        lemma_round_up(next as int, unit as int);
                        assert(rest <= next) by (nonlinear_arith)
                            requires
                                unit > 0,
                                rest == next % unit,
                        ;
                        if unit > next {
                            assert(rest == next) by (nonlinear_arith)
                                requires
                                    unit > next,
                                    rest == next % unit,
                            ;
                        }
                    }
                    let base: u64 = if rest == 0 {
                        next
                    } else {
                        next - rest + unit
                    };
                    assert(base == round_up(next as int, unit as int));
                    if base > end || bar.size > end - base {
                        room = false;
                    } else {
                        let off: u64 = BAR0 + i as u64 * 4;
                        let ghost before = writes@;
                        let low: u32 = if bar.is_64 {
                            0b100
                        } else {
                            0
                        };
                        writes.push(CfgWrite { off, value: base as u32 | low });
                        if bar.is_64 {
                            writes.push(CfgWrite { off: off + 4, value: (base >> 32) as u32 });
                        }
                        assert(writes@ =~= before + bar_writes(i as int, bar, base as int));
                        bars.set(i, Some(Bar { base, size: bar.size, is_64: bar.is_64 }));
                        next = base + bar.size;
                    }
                }
            }
        }
        i += 1;
    }
    proof {
        lemma_placed(all, BARS as int);
    }
    (writes, room)
}

/// Where a capability points to, if it points into one of the registers.
pub open spec fn resolved(bars: Seq<Option<Bar>>, cap: VirtioCap) -> Option<u64> {
    if cap.bar < bars.len() {
        match bars[cap.bar as int] {
            Some(bar) => if cap.offset + cap.length <= bar.size {
                Some((bar.base + cap.offset) as u64)
            } else {
                None
            },
            None => None,
        }
    } else {
        None
    }
}

/// Where a capability points to, if it points into one of the registers.
pub fn resolve(bars: &Vec<Option<Bar>>, cap: VirtioCap) -> (r: Option<u64>)
    requires
        bars_fit(bars@),
    ensures
        r == resolved(bars@, cap),
{
    if cap.bar as usize >= bars.len() {
        return None;
    }
    assert(bars@[cap.bar as int] matches Some(bar) ==> bar.base + bar.size <= u64::MAX);
    match bars[cap.bar as usize] {
        Some(bar) => {
            if cap.offset as u64 + cap.length as u64 <= bar.size {
                Some(bar.base + cap.offset as u64)
            } else {
                None
            }
        },
        None => None,
    }
}

/// The parts of the device that were found.
#[derive(Debug, Clone, Copy, PartialEq, Eq, Structural)]
pub struct Blocks {
    pub common: Option<u64>,
    pub notify_base: Option<u64>,
    pub notify_mult: u32,
    pub isr: Option<u64>,
}

/// What the first `n` capabilities point to: of each kind, the first that points anywhere.
pub open spec fn blocks(bars: Seq<Option<Bar>>, caps: Seq<VirtioCap>, n: int) -> Blocks
    decreases n,
{
    if n <= 0 {
        Blocks { common: None, notify_base: None, notify_mult: 0, isr: None }
    } else {
        let b = blocks(bars, caps, n - 1);
        let cap = caps[n - 1];
        if cap.cfg_type == CAP_COMMON && b.common is None {
            Blocks { common: resolved(bars, cap), ..b }
        } else if cap.cfg_type == CAP_NOTIFY && b.notify_base is None {
            Blocks {
                notify_base: resolved(bars, cap),
                notify_mult: cap.notify_off_multiplier,
                ..b
            }
        } else if cap.cfg_type == CAP_ISR && b.isr is None {
            Blocks { isr: resolved(bars, cap), ..b }
        } else {
            b
        }
    }
}

/// What the capabilities point to.
pub fn find_blocks(bars: &Vec<Option<Bar>>, caps: &Vec<VirtioCap>) -> (b: Blocks)
    requires
        bars_fit(bars@),
    ensures
        b == blocks(bars@, caps@, caps@.len() as int),
{
    let mut b = Blocks { common: None, notify_base: None, notify_mult: 0, isr: None };
    let mut i: usize = 0;
    while i < caps.len()
        invariant
            i <= caps@.len(),
            bars_fit(bars@),
            b == blocks(bars@, caps@, i as int),
        decreases caps@.len() - i,
    {
        let cap: VirtioCap = caps[i];
        if cap.cfg_type == CAP_COMMON && b.common.is_none() {
            b.common = resolve(bars, cap);
        } else if cap.cfg_type == CAP_NOTIFY && b.notify_base.is_none() {
            b.notify_base = resolve(bars, cap);
            b.notify_mult = cap.notify_off_multiplier;
        } else if cap.cfg_type == CAP_ISR && b.isr.is_none() {
            b.isr = resolve(bars, cap);
        }
        i += 1;
    }
    b
}

/// The interrupt that pin `pin` of device `dev` raises: the lines are handed out in turn.
pub open spec fn intx(dev: u8, pin: u8) -> int {
    PCI_IRQ_BASE + (dev + pin - 1) % 4
}

/// The interrupt that pin `pin` of device `dev` raises.
pub fn intx_irq(dev: u8, pin: u8) -> (intid: u32)
    requires
        pin > 0,
    ensures
        intid == intx(dev, pin),
{
    PCI_IRQ_BASE + (dev as u32 + pin as u32 - 1) % 4
}

/// What was written, and the disk, if there is one.
pub struct Bringup {
    pub writes: Vec<CfgWrite>,
    pub device: Option<PciBlockDevice>,
}

/// What switches the function on: the lower half of `command` with two bits more, and nothing in
/// the upper half, whose bits are cleared by being written.
pub open spec fn command_write(command: u32) -> CfgWrite {
    CfgWrite {
        off: COMMAND,
        value: (((command as u16) | CMD_MEMORY_SPACE) | CMD_BUS_MASTER) as u32,
    }
}

/// The interrupt pin, out of the word that holds it.
pub open spec fn pin_of(word: u32) -> u8 {
    ((word >> 8) & 0xff) as u8
}

/// **Find the disk and bring it up.** `functions` are those that answered, `bars` and `caps` what
/// the disk's registers and capabilities say, `command` its command word and `interrupt` the word
/// that holds its pin.
///
/// The registers get their places, the capabilities are resolved against them, and only then is the
/// function switched on. Without a disk, without room for a register, or without one of the three
/// parts, it is never switched on.
pub fn find_block_device(
    functions: &Vec<Function>,
    bars: &mut Vec<Option<Bar>>,
    caps: &Vec<VirtioCap>,
    command: u32,
    interrupt: u32,
) -> (r: Bringup)
    requires
        old(bars)@.len() == BARS,
        bars_fit(old(bars)@),
    ensures
        ({
            let disk = first_disk(functions@, functions@.len() as int);
            let p = placed(old(bars)@, BARS as int);
            let b = blocks(p.bars, caps@, caps@.len() as int);
            let pin = pin_of(interrupt);
            if disk is None {
                r.device is None && r.writes@.len() == 0 && final(bars)@ == old(bars)@
            } else {
                &&& final(bars)@ == p.bars
                &&& if !p.room || b.common is None || b.notify_base is None || b.isr is None {
                    r.device is None && r.writes@ == p.writes
                } else {
                    &&& r.writes@ == p.writes.push(command_write(command))
                    &&& r.device == (if pin == 0 {
                        None
                    } else {
                        Some(
                            PciBlockDevice {
                                bdf: disk->0,
                                common: b.common->0,
                                notify_base: b.notify_base->0,
                                notify_mult: b.notify_mult,
                                isr: b.isr->0,
                                intid: intx((disk->0).dev, pin) as u32,
                            },
                        )
                    })
                }
            }
        }),
        r.device matches Some(d) ==> {
            &&& r.writes@.len() > 0 && r.writes@.last().off == 4
            &&& forall|i: int|
                0 <= i < r.writes@.len() - 1 ==> (#[trigger] r.writes@[i]).off >= 0x10
            &&& exists|k: int|
                0 <= k < functions@.len() && (#[trigger] functions@[k]).bdf == d.bdf
                    && functions@[k].vendor == 0x1af4 && functions@[k].device == 0x1042
            &&& 0x20 <= d.intid < 0x24
        },
        (forall|k: int|
            0 <= k < functions@.len() ==> !((#[trigger] functions@[k]).vendor == 0x1af4
                && functions@[k].device == 0x1042)) ==> r.device is None && r.writes@.len() == 0,
{
    proof {
        lemma_writes_are_registers(bars@, BARS as int);
        lemma_first_disk(functions@, functions@.len() as int);
    }
    let bdf: Bdf = match pick(functions) {
        Some(bdf) => bdf,
        None => {
            return Bringup { writes: Vec::new(), device: None };
        },
    };
    let (writes, room) = place_bars(bars);
    let mut writes = writes;
    if !room {
        return Bringup { writes, device: None };
    }
    let b = find_blocks(bars, caps);
    match (b.common, b.notify_base, b.isr) {
        (Some(common), Some(notify_base), Some(isr)) => {
            let value: u16 = ((command & 0xffff) as u16 | CMD_MEMORY_SPACE) | CMD_BUS_MASTER;
            assert((command & 0xffff) as u16 == command as u16) by (bit_vector);
            writes.push(CfgWrite { off: COMMAND, value: value as u32 });
            let pin: u8 = ((interrupt >> 8) & 0xff) as u8;
            if pin == 0 {
                return Bringup { writes, device: None };
            }
            let intid: u32 = intx_irq(bdf.dev, pin);
            Bringup {
                writes,
                device: Some(
                    PciBlockDevice {
                        bdf,
                        common,
                        notify_base,
                        notify_mult: b.notify_mult,
                        isr,
                        intid,
                    },
                ),
            }
        },
        _ => Bringup { writes, device: None },
    }
}

/// **Registers that were placed do not overlap**, are aligned to their size, and lie in the window;
/// one that had a place keeps it.
pub proof fn law_placed_bars_are_apart(bars: Seq<Option<Bar>>, n: int, i: int, j: int)
    requires
        bars_fit(bars),
        0 <= i < j < n <= bars.len(),
        placed(bars, n).room,
        bars[i] matches Some(x) && x.base == 0,
        bars[j] matches Some(y) && y.base == 0,
    ensures
        placed(bars, n).bars[i] matches Some(x) && placed(bars, n).bars[j] matches Some(y)
            && PCI_BAR_BASE <= x.base && x.base + x.size <= y.base && y.base + y.size
            <= window_end() && x.base % unit_of(x) as u64 == 0 && y.base % unit_of(y) as u64 == 0
            && x.size == (bars[i]->0).size && y.size == (bars[j]->0).size,
    decreases n,
{
    lemma_spot(bars, n, i);
    lemma_spot(bars, n, j);
}

/// **A register that had a place keeps it.**
pub proof fn law_placed_bars_stay(bars: Seq<Option<Bar>>, n: int, i: int)
    requires
        0 <= n <= bars.len(),
        0 <= i < bars.len(),
        bars[i] matches Some(x) ==> x.base != 0,
    ensures
        placed(bars, n).bars.len() == bars.len(),
        placed(bars, n).bars[i] == bars[i],
    decreases n,
{
    if n > 0 {
        law_placed_bars_stay(bars, n - 1, i);
    }
}

/// Where register `i` went, and that everything after it went further up.
proof fn lemma_spot(bars: Seq<Option<Bar>>, n: int, i: int)
    requires
        bars_fit(bars),
        0 <= i < n <= bars.len(),
        placed(bars, n).room,
        bars[i] matches Some(x) && x.base == 0,
    ensures
        placed(bars, i + 1).room,
        placed(bars, i).next <= placed(bars, i + 1).next <= placed(bars, n).next <= window_end(),
        placed(bars, n).bars[i] matches Some(x) && x.base + x.size == placed(bars, i + 1).next
            && x.base >= placed(bars, i).next && x.base % unit_of(x) as u64 == 0 && x.size
            == (bars[i]->0).size,
        forall|k: int|
            0 <= k <= n ==> #[trigger] placed(bars, k).next >= PCI_BAR_BASE && placed(bars, k).room,
        forall|k: int, l: int|
            #![trigger placed(bars, k).next, placed(bars, l).next]
            0 <= k <= l <= n ==> placed(bars, k).next <= placed(bars, l).next,
    decreases n,
{
    lemma_rising(bars, n);
    lemma_placed(bars, n);
    let p = placed(bars, i);
    let bar = bars[i]->0;
    lemma_placed(bars, i);
    lemma_round_up(p.next, unit_of(bar));
    assert(placed(bars, i + 1).next >= PCI_BAR_BASE && placed(bars, i).next >= PCI_BAR_BASE);
    lemma_later(bars, i + 1, n, i);
}

/// With room at the end there was room all along, and the next place only rises.
proof fn lemma_rising(bars: Seq<Option<Bar>>, n: int)
    requires
        bars_fit(bars),
        0 <= n <= bars.len(),
        placed(bars, n).room,
    ensures
        forall|k: int|
            0 <= k <= n ==> #[trigger] placed(bars, k).next >= PCI_BAR_BASE && placed(bars, k).room,
        forall|k: int, l: int|
            #![trigger placed(bars, k).next, placed(bars, l).next]
            0 <= k <= l <= n ==> placed(bars, k).next <= placed(bars, l).next,
    decreases n,
{
    if n > 0 {
        lemma_rising(bars, n - 1);
        lemma_placed(bars, n - 1);
        let p = placed(bars, n - 1);
        if let Some(bar) = bars[n - 1] {
            lemma_round_up(p.next, unit_of(bar));
        }
        assert(p.next <= placed(bars, n).next);
        assert forall|k: int, l: int|
            #![trigger placed(bars, k).next, placed(bars, l).next]
            0 <= k <= l <= n implies placed(bars, k).next <= placed(bars, l).next by {
            if l == n && k < n {
                assert(placed(bars, k).next <= placed(bars, n - 1).next);
            }
        }
    }
}

/// What stands at `i` once it has been dealt with stays there.
proof fn lemma_later(bars: Seq<Option<Bar>>, m: int, n: int, i: int)
    requires
        bars_fit(bars),
        0 <= i < m <= n <= bars.len(),
    ensures
        placed(bars, n).bars[i] == placed(bars, m).bars[i],
    decreases n - m,
{
    if m < n {
        lemma_later(bars, m, n - 1, i);
        lemma_placed(bars, n - 1);
    }
}

/// **Every part of the device lies inside one of its registers.**
pub proof fn law_blocks_lie_inside(bars: Seq<Option<Bar>>, cap: VirtioCap)
    requires
        bars_fit(bars),
        resolved(bars, cap) is Some,
    ensures
        cap.bar < bars.len(),
        bars[cap.bar as int] matches Some(bar) && bar.base <= resolved(bars, cap)->0
            && resolved(bars, cap)->0 + cap.length <= bar.base + bar.size,
{
}

/// **The disk is the first function that says so**: the vendor and the device are the disk's, no
/// function before it has both, and where none has both there is no disk.
pub proof fn law_the_disk_is_the_first_one(functions: Seq<Function>, n: int, other: int)
    requires
        0 <= other < n <= functions.len(),
    ensures
        first_disk(functions, n) is None ==> !(functions[other].vendor == 0x1af4
            && functions[other].device == 0x1042),
        first_disk(functions, n) matches Some(bdf) ==> exists|k: int|
            {
                &&& 0 <= k < n
                &&& (#[trigger] functions[k]).bdf == bdf
                &&& functions[k].vendor == 0x1af4
                &&& functions[k].device == 0x1042
                &&& other < k ==> !(functions[other].vendor == 0x1af4 && functions[other].device
                    == 0x1042)
            },
    decreases n,
{
    let last = functions[n - 1];
    assert(first_disk(functions, n - 1) is None && first_disk(functions, n) is Some ==> last.vendor
        == 0x1af4 && last.device == 0x1042 && first_disk(functions, n) == Some(last.bdf));
    if n > 1 && other < n - 1 {
        law_the_disk_is_the_first_one(functions, n - 1, other);
    } else if n > 1 {
        law_the_disk_is_the_first_one(functions, n - 1, n - 2);
    }
}

/// **A register goes to the lowest address that it can have**: from where the one before it ended,
/// no lower multiple of what it is aligned to would have done. Only one that would end past the
/// window has no room, and from then on nothing changes.
pub proof fn law_a_register_goes_as_low_as_it_can(bars: Seq<Option<Bar>>, i: int, lower: int)
    requires
        bars_fit(bars),
        0 <= i < bars.len(),
        bars[i] matches Some(x) && x.base == 0,
        placed(bars, i).next <= lower,
        lower % (if (bars[i]->0).size > 16 {
            (bars[i]->0).size as int
        } else {
            16
        }) == 0,
    ensures
        ({
            let before = placed(bars, i);
            let after = placed(bars, i + 1);
            let size = (bars[i]->0).size;
            &&& !before.room ==> after == before
            &&& before.room && after.room ==> {
                &&& after.bars[i] matches Some(y) && before.next <= y.base && y.base <= lower
                    && y.size == size && y.is_64 == (bars[i]->0).is_64 && after.next == y.base
                    + size
            }
            &&& before.room && lower + size <= PCI_BAR_BASE + PCI_BAR_MAPPED ==> after.room
            &&& before.room && !after.room ==> {
                &&& after.bars == before.bars
                &&& after.writes == before.writes
                &&& after.next == before.next
            }
        }),
{
    lemma_placed(bars, i);
    let p = placed(bars, i);
    let unit = unit_of(bars[i]->0);
    let base = round_up(p.next, unit);
    lemma_round_up(p.next, unit);
    if base > lower {
        vstd::arithmetic::div_mod::lemma_fundamental_div_mod(base, unit);
        vstd::arithmetic::div_mod::lemma_fundamental_div_mod(lower, unit);
        assert(false) by (nonlinear_arith)
            requires
                base == unit * (base / unit),
                lower == unit * (lower / unit),
                lower < base < lower + unit,
                unit > 0,
        ;
    }
}

/// **A register is told its address**: the lower half in its own word, with the bit that says it is
/// two words wide if it is, and the upper half in the next one.
pub proof fn law_a_register_is_told_its_address(i: int, bar: Bar, base: u64)
    requires
        0 <= i < BARS,
        base % 16 == 0,
    ensures
        ({
            let w = bar_writes(i, bar, base as int);
            &&& w.len() == (if bar.is_64 {
                2int
            } else {
                1
            })
            &&& w[0].off == 0x10 + 4 * i
            &&& bar.is_64 ==> {
                &&& w[1].off == w[0].off + 4
                &&& w[0].value + 0x1_0000_0000 * w[1].value == base + 4
            }
            &&& !bar.is_64 ==> w[0].value == base % 0x1_0000_0000
        }),
{
    assert(base % 16 == 0 ==> (base as u32) | 0b100 == (base as u32) + 4 && base as u32 <= 0xffff_fff0 && (base >> 32) as u32 == (base >> 32) && base >> 32 == base
        / 0x1_0000_0000 && (base as u32) == base % 0x1_0000_0000 && (base as u32) | 0 == base as u32)
        by (bit_vector);
}

/// **A part of the device is found exactly if it fits its register**, and then it begins as far into
/// the register as it says.
pub proof fn law_a_part_is_where_it_says(bars: Seq<Option<Bar>>, cap: VirtioCap)
    requires
        bars_fit(bars),
    ensures
        resolved(bars, cap) is Some <==> cap.bar < bars.len() && bars[cap.bar as int] is Some
            && cap.offset + cap.length <= (bars[cap.bar as int]->0).size,
        resolved(bars, cap) matches Some(at) ==> at == (bars[cap.bar as int]->0).base + cap.offset,
{
}

/// **Of each kind of part, the first that is found counts.** Of three kinds that have a number of
/// their own there is a part exactly if a capability of that kind is found; what is kept is the first
/// one's; and the multiplier is that of the same capability as the notification area.
pub proof fn law_the_first_part_of_a_kind_counts(
    bars: Seq<Option<Bar>>,
    caps: Seq<VirtioCap>,
    n: int,
    other: int,
)
    requires
        0 <= other < n <= caps.len(),
    ensures
        ({
            let b = blocks(bars, caps, n);
            let here = resolved(bars, caps[other]);
            &&& caps[other].cfg_type == 1 && here is Some ==> b.common is Some
            &&& caps[other].cfg_type == 2 && here is Some ==> b.notify_base is Some
            &&& caps[other].cfg_type == 3 && here is Some ==> b.isr is Some
            &&& b.common is Some ==> exists|k: int|
                {
                    &&& 0 <= k < n
                    &&& (#[trigger] caps[k]).cfg_type == 1
                    &&& resolved(bars, caps[k]) == b.common
                    &&& other < k && caps[other].cfg_type == 1 ==> here is None
                }
            &&& b.notify_base is Some ==> exists|k: int|
                {
                    &&& 0 <= k < n
                    &&& (#[trigger] caps[k]).cfg_type == 2
                    &&& resolved(bars, caps[k]) == b.notify_base
                    &&& caps[k].notify_off_multiplier == b.notify_mult
                    &&& other < k && caps[other].cfg_type == 2 ==> here is None
                }
            &&& b.isr is Some ==> exists|k: int|
                {
                    &&& 0 <= k < n
                    &&& (#[trigger] caps[k]).cfg_type == 3
                    &&& resolved(bars, caps[k]) == b.isr
                    &&& other < k && caps[other].cfg_type == 3 ==> here is None
                }
        }),
    decreases n,
{
    let last = caps[n - 1];
    let b = blocks(bars, caps, n - 1);
    assert(n == 1 ==> b == blocks(bars, caps, 0));
    assert(last.cfg_type == 1 ==> b.common is Some || blocks(bars, caps, n).common == resolved(
        bars,
        last,
    ));
    if n > 1 && other < n - 1 {
        law_the_first_part_of_a_kind_counts(bars, caps, n - 1, other);
    } else if n > 1 {
        law_the_first_part_of_a_kind_counts(bars, caps, n - 1, n - 2);
    }
}

/// **The four lines go round.** The first pin of the first device has the first line; the next pin,
/// and the same pin of the next device, have the next one; and after the fourth comes the first.
pub proof fn law_the_lines_go_round(dev: u8, pin: u8)
    requires
        pin > 0,
    ensures
        0x20 <= intx(dev, pin) < 0x24,
        dev == 0 && pin == 1 ==> intx(dev, pin) == 0x20,
        pin < u8::MAX ==> intx(dev, (pin + 1) as u8) == (if intx(dev, pin) == 0x23 {
            0x20int
        } else {
            intx(dev, pin) + 1
        }),
        dev < u8::MAX ==> intx((dev + 1) as u8, pin) == (if intx(dev, pin) == 0x23 {
            0x20int
        } else {
            intx(dev, pin) + 1
        }),
{
}

/// **Switching the function on sets two bits and keeps the rest of the lower half.** The bits of the
/// upper half are all written as zero.
pub proof fn law_switching_on_sets_two_bits(command: u32)
    ensures
        command_write(command).off == 4,
        command_write(command).value <= 0xffff,
        command_write(command).value & 6 == 6,
        command_write(command).value & 0xfff9 == command & 0xfff9,
{
    assert((((command as u16) | 2) | 4) as u32 <= 0xffff && ((((command as u16) | 2) | 4) as u32)
        & 6 == 6 && ((((command as u16) | 2) | 4) as u32) & 0xfff9 == command & 0xfff9)
        by (bit_vector);
}

/// **The pin is the second byte of its word.**
pub proof fn law_the_pin_is_the_second_byte(word: u32)
    ensures
        pin_of(word) == (word / 0x100) % 0x100,
{
    assert(((word >> 8) & 0xff) as u8 == (word / 0x100) % 0x100) by (bit_vector);
}

/// Placing registers writes to registers.
proof fn lemma_writes_are_registers(bars: Seq<Option<Bar>>, n: int)
    requires
        0 <= n <= bars.len() <= BARS,
    ensures
        forall|i: int|
            0 <= i < placed(bars, n).writes.len() ==> (#[trigger] placed(bars, n).writes[i]).off
                >= 0x10,
    decreases n,
{
    if n > 0 {
        lemma_writes_are_registers(bars, n - 1);
        let (p, q) = (placed(bars, n - 1), placed(bars, n));
        assert forall|i: int| 0 <= i < q.writes.len() implies (#[trigger] q.writes[i]).off
            >= 0x10 by {
            if i < p.writes.len() {
                assert(q.writes[i] == p.writes[i]);
            } else {
                let bar = bars[n - 1]->0;
                let more = bar_writes(n - 1, bar, round_up(p.next, unit_of(bar)));
                assert(q.writes[i] == more[i - p.writes.len()]);
            }
        }
    }
}

/// The disk is one of the functions, and there is none only if none is one.
proof fn lemma_first_disk(functions: Seq<Function>, n: int)
    requires
        0 <= n <= functions.len(),
    ensures
        first_disk(functions, n) matches Some(bdf) ==> exists|k: int|
            0 <= k < n && (#[trigger] functions[k]).bdf == bdf && functions[k].vendor == 0x1af4
                && functions[k].device == 0x1042,
        first_disk(functions, n) is Some <==> exists|k: int|
            0 <= k < n && (#[trigger] functions[k]).vendor == 0x1af4 && functions[k].device
                == 0x1042,
    decreases n,
{
    if n > 0 {
        lemma_first_disk(functions, n - 1);
        let last = functions[n - 1];
        if last.vendor == 0x1af4 && last.device == 0x1042 && first_disk(functions, n - 1) is None {
            assert(first_disk(functions, n) == Some(last.bdf));
        }
    }
}

} // verus!
