//! The platform-level interrupt controller: which source interrupts which core, and the handshake
//! of claiming and completing.
//!
//! A context is a core at a privilege level. For each source there is a priority register; for each
//! context there are enable bits, a threshold, and the register that claims and completes.
use vstd::prelude::*;

use crate::drivers::Write32;

verus! {

pub const ENABLE_BASE: usize = 0x2000;

pub const ENABLE_STRIDE: usize = 0x80;

pub const THRESHOLD_BASE: usize = 0x20_0000;

pub const CONTEXT_STRIDE: usize = 0x1000;

pub const CLAIM_OFFSET: usize = 4;

/// The sources and contexts the register block has room for.
pub const MAX_SOURCE: u32 = 1024;

pub const MAX_CONTEXT: usize = 15872;

/// Does the whole register block have addresses?
pub open spec fn fits(base: usize) -> bool {
    base + 0x400_0000 <= usize::MAX
}

/// Where the priority of `source` is.
pub open spec fn priority_at(base: usize, source: u32) -> int {
    base + 4 * source
}

/// Where the enable bit of `source` for `context` is: the register, and the bit in it.
pub open spec fn enable_at(base: usize, source: u32, context: usize) -> int {
    base + ENABLE_BASE + context * ENABLE_STRIDE + (source / 32) * 4
}

/// The bit of `source` in its enable register.
pub open spec fn bit_of(source: u32) -> u32 {
    1u32 << (source % 32)
}

/// Where the threshold of `context` is. The claim register is one word further on.
pub open spec fn threshold_at(base: usize, context: usize) -> int {
    base + THRESHOLD_BASE + context * CONTEXT_STRIDE
}

/// Open `context` for every source that has a priority.
pub fn open_context(base: usize, context: usize) -> (w: Write32)
    requires
        fits(base),
        context < MAX_CONTEXT,
    ensures
        w.addr == threshold_at(base, context),
        w.value == 0,
{
    Write32 { addr: base + THRESHOLD_BASE + context * CONTEXT_STRIDE, value: 0 }
}

/// Bring the controller up for one context: open it. The sources are still disabled one by one.
pub fn init(base: usize, context: usize) -> (w: Write32)
    requires
        fits(base),
        context < MAX_CONTEXT,
    ensures
        w.addr == threshold_at(base, context),
        w.value == 0,
{
    open_context(base, context)
}

/// The register that holds the enable bit of `source` for `context`, which has to be read before
/// the bit can be changed.
pub fn enable_register(base: usize, source: u32, context: usize) -> (addr: usize)
    requires
        fits(base),
        source < MAX_SOURCE,
        context < MAX_CONTEXT,
    ensures
        addr == enable_at(base, source, context),
{
    base + ENABLE_BASE + context * ENABLE_STRIDE + (source as usize / 32) * 4
}

/// Let `source` interrupt `context`: a priority, and the enable bit among the others, `word` being
/// what the enable register holds.
pub fn enable(base: usize, source: u32, context: usize, word: u32) -> (w: (Write32, Write32))
    requires
        fits(base),
        source < MAX_SOURCE,
        context < MAX_CONTEXT,
    ensures
        w.0.addr == priority_at(base, source),
        w.0.value == 1,
        w.1.addr == enable_at(base, source, context),
        w.1.value == word | bit_of(source),
{
    (
        Write32 { addr: base + source as usize * 4, value: 1 },
        Write32 {
            addr: enable_register(base, source, context),
            value: word | (1u32 << (source % 32)),
        },
    )
}

/// Keep `source` from interrupting `context`.
pub fn disable(base: usize, source: u32, context: usize, word: u32) -> (w: Write32)
    requires
        fits(base),
        source < MAX_SOURCE,
        context < MAX_CONTEXT,
    ensures
        w.addr == enable_at(base, source, context),
        w.value == word & !bit_of(source),
{
    Write32 {
        addr: enable_register(base, source, context),
        value: word & !(1u32 << (source % 32)),
    }
}

/// The register whose reading claims what is pending for `context`.
pub fn claim(base: usize, context: usize) -> (addr: usize)
    requires
        fits(base),
        context < MAX_CONTEXT,
    ensures
        addr == threshold_at(base, context) + CLAIM_OFFSET,
{
    base + THRESHOLD_BASE + context * CONTEXT_STRIDE + CLAIM_OFFSET
}

/// End the claim on `source`.
pub fn complete(base: usize, source: u32, context: usize) -> (w: Write32)
    requires
        fits(base),
        context < MAX_CONTEXT,
    ensures
        w.addr == threshold_at(base, context) + CLAIM_OFFSET,
        w.value == source,
{
    Write32 { addr: claim(base, context), value: source }
}

/// **Disabling undoes enabling, and neither touches another source.**
pub proof fn law_disable_undoes_enable(word: u32, source: u32, other: u32)
    ensures
        (word | bit_of(source)) & bit_of(source) != 0,
        (word | bit_of(source)) & !bit_of(source) == word & !bit_of(source),
        source % 32 != other % 32 ==> {
            &&& (word | bit_of(source)) & bit_of(other) == word & bit_of(other)
            &&& (word & !bit_of(source)) & bit_of(other) == word & bit_of(other)
        },
{
    let s = source % 32;
    let o = other % 32;
    assert((word | (1u32 << s)) & (1u32 << s) != 0 && (word | (1u32 << s)) & !(1u32 << s) == word
        & !(1u32 << s) && (s != o ==> (word | (1u32 << s)) & (1u32 << o) == word & (1u32 << o) && (
    word & !(1u32 << s)) & (1u32 << o) == word & (1u32 << o))) by (bit_vector)
        requires
            s < 32,
            o < 32,
    ;
}

/// The registers after `source` was enabled for `context`.
pub open spec fn after_enable(regs: Map<int, u32>, base: usize, source: u32, context: usize) -> Map<
    int,
    u32,
> {
    let at = enable_at(base, source, context);
    regs.insert(priority_at(base, source), 1).insert(at, regs[at] | bit_of(source))
}

/// The registers after it was disabled.
pub open spec fn after_disable(regs: Map<int, u32>, base: usize, source: u32, context: usize) -> Map<
    int,
    u32,
> {
    let at = enable_at(base, source, context);
    regs.insert(at, regs[at] & !bit_of(source))
}

/// **Enabling a source and disabling it again leaves it disabled, and everything else as it was**:
/// once enabled it has a priority and its bit is set; once disabled its bit is clear; and no other
/// bit and no other register changes on the way, but for the priority it keeps.
pub proof fn law_enable_then_disable(
    regs: Map<int, u32>,
    base: usize,
    source: u32,
    context: usize,
    other: u32,
    at: int,
)
    requires
        source < MAX_SOURCE,
    ensures
        ({
            let on = after_enable(regs, base, source, context);
            let off = after_disable(on, base, source, context);
            let word = enable_at(base, source, context);
            &&& on[priority_at(base, source)] == 1
            &&& on[word] & bit_of(source) != 0
            &&& off[word] & bit_of(source) == 0
            &&& source % 32 != other % 32 ==> {
                &&& on[word] & bit_of(other) == regs[word] & bit_of(other)
                &&& off[word] & bit_of(other) == regs[word] & bit_of(other)
            }
            &&& at != word && at != priority_at(base, source) ==> on[at] == regs[at] && off[at]
                == regs[at]
            &&& off[priority_at(base, source)] == 1
        }),
{
    let w = regs[enable_at(base, source, context)];
    law_disable_undoes_enable(w, source, other);
    law_disable_undoes_enable(w | bit_of(source), source, other);
    assert(priority_at(base, source) < base + ENABLE_BASE);
    let s = source % 32;
    assert((((w | (1u32 << s)) & !(1u32 << s)) & (1u32 << s)) == 0) by (bit_vector)
        requires
            s < 32,
    ;
}

/// **Every source has a bit of its own for every context**: two different pairs share neither the
/// register nor the bit, or else only one of them.
pub proof fn law_enable_bits_are_apart(base: usize, s: u32, c: usize, t: u32, d: usize)
    requires
        s < MAX_SOURCE,
        t < MAX_SOURCE,
        s != t || c != d,
    ensures
        enable_at(base, s, c) != enable_at(base, t, d) || s % 32 != t % 32,
{
}

/// **Where the registers are.** Priorities come first, a word for every source; then the enable bits,
/// a block of 128 bytes for every context, with a word for every 32 sources; and then the thresholds,
/// a page for every context. The three parts do not overlap.
pub proof fn law_where_the_registers_are(base: usize, s: u32, c: usize, t: u32, d: usize)
    requires
        s < 1024,
        t < 1024,
        c < 15872,
        d < 15872,
    ensures
        priority_at(base, 0) == base,
        enable_at(base, 0, 0) == base + 0x2000,
        threshold_at(base, 0) == base + 0x20_0000,
        t == s + 1 ==> priority_at(base, t) == priority_at(base, s) + 4,
        d == c + 1 ==> enable_at(base, s, d) == enable_at(base, s, c) + 128,
        d == c + 1 ==> threshold_at(base, d) == threshold_at(base, c) + 4096,
        s / 32 == t / 32 <==> enable_at(base, s, c) == enable_at(base, t, c),
        t == s + 32 ==> enable_at(base, t, c) == enable_at(base, s, c) + 4,
        priority_at(base, s) < enable_at(base, t, c),
        enable_at(base, s, c) < threshold_at(base, d),
        c < d ==> threshold_at(base, c) + 4 < threshold_at(base, d),
{
}

/// **A source's bit is its place among the 32 of its word.** The first one's is the lowest, and the
/// next one's is twice as high.
pub proof fn law_the_bits_of_a_word(source: u32)
    ensures
        source % 32 == 0 ==> bit_of(source) == 1,
        source % 32 < 31 ==> bit_of((source + 1) as u32) == 2 * bit_of(source),
{
    let s = source % 32;
    assert(1u32 << 0u32 == 1 && (s < 31 ==> (1u32 << ((s + 1) as u32)) == 2 * (1u32 << s)))
        by (bit_vector)
        requires
            s < 32,
    ;
    if s < 31 {
        assert((source + 1) as u32 % 32 == s + 1);
    }
}

} // verus!
