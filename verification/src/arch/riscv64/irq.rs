//! Which core a device's interrupt goes to.
use vstd::prelude::*;

use crate::cpu::MAX_CPUS;

verus! {

/// The sources that are told apart.
pub const MAX_SOURCES: usize = 128;

/// The mark of a source that goes nowhere yet.
pub const CTX_UNASSIGNED: u16 = u16::MAX;

/// The interrupt controller's context for core `cpu`.
pub open spec fn context_of(cpu: int) -> int {
    2 * cpu + 1
}

/// This core's context: the one it claims from and completes to.
pub fn this_s_context(cpu: usize) -> (ctx: usize)
    requires
        cpu < MAX_CPUS,
    ensures
        ctx == context_of(cpu as int),
{
    2 * cpu + 1
}

/// The context of the core the kernel booted on.
pub fn boot_s_context(boot_hartid: usize) -> (ctx: usize)
    requires
        boot_hartid < MAX_CPUS,
    ensures
        ctx == context_of(boot_hartid as int),
{
    2 * boot_hartid + 1
}

/// Where each source goes, and which core is next.
pub struct Affinity {
    pub contexts: Vec<u16>,
    pub next: usize,
}

/// An interrupt on its way: the context it goes to, and whether that context has to be opened
/// first.
#[derive(Debug, Clone, Copy, PartialEq, Eq, Structural)]
pub struct Target {
    pub context: usize,
    pub open: bool,
}

impl Affinity {
    pub open spec fn wf(self) -> bool {
        self.contexts@.len() == MAX_SOURCES
    }

    /// The slot of `source`.
    pub open spec fn slot(source: u32) -> int {
        source as int % MAX_SOURCES as int
    }

    /// The context of `source`, if it has one.
    pub open spec fn assigned(self, source: u32) -> Option<int> {
        let ctx = self.contexts@[Affinity::slot(source)];
        if ctx == CTX_UNASSIGNED {
            None
        } else {
            Some(ctx as int)
        }
    }

    /// Nothing goes anywhere yet.
    pub fn new() -> (a: Affinity)
        ensures
            a.wf(),
            a.next == 0,
            forall|s: u32| #[trigger] a.assigned(s) is None,
    {
        let mut contexts: Vec<u16> = Vec::new();
        let mut i: usize = 0;
        while i < MAX_SOURCES
            invariant
                i <= MAX_SOURCES,
                contexts@.len() == i,
                forall|j: int| 0 <= j < i ==> contexts@[j] == CTX_UNASSIGNED,
            decreases MAX_SOURCES - i,
        {
            contexts.push(CTX_UNASSIGNED);
            i += 1;
        }
        Affinity { contexts, next: 0 }
    }
}

/// Where each source goes, and which core is next, after `source` was asked for while `online` cores
/// were up.
pub open spec fn asked(contexts: Seq<u16>, next: usize, source: u32, online: usize) -> (
    Seq<u16>,
    usize,
) {
    let slot = Affinity::slot(source);
    if contexts[slot] != CTX_UNASSIGNED {
        (contexts, next)
    } else {
        (
            contexts.update(slot, context_of(next as int % online as int) as u16),
            if next == usize::MAX {
                0
            } else {
                (next + 1) as usize
            },
        )
    }
}

/// The same after each of the calls, in order: a source, and how many cores were up.
pub open spec fn asked_all(contexts: Seq<u16>, next: usize, calls: Seq<(u32, usize)>) -> (
    Seq<u16>,
    usize,
)
    decreases calls.len(),
{
    if calls.len() == 0 {
        (contexts, next)
    } else {
        let (c, n) = asked_all(contexts, next, calls.drop_last());
        asked(c, n, calls.last().0, calls.last().1)
    }
}

/// **A source keeps its context.** Whatever is asked for after it was assigned, and however many
/// cores come up meanwhile, it goes where it went.
pub proof fn law_a_source_keeps_its_context(
    contexts: Seq<u16>,
    next: usize,
    calls: Seq<(u32, usize)>,
    source: u32,
)
    requires
        contexts.len() == MAX_SOURCES,
        contexts[Affinity::slot(source)] != CTX_UNASSIGNED,
    ensures
        ({
            let (c, n) = asked_all(contexts, next, calls);
            &&& c.len() == MAX_SOURCES
            &&& c[Affinity::slot(source)] == contexts[Affinity::slot(source)]
            &&& forall|online: usize| #[trigger] asked(c, n, source, online) == (c, n)
        }),
    decreases calls.len(),
{
    if calls.len() > 0 {
        law_a_source_keeps_its_context(contexts, next, calls.drop_last(), source);
    }
}

/// **The context `source` goes to**: the one it has always gone to, or, the first time, the next
/// core's in turn. It stays, so that masking and unmasking meet the same context.
pub fn target_context(a: &mut Affinity, source: u32, online: usize) -> (t: Target)
    requires
        old(a).wf(),
        1 <= online <= MAX_CPUS,
    ensures
        final(a).wf(),
        (final(a).contexts@, final(a).next) == asked(
            old(a).contexts@,
            old(a).next,
            source,
            online,
        ),
        match old(a).assigned(source) {
            Some(ctx) => *final(a) == *old(a) && t.context == ctx && !t.open,
            None => {
                let ctx = context_of(old(a).next as int % online as int);
                &&& t.context == ctx
                &&& t.open
                &&& final(a).contexts@ == old(a).contexts@.update(
                    Affinity::slot(source),
                    ctx as u16,
                )
                &&& final(a).next == (if old(a).next == usize::MAX {
                    0
                } else {
                    (old(a).next + 1) as usize
                })
            },
        },
{
    let slot: usize = source as usize % MAX_SOURCES;
    let existing: u16 = a.contexts[slot];
    if existing != CTX_UNASSIGNED {
        return Target { context: existing as usize, open: false };
    }
    let hart: usize = a.next % online;
    let ctx: usize = 2 * hart + 1;
    a.next = a.next.wrapping_add(1);
    a.contexts.set(slot, ctx as u16);
    Target { context: ctx, open: true }
}

/// Let `source` interrupt again. The caller opens the context if it is new, and sets the bit.
pub fn enable(a: &mut Affinity, source: u32, online: usize) -> (t: Target)
    requires
        old(a).wf(),
        1 <= online <= MAX_CPUS,
    ensures
        final(a).wf(),
        (final(a).contexts@, final(a).next) == asked(
            old(a).contexts@,
            old(a).next,
            source,
            online,
        ),
        match old(a).assigned(source) {
            Some(ctx) => *final(a) == *old(a) && t.context == ctx && !t.open,
            None => {
                &&& t.context == context_of(old(a).next as int % online as int)
                &&& t.open
                &&& final(a).assigned(source) == Some(t.context as int)
                &&& forall|s: u32|
                    Affinity::slot(s) != Affinity::slot(source) ==> #[trigger] final(a).assigned(s)
                        == old(a).assigned(s)
                &&& final(a).next == (if old(a).next == usize::MAX {
                    0
                } else {
                    (old(a).next + 1) as usize
                })
            },
        },
        final(a).assigned(source) == Some(t.context as int),
{
    target_context(a, source, online)
}

/// The mask that names core `cpu`, to poke it by.
pub fn send_reschedule(cpu: usize) -> (mask: usize)
    requires
        cpu < MAX_CPUS,
    ensures
        mask == 1usize << cpu,
{
    1usize << cpu
}

/// **The cores take turns.** A source that goes nowhere yet gets the context of a core that is up: an
/// odd one, the first core's being the first. The next such source gets the next core's, or the first
/// core's after the last one's. No other source is touched.
pub proof fn law_the_cores_take_turns(
    contexts: Seq<u16>,
    next: usize,
    first: u32,
    second: u32,
    online: usize,
    other: int,
)
    requires
        contexts.len() == 128,
        1 <= online <= MAX_CPUS,
        next < usize::MAX,
        first % 128 != second % 128,
        contexts[first as int % 128] == CTX_UNASSIGNED,
        contexts[second as int % 128] == CTX_UNASSIGNED,
        0 <= other < 128,
        other != first % 128,
        other != second % 128,
    ensures
        ({
            let (c, n) = asked(contexts, next, first, online);
            let (d, m) = asked(c, n, second, online);
            let a = d[first as int % 128];
            let b = d[second as int % 128];
            &&& c[first as int % 128] == a
            &&& c[second as int % 128] == CTX_UNASSIGNED
            &&& c[other] == contexts[other] && d[other] == contexts[other]
            &&& n == next + 1
            &&& a % 2 == 1 && a / 2 < online
            &&& next < online ==> a / 2 == next
            &&& b == (if a + 2 < 2 * online {
                a + 2
            } else {
                1
            })
        }),
{
    let x = next as int % online as int;
    let y = (next + 1) % online as int;
    assert(y == if x + 1 < online {
        x + 1
    } else {
        0
    }) by {
        vstd::arithmetic::div_mod::lemma_fundamental_div_mod(next as int, online as int);
        let q = next as int / online as int;
        assert(online * q == q * online) by (nonlinear_arith);
        if x + 1 < online {
            vstd::arithmetic::div_mod::lemma_fundamental_div_mod_converse(
                (next + 1) as int,
                online as int,
                q,
                x + 1,
            );
        } else {
            assert((q + 1) * online == online * q + online) by (nonlinear_arith);
            vstd::arithmetic::div_mod::lemma_fundamental_div_mod_converse(
                (next + 1) as int,
                online as int,
                q + 1,
                0,
            );
        }
    }
    if next < online {
        vstd::arithmetic::div_mod::lemma_small_mod(next as nat, online as nat);
    }
}

/// **Every core's context is its own.** It is the odd one of the core's two, so no two cores share
/// one.
pub proof fn law_contexts_are_apart(one: int, other: int)
    requires
        0 <= one < other,
    ensures
        context_of(0) == 1,
        context_of(one) + 2 * (other - one) == context_of(other),
{
}

} // verus!
