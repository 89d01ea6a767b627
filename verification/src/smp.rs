//! The other cores: which there are, which can be started, and the stacks they start on.
use vstd::prelude::*;

use crate::cpu::MAX_CPUS;

verus! {

/// The stack a core starts on.
pub const SECONDARY_STACK_SIZE: u64 = 65536;

/// The page below it, which is never mapped.
pub const SECONDARY_STACK_GUARD: u64 = 4096;

/// Both together.
pub const SECONDARY_STACK_SLOT: u64 = 69632;

/// Are the slots of all cores, from `region` on, whole pages, and do they have addresses?
pub open spec fn region_fits(region: u64) -> bool {
    &&& region % SECONDARY_STACK_GUARD == 0
    &&& region + MAX_CPUS * SECONDARY_STACK_SLOT <= u64::MAX
}

/// Where core `id`'s guard page is.
pub open spec fn guard_of(region: u64, id: int) -> int {
    region + id * SECONDARY_STACK_SLOT
}

/// Where core `id`'s stack is: from here,
pub open spec fn bottom_of(region: u64, id: int) -> int {
    guard_of(region, id) + SECONDARY_STACK_GUARD
}

/// up to here.
pub open spec fn top_of(region: u64, id: int) -> int {
    bottom_of(region, id) + SECONDARY_STACK_SIZE
}

/// The page below core `id`'s stack, which is left unmapped.
pub fn secondary_stack_guard(region: u64, id: usize) -> (va: u64)
    requires
        region_fits(region),
        id < MAX_CPUS,
    ensures
        va == guard_of(region, id as int),
        va % SECONDARY_STACK_GUARD == 0,
{
    proof {
        lemma_whole_pages(region, id as int);
    }
    region + id as u64 * SECONDARY_STACK_SLOT
}

/// Core `id`'s stack, from its lowest byte up to, not including, its end.
pub fn secondary_stack_span(region: u64, id: usize) -> (span: (u64, u64))
    requires
        region_fits(region),
        id < MAX_CPUS,
    ensures
        span.0 == bottom_of(region, id as int),
        span.1 == top_of(region, id as int),
        span.0 % SECONDARY_STACK_GUARD == 0,
        span.1 % SECONDARY_STACK_GUARD == 0,
        span.1 - span.0 == SECONDARY_STACK_SIZE,
{
    let bottom: u64 = secondary_stack_guard(region, id) + SECONDARY_STACK_GUARD;
    (bottom, bottom + SECONDARY_STACK_SIZE)
}

/// Where core `id`'s stack pointer starts.
pub fn stack_top(region: u64, id: usize) -> (sp: u64)
    requires
        region_fits(region),
        id < MAX_CPUS,
    ensures
        sp == top_of(region, id as int),
        sp % 16 == 0,
{
    secondary_stack_span(region, id).1
}

/// A slot is whole pages, so all of them begin on one.
proof fn lemma_whole_pages(region: u64, id: int)
    requires
        region_fits(region),
        0 <= id,
    ensures
        guard_of(region, id) % SECONDARY_STACK_GUARD as int == 0,
{
    assert(id * SECONDARY_STACK_SLOT == SECONDARY_STACK_GUARD * (17 * id)) by (nonlinear_arith)
        requires
            SECONDARY_STACK_SLOT == 17 * 4096,
            SECONDARY_STACK_GUARD == 4096,
    ;
}

/// **Every core has a stack to itself, over a page of its own.** Each stack is the whole pages above
/// its guard page, the next core's guard page begins where it ends, no slot reaches into another
/// core's, and a stack pointer starts on a multiple of sixteen.
pub proof fn law_stacks_are_apart(region: u64, id: int, other: int)
    requires
        region_fits(region),
        0 <= id < MAX_CPUS,
        0 <= other < MAX_CPUS,
    ensures
        guard_of(region, 0) == region,
        guard_of(region, id) % 4096 == 0,
        bottom_of(region, id) == guard_of(region, id) + 4096,
        top_of(region, id) == bottom_of(region, id) + 65536,
        top_of(region, id) % 16 == 0,
        guard_of(region, id + 1) == top_of(region, id),
        id < other ==> top_of(region, id) <= guard_of(region, other),
        other < id ==> top_of(region, other) <= guard_of(region, id),
{
    lemma_whole_pages(region, id);
    if id < other {
        lemma_slots_in_order(region, id, other);
    }
    if other < id {
        lemma_slots_in_order(region, other, id);
    }
    assert((id + 1) * SECONDARY_STACK_SLOT == id * SECONDARY_STACK_SLOT + SECONDARY_STACK_SLOT)
        by (nonlinear_arith);
}

/// A slot ends where the next begins, at the latest.
proof fn lemma_slots_in_order(region: u64, id: int, other: int)
    requires
        id < other,
    ensures
        top_of(region, id) <= guard_of(region, other),
{
    assert((id + 1) * SECONDARY_STACK_SLOT <= other * SECONDARY_STACK_SLOT) by (nonlinear_arith)
        requires
            id + 1 <= other,
    ;
    assert((id + 1) * SECONDARY_STACK_SLOT == id * SECONDARY_STACK_SLOT + SECONDARY_STACK_SLOT)
        by (nonlinear_arith);
}

/// How a core is started, by what the machine says of it.
#[derive(Debug, Clone, Copy, PartialEq, Eq, Structural)]
pub enum EnableMethod {
    /// By a firmware call.
    Psci,
    /// It does not say, which means the same where there is only one way.
    Unstated,
    /// In a way that is not known here.
    Other,
}

/// A core, by what the machine says of it.
#[derive(Debug, Clone, Copy, PartialEq, Eq, Structural)]
pub struct CpuInfo {
    /// The number the firmware knows it by.
    pub hwid: u64,
    /// Is it to be used at all?
    pub usable: bool,
    pub enable_method: EnableMethod,
}

impl CpuInfo {
    /// Can it be started from here?
    pub open spec fn can_start(self) -> bool {
        self.usable && self.enable_method != EnableMethod::Other
    }
}

/// The mark of a slot the machine says nothing about. No core has this number.
pub const NO_HWID: u64 = u64::MAX;

/// The cores there are.
pub struct Roster {
    /// The hardware number of each core.
    pub hwids: Vec<u64>,
    /// Which of them can be started from here.
    pub startable: Vec<bool>,
    /// How many slots are filled.
    pub listed: usize,
    /// How many cores the machine has, which may be more.
    pub described: usize,
}

/// How many of the cores can be started.
pub open spec fn count_startable(cpus: Seq<CpuInfo>) -> nat
    decreases cpus.len(),
{
    if cpus.len() == 0 {
        0
    } else {
        count_startable(cpus.drop_last()) + if cpus.last().can_start() {
            1nat
        } else {
            0nat
        }
    }
}

impl Roster {
    /// There is a slot for each core the kernel is built for.
    pub open spec fn wf(self) -> bool {
        &&& self.hwids@.len() == MAX_CPUS
        &&& self.startable@.len() == MAX_CPUS
        &&& self.listed <= MAX_CPUS
    }

    /// The roster holds what the machine said, as far as there are slots.
    pub open spec fn holds(self, cpus: Seq<CpuInfo>) -> bool {
        &&& self.listed == (if cpus.len() <= MAX_CPUS {
            cpus.len() as int
        } else {
            MAX_CPUS as int
        })
        &&& forall|i: int| 0 <= i < self.listed ==> #[trigger] self.hwids@[i] == cpus[i].hwid
        &&& forall|i: int|
            0 <= i < self.listed ==> #[trigger] self.startable@[i] == cpus[i].can_start()
        &&& forall|i: int| self.listed <= i < MAX_CPUS ==> #[trigger] self.hwids@[i] == NO_HWID
        &&& forall|i: int| self.listed <= i < MAX_CPUS ==> !(#[trigger] self.startable@[i])
    }
}

/// **Take the machine's list of cores down.** Says too how many of those taken down can be started.
pub fn read_cpu_list(cpus: &Vec<CpuInfo>, described: usize) -> (r: (Roster, usize))
    ensures
        r.0.wf(),
        r.0.holds(cpus@),
        r.0.described == described,
        r.1 == count_startable(cpus@.take(r.0.listed as int)),
{
    let listed: usize = if cpus.len() <= MAX_CPUS {
        cpus.len()
    } else {
        MAX_CPUS
    };
    let mut hwids: Vec<u64> = Vec::new();
    let mut startable: Vec<bool> = Vec::new();
    let mut n: usize = 0;
    let mut i: usize = 0;
    while i < listed
        invariant
            i <= listed,
            listed <= cpus@.len(),
            listed <= MAX_CPUS,
            hwids@.len() == i,
            startable@.len() == i,
            n == count_startable(cpus@.take(i as int)),
            n <= i,
            forall|j: int| 0 <= j < i ==> #[trigger] hwids@[j] == cpus@[j].hwid,
            forall|j: int| 0 <= j < i ==> #[trigger] startable@[j] == cpus@[j].can_start(),
        decreases listed - i,
    {
        let cpu: CpuInfo = cpus[i];
        assert(cpus@.take(i + 1).drop_last() =~= cpus@.take(i as int));
        let ok = cpu.usable && match cpu.enable_method {
            EnableMethod::Psci => true,
            EnableMethod::Unstated => true,
            EnableMethod::Other => false,
        };
        hwids.push(cpu.hwid);
        startable.push(ok);
        if ok {
            n += 1;
        }
        i += 1;
    }
    while i < MAX_CPUS
        invariant
            listed <= i <= MAX_CPUS,
            listed <= cpus@.len(),
            hwids@.len() == i,
            startable@.len() == i,
            forall|j: int| 0 <= j < listed ==> #[trigger] hwids@[j] == cpus@[j].hwid,
            forall|j: int| 0 <= j < listed ==> #[trigger] startable@[j] == cpus@[j].can_start(),
            forall|j: int| listed <= j < i ==> #[trigger] hwids@[j] == NO_HWID,
            forall|j: int| listed <= j < i ==> !(#[trigger] startable@[j]),
        decreases MAX_CPUS - i,
    {
        hwids.push(NO_HWID);
        startable.push(false);
        i += 1;
    }
    (Roster { hwids, startable, listed, described }, n)
}

/// The hardware number of core `id`, if the machine said anything of it.
pub fn hwid(r: &Roster, id: usize) -> (h: Option<u64>)
    requires
        r.wf(),
    ensures
        h == (if id < MAX_CPUS && r.hwids@[id as int] != NO_HWID {
            Some(r.hwids@[id as int])
        } else {
            None
        }),
{
    if id >= MAX_CPUS {
        return None;
    }
    let h: u64 = r.hwids[id];
    if h == NO_HWID {
        None
    } else {
        Some(h)
    }
}

/// How many cores the machine has, which is not how many can be used.
pub fn described_count(r: &Roster) -> (n: usize)
    ensures
        n == r.described,
{
    r.described
}

/// Is the core the kernel runs on where the machine says it is?
pub fn boot_core_is_listed(r: &Roster, boot: usize) -> (ok: bool)
    requires
        r.wf(),
    ensures
        ok == (boot < MAX_CPUS && r.hwids@[boot as int] != NO_HWID && r.hwids@[boot as int] == boot),
{
    match hwid(r, boot) {
        Some(h) => h == boot as u64,
        None => false,
    }
}

/// What is done about a core.
#[derive(Debug, Clone, Copy, PartialEq, Eq, Structural)]
pub enum CorePlan {
    /// It is the one that is running.
    Running,
    /// It cannot be started from here.
    NotStartable,
    /// Its hardware number is not its index, and everything here goes by the index.
    OtherNumber { hwid: u64 },
    /// Start it, with its stack pointer here.
    Start { hwid: u64, sp: u64 },
}

/// What is done about core `id`, the kernel running on core `boot`.
pub open spec fn plan_for(r: Roster, region: u64, boot: int, id: int) -> CorePlan {
    if id == boot {
        CorePlan::Running
    } else if !r.startable@[id] {
        CorePlan::NotStartable
    } else if r.hwids@[id] != id {
        CorePlan::OtherNumber { hwid: r.hwids@[id] }
    } else {
        CorePlan::Start { hwid: r.hwids@[id], sp: top_of(region, id) as u64 }
    }
}

/// **What is done about each core the machine listed**, in order. With no way to start a core,
/// nothing is done.
pub fn bring_up_secondaries(r: &Roster, region: u64, boot: usize, can_start: bool) -> (plan: Vec<
    CorePlan,
>)
    requires
        r.wf(),
        region_fits(region),
    ensures
        if can_start {
            &&& plan@.len() == r.listed
            &&& forall|id: int|
                0 <= id < r.listed ==> #[trigger] plan@[id] == plan_for(*r, region, boot as int, id)
        } else {
            plan@.len() == 0
        },
{
    let mut plan: Vec<CorePlan> = Vec::new();
    if !can_start {
        return plan;
    }
    let mut id: usize = 0;
    while id < r.listed
        invariant
            r.wf(),
            region_fits(region),
            id <= r.listed,
            plan@.len() == id,
            forall|i: int|
                0 <= i < id ==> #[trigger] plan@[i] == plan_for(*r, region, boot as int, i),
        decreases r.listed - id,
    {
        let step = if id == boot {
            CorePlan::Running
        } else if !r.startable[id] {
            CorePlan::NotStartable
        } else if r.hwids[id] != id as u64 {
            CorePlan::OtherNumber { hwid: r.hwids[id] }
        } else {
            CorePlan::Start { hwid: r.hwids[id], sp: stack_top(region, id) }
        };
        plan.push(step);
        id += 1;
    }
    plan
}

/// **Every core but the one that booted is started, if it can be.** The one the kernel booted on,
/// whatever its number, is the only one that is taken for running. Any other that is to be used, that
/// says nothing of how it is started or says the firmware starts it, and whose hardware number is its
/// index is started under that number, on the stack of its own slot. One with another number is left
/// alone, and so is one that cannot be started from here; and nothing else is.
pub proof fn law_every_other_core_is_started(
    cpus: Seq<CpuInfo>,
    r: Roster,
    region: u64,
    boot: int,
    id: int,
)
    requires
        r.wf(),
        r.holds(cpus),
        region_fits(region),
        0 <= id < cpus.len(),
        id < MAX_CPUS,
    ensures
        ({
            let p = plan_for(r, region, boot, id);
            let cpu = cpus[id];
            let ready = cpu.usable && (cpu.enable_method == EnableMethod::Psci
                || cpu.enable_method == EnableMethod::Unstated);
            &&& id < r.listed
            &&& p == CorePlan::Running <==> id == boot
            &&& p == CorePlan::NotStartable <==> id != boot && !ready
            &&& id != boot && ready && cpu.hwid != id ==> p == (CorePlan::OtherNumber {
                hwid: cpu.hwid,
            })
            &&& id != boot && ready && cpu.hwid == id ==> p is Start && p->Start_hwid == id
                && p->Start_sp == region + (id + 1) * 69632
            &&& p is Start ==> id != boot && ready && cpu.hwid == id
        }),
{
    law_stacks_are_apart(region, id, id);
    assert(r.startable@[id] == cpus[id].can_start());
    assert(r.hwids@[id] == cpus[id].hwid);
    assert((id + 1) * SECONDARY_STACK_SLOT == id * SECONDARY_STACK_SLOT + SECONDARY_STACK_SLOT
        && (id + 1) * SECONDARY_STACK_SLOT <= MAX_CPUS * SECONDARY_STACK_SLOT && 0 <= id
        * SECONDARY_STACK_SLOT) by (nonlinear_arith)
        requires
            0 <= id < MAX_CPUS,
    ;
}

/// **The roster is the machine's list, as far as it goes**: as many cores as the machine lists, up to
/// what the kernel is built for, each under the number the machine gave it, and no number where the
/// list has ended.
pub proof fn law_the_roster_is_the_list(cpus: Seq<CpuInfo>, r: Roster, id: int)
    requires
        r.wf(),
        r.holds(cpus),
        0 <= id < MAX_CPUS,
    ensures
        r.listed <= cpus.len(),
        r.listed < cpus.len() ==> r.listed == MAX_CPUS,
        id < cpus.len() ==> r.hwids@[id] == cpus[id].hwid,
        id >= cpus.len() ==> r.hwids@[id] == u64::MAX && !r.startable@[id],
{
    assert(r.hwids@[id] == r.hwids@[id] && r.startable@[id] == r.startable@[id]);
}

/// **A core counts as one that can be started exactly if it is to be used and is started by the
/// firmware, or does not say.**
pub proof fn law_who_can_be_started(cpus: Seq<CpuInfo>, cpu: CpuInfo)
    ensures
        count_startable(Seq::<CpuInfo>::empty()) == 0,
        count_startable(cpus.push(cpu)) == count_startable(cpus) + (if cpu.usable && (
        cpu.enable_method == EnableMethod::Psci || cpu.enable_method == EnableMethod::Unstated) {
            1nat
        } else {
            0nat
        }),
{
    assert(cpus.push(cpu).drop_last() =~= cpus);
}

/// The cores that are up: how many besides the first, and a bit for each.
#[derive(Debug, Clone, Copy, PartialEq, Eq, Structural)]
pub struct Online {
    pub secondaries: usize,
    pub mask: usize,
}

/// How many cores are up.
pub fn online_count(o: &Online) -> (n: usize)
    requires
        o.secondaries < MAX_CPUS,
    ensures
        n == o.secondaries + 1,
{
    o.secondaries + 1
}

/// A bit for each core that is up.
pub fn online_harts_mask(o: &Online) -> (mask: usize)
    ensures
        mask == o.mask,
{
    o.mask
}

/// The first core is up.
pub fn first_online(boot: usize) -> (o: Online)
    requires
        boot < MAX_CPUS,
    ensures
        o == (Online { secondaries: 0, mask: 1usize << boot }),
{
    Online { secondaries: 0, mask: 1usize << boot }
}

/// Core `cpu` has come up. Its bit is set together with the count, so whoever sees it counted has
/// it in the mask as well.
pub fn secondary_online(o: &mut Online, cpu: usize)
    requires
        cpu < MAX_CPUS,
        old(o).secondaries < MAX_CPUS - 1,
    ensures
        final(o).secondaries == old(o).secondaries + 1,
        final(o).mask == old(o).mask | (1usize << cpu),
{
    o.mask = o.mask | (1usize << cpu);
    o.secondaries = o.secondaries + 1;
}

/// **A core that has come up stays in the mask, and is in it from the start.**
pub proof fn law_the_mask_only_grows(mask: usize, cpu: usize, other: usize)
    requires
        cpu < MAX_CPUS,
        other < MAX_CPUS,
    ensures
        (mask | (1usize << cpu)) & (1usize << cpu) != 0,
        mask & (1usize << other) != 0 ==> (mask | (1usize << cpu)) & (1usize << other) != 0,
        cpu != other && mask & (1usize << other) == 0 ==> (mask | (1usize << cpu)) & (1usize
            << other) == 0,
{
    assert((mask | (1usize << cpu)) & (1usize << cpu) != 0 && (mask & (1usize << other) != 0 ==> (
    mask | (1usize << cpu)) & (1usize << other) != 0) && (cpu != other && mask & (1usize << other)
        == 0 ==> (mask | (1usize << cpu)) & (1usize << other) == 0)) by (bit_vector)
        requires
            cpu < 4,
            other < 4,
    ;
}

} // verus!
