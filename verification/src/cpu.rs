//! Per-core state.
//!
//! Each core owns one block and is the only one to touch its run queue. Work crosses cores through
//! the inbox alone: another core can hand a thread over, it cannot reach into the queue.
use std::collections::VecDeque;
use vstd::prelude::*;

use crate::cap::Tid;

verus! {

/// A `current` or `idle` slot that holds no thread. No table mints this name.
pub const NO_TID: Tid = 0xffff_ffff_ffff_ffff;

/// The most cores there can be.
pub const MAX_CPUS: usize = 4;

/// The rank of holding no lock at all: above every lock's.
pub const RANK_NONE: u32 = 0xffff_ffff;

/// One core's private data.
pub struct PerCpu {
    /// The lowest lock rank this core holds.
    pub held_rank: u32,
    /// The thread running here.
    pub current: Tid,
    /// What runs here when nothing else can.
    pub idle: Tid,
    /// A tick or a handover asked for a scheduling decision.
    pub need_resched: bool,
    /// Threads ready to run here, in round-robin order.
    pub runq: VecDeque<Tid>,
    /// Threads other cores have handed over.
    pub inbox: VecDeque<Tid>,
    /// The thread this core just left, until its context is known to be saved.
    pub switched_from: Tid,
    /// The core that asked for work, plus one; 0 for nobody.
    pub steal_request: u32,
}

/// A core's block as the contracts see it.
#[verifier::ext_equal]
pub struct CpuView {
    pub held_rank: u32,
    pub current: Tid,
    pub idle: Tid,
    pub need_resched: bool,
    pub runq: Seq<Tid>,
    pub inbox: Seq<Tid>,
    pub switched_from: Tid,
    pub steal_request: u32,
}

impl CpuView {
    /// Everything that will want this core: what is queued and what is on its way.
    pub open spec fn runnable(self) -> nat {
        self.runq.len() + self.inbox.len()
    }
}

/// A core that has run nothing yet.
pub open spec fn blank() -> CpuView {
    CpuView {
        held_rank: RANK_NONE,
        current: NO_TID,
        idle: NO_TID,
        need_resched: false,
        runq: Seq::empty(),
        inbox: Seq::empty(),
        switched_from: NO_TID,
        steal_request: 0,
    }
}

impl PerCpu {
    pub open spec fn view(self) -> CpuView {
        CpuView {
            held_rank: self.held_rank,
            current: self.current,
            idle: self.idle,
            need_resched: self.need_resched,
            runq: self.runq@,
            inbox: self.inbox@,
            switched_from: self.switched_from,
            steal_request: self.steal_request,
        }
    }

    /// A core that has run nothing yet.
    pub fn new() -> (c: PerCpu)
        ensures
            c@ == blank(),
    {
        PerCpu {
            held_rank: RANK_NONE,
            current: NO_TID,
            idle: NO_TID,
            need_resched: false,
            runq: VecDeque::new(),
            inbox: VecDeque::new(),
            switched_from: NO_TID,
            steal_request: 0,
        }
    }

    /// How many threads wait on the run queue.
    pub fn runq_len(&self) -> (n: usize)
        ensures
            n == self@.runq.len(),
    {
        self.runq.len()
    }

    /// How many threads will want this core, those on their way to it counted.
    pub fn runnable(&self) -> (n: usize)
        requires
            self@.runnable() <= usize::MAX,
        ensures
            n == self@.runnable(),
    {
        self.runq.len() + self.inbox.len()
    }
}

/// Where core `id`'s block lies, for the register that holds the per-core pointer: the blocks are
/// an array at `base` with one every `stride` bytes.
pub fn init_this_cpu(base: usize, stride: usize, id: usize) -> (ptr: usize)
    requires
        id < MAX_CPUS,
        base + MAX_CPUS * stride <= usize::MAX,
    ensures
        ptr == base + id * stride,
{
    assert(id * stride <= MAX_CPUS * stride) by (nonlinear_arith)
        requires
            id <= MAX_CPUS,
    ;
    base + id * stride
}

/// Which core a per-core pointer belongs to.
pub fn id(base: usize, stride: usize, ptr: usize) -> (id: usize)
    requires
        base <= ptr,
        stride > 0,
    ensures
        id == (ptr - base) / stride as int,
{
    (ptr - base) / stride
}

/// **A core finds itself.** The block [`init_this_cpu`] points core `i` at is the one [`id`] reads
/// back as `i`.
pub proof fn law_a_core_finds_its_own_block(base: int, stride: int, i: int)
    requires
        0 <= i < MAX_CPUS,
        stride > 0,
    ensures
        ((base + i * stride) - base) / stride == i,
{
    assert((i * stride) / stride == i) by (nonlinear_arith)
        requires
            stride > 0,
    ;
}

/// **A core that has run nothing has nothing to do**: nobody runs or idles there or was left, nobody
/// waits for it or asks it for work, it holds no lock, and no decision is due.
pub proof fn law_a_blank_core_has_nothing_to_do()
    ensures
        blank().current == u64::MAX && blank().idle == u64::MAX && blank().switched_from
            == u64::MAX,
        blank().runq.len() == 0 && blank().inbox.len() == 0 && blank().runnable() == 0,
        blank().steal_request == 0 && !blank().need_resched,
        blank().held_rank == u32::MAX,
{
}

/// **What wants a core**: everybody on its run queue and everybody in its inbox, each counted once.
pub proof fn law_what_wants_a_core(c: CpuView, tid: Tid)
    ensures
        (CpuView { runq: c.runq.push(tid), ..c }).runnable() == c.runnable() + 1,
        (CpuView { inbox: c.inbox.push(tid), ..c }).runnable() == c.runnable() + 1,
        c.runnable() == 0 <==> c.runq.len() == 0 && c.inbox.len() == 0,
{
}

} // verus!
