//! A round-robin scheduler, and the rendezvous between the threads it runs.
//!
//! Each operation takes the machine and the core it runs on, decides, and leaves the machine in
//! its next state. What only the hardware can do is handed back to the caller: the registers to
//! switch, the core to poke, the address space to tear down.
use vstd::prelude::*;

use crate::cap::Tid;
use crate::cpu::{CpuView, MAX_CPUS, NO_TID};
use crate::machine;
use crate::machine::{Machine, Remains};
use crate::model::place;
use crate::model::switch;
use crate::model::MView;
use crate::thread::{State, TView};

pub mod caps;
pub mod cores;
pub mod irq;
pub mod objects;
pub mod reap;
pub mod rendezvous;
pub mod report;

pub use caps::{
    adopt_address_space, current_cap, current_kernel_stack_top, delete_current_cap,
    delete_device_frame_caps_from_others, delete_frame_caps, delete_frame_caps_between, grant, grant_at,
};
pub use cores::{
    adopt_secondary_idle, drain_inbox, init, pick_spawn_target, run_idle, serve_steal_request, spawn,
    spawn_on, spawn_with_quota, Spawned,
};
pub use irq::{bind_irq, irq_notify, irq_route};
pub use objects::{
    configure_tcb, create_endpoint, create_endpoint_from, create_tcb, start_tcb, tcb_insert_cap,
};
pub use reap::{reap_supervised, reclaim_region, Reclaimed};
pub use rendezvous::{
    exit, fault, ipc_call, ipc_recv, ipc_recv_cap, ipc_reply, ipc_send, ipc_send_cap, mailbox,
    take_ipc_aborted,
};
pub use report::{
    corpse_fault_msg, dump_threads, endpoint_waiting_senders, runnable_non_idle_count, thread_count,
    Dump,
};

verus! {

/// What is the same before and after every operation that neither makes nor ends a thread or an
/// endpoint: the sizes, the names, the room, and that the cores refer to threads.
pub open spec fn steady(a: Machine, b: Machine) -> bool {
    &&& b.sane()
    &&& a.same_room(b)
    &&& a.refs_ok() ==> b.refs_ok()
}

/// Put `tid` at the back of core `cpu`'s run queue.
pub(crate) fn push_run(m: &mut Machine, cpu: usize, tid: Tid)
    requires
        old(m).sane(),
        cpu < MAX_CPUS,
    ensures
        steady(*old(m), *final(m)),
        final(m)@ == old(m)@.pushed_run(cpu as int, tid),
{
    let c = m.cpu_mut(cpu);
    c.runq.push_back(tid);
}

/// Put `tid` into core `cpu`'s inbox.
pub(crate) fn push_inbox(m: &mut Machine, cpu: usize, tid: Tid)
    requires
        old(m).sane(),
        cpu < MAX_CPUS,
    ensures
        steady(*old(m), *final(m)),
        final(m)@ == old(m)@.pushed_inbox(cpu as int, tid),
{
    let c = m.cpu_mut(cpu);
    c.inbox.push_back(tid);
}

/// Hand a ready thread to core `target`: onto its run queue if it is this core, into its inbox if
/// it is not. A remote core has to be poked after that.
pub(crate) fn place_on(m: &mut Machine, cpu: usize, target: usize, tid: Tid)
    requires
        old(m).sane(),
        cpu < MAX_CPUS,
        target < MAX_CPUS,
    ensures
        steady(*old(m), *final(m)),
        final(m)@ == old(m)@.placed(cpu as int, target as int, tid),
{
    if target == cpu {
        push_run(m, cpu, tid);
    } else {
        push_inbox(m, target, tid);
    }
}

/// Move a blocked thread back to this core's run queue. One that is still on a core, its saved
/// context stale, only has its wake noted: its own core completes it.
pub(crate) fn wake(m: &mut Machine, cpu: usize, tid: Tid)
    requires
        old(m).sane(),
        cpu < MAX_CPUS,
    ensures
        steady(*old(m), *final(m)),
        final(m)@ == old(m)@.woken(cpu as int, tid),
{
    let push = match m.thread_mut(tid) {
        Some(t) => if t.state == State::Blocked {
            if t.on_cpu {
                t.wake_pending = true;
                false
            } else {
                t.state = State::Ready;
                true
            }
        } else {
            false
        },
        None => false,
    };
    if push {
        push_run(m, cpu, tid);
    } else {
        assert(m@.threads =~= old(m)@.woken(cpu as int, tid).threads);
    }
}

/// A switch the caller has to carry out: save into `prev`, load from `next`, with `root` installed
/// for user addresses.
#[derive(Debug, Clone, Copy, PartialEq, Eq, Structural)]
pub struct Switch {
    pub prev: Tid,
    pub next: Tid,
    pub root: u64,
}

/// The word that installs a thread's user addresses: its own space's, or the reserved root, under
/// which every user address faults.
pub open spec fn root_of(t: TView, reserved_root: u64) -> u64 {
    match t.space {
        Some(s) => s.ttbr0,
        None => reserved_root,
    }
}

/// A torn-down thread that is still running becomes a corpse.
fn bury(m: &mut Machine, cpu: usize)
    requires
        old(m).sane(),
        cpu < MAX_CPUS,
    ensures
        steady(*old(m), *final(m)),
        final(m)@ == old(m)@.buried(cpu as int),
{
    let current: Tid = m.cpus[cpu].current;
    if let Some(t) = m.thread_mut(current) {
        if t.killed && t.state == State::Running {
            t.state = State::Finished;
        }
    }
    assert(m@.threads =~= old(m)@.buried(cpu as int).threads);
}

/// Go to the thread at the head of the run queue, or to the idle thread if the queue is empty and
/// the running thread cannot carry on.
fn go_to_next(m: &mut Machine, cpu: usize, runnable: bool) -> (r: Option<Tid>)
    requires
        old(m).sane(),
        cpu < MAX_CPUS,
        runnable == old(m)@.carries_on(cpu as int),
        old(m)@.next_thread(cpu as int) matches Some(next) ==> old(m)@.threads.contains_key(next),
    ensures
        steady(*old(m), *final(m)),
        r == old(m)@.next_thread(cpu as int),
        match r {
            None => final(m)@ == old(m)@,
            Some(next) => final(m)@ == old(m)@.dispatched(cpu as int, next),
        },
{
    let ghost c = cpu as int;
    let current: Tid = m.cpus[cpu].current;
    let idle: Tid = m.cpus[cpu].idle;
    let next: Tid = if m.cpus[cpu].runq.len() > 0 {
        m.cpus[cpu].runq[0]
    } else if runnable {
        return None;
    } else {
        idle
    };
    if let Some(t) = m.thread_mut(next) {
        t.state = State::Running;
        t.on_cpu = true;
    }
    let block = m.cpu_mut(cpu);
    let head = block.runq.pop_front();
    block.current = next;
    block.switched_from = current;
    proof {
        let q = old(m)@.cpus[c].runq;
        assert(m@.cpus[c].runq =~= if q.len() > 0 {
            q.skip(1)
        } else {
            q
        });
    }
    Some(next)
}

/// The thread this core leaves goes to the back of the run queue.
fn requeue(m: &mut Machine, cpu: usize, tid: Tid)
    requires
        old(m).sane(),
        cpu < MAX_CPUS,
        old(m)@.threads.contains_key(tid),
    ensures
        steady(*old(m), *final(m)),
        final(m)@ == old(m)@.with_thread(
            tid,
            TView { state: State::Ready, ..old(m)@.threads[tid] },
        ).pushed_run(cpu as int, tid),
{
    if let Some(t) = m.thread_mut(tid) {
        t.state = State::Ready;
    }
    push_run(m, cpu, tid);
}

/// **Pick another thread.** A torn-down thread becomes a corpse first. Then the head of the run
/// queue is next; with an empty queue the running thread carries on, and one that cannot leaves the
/// core to the idle thread. The thread that is left goes to the back of the queue if it could have
/// carried on, the idle thread excepted.
///
/// The switch itself is the caller's, and [`finish_switch`] has to run on this core after it.
pub fn schedule(m: &mut Machine, cpu: usize, reserved_root: u64) -> (r: Option<Switch>)
    requires
        old(m).wf(),
        cpu < MAX_CPUS,
        old(m).running ==> old(m)@.can_schedule(cpu as int),
    ensures
        final(m).wf(),
        old(m).same_room(*final(m)),
        old(m)@.settled(final(m)@),
        !old(m).running ==> r is None && *final(m) == *old(m),
        old(m).running ==> final(m)@ == old(m)@.scheduled(cpu as int) && match r {
            None => old(m)@.buried(cpu as int).next_thread(cpu as int) is None,
            Some(s) => {
                &&& old(m)@.buried(cpu as int).next_thread(cpu as int) == Some(s.next)
                &&& s.prev == old(m)@.current(cpu as int)
                &&& s.root == root_of(old(m)@.threads[s.next], reserved_root)
            },
        },
        r matches Some(s) ==> {
            let core = final(m)@.cpus[cpu as int];
            let t = final(m)@.threads[s.next];
            &&& core.current == s.next && core.switched_from == s.prev
            &&& t.state == State::Running && t.on_cpu
            &&& t.space is Some ==> s.root == (t.space->0).ttbr0
            &&& t.space is None ==> s.root == reserved_root
        },
        r is None ==> final(m)@.current(cpu as int) == old(m)@.current(cpu as int),
{
    if !m.running {
        return None;
    }
    let ghost c = cpu as int;
    let ghost a = m@.buried(c);
    proof {
        switch::lemma_schedule(m@, c);
        if a.next_thread(c) is Some {
            switch::lemma_next_is_off_core(m@, c);
        }
    }
    let current: Tid = m.cpus[cpu].current;
    bury(m, cpu);
    let runnable = match m.thread(current) {
        Some(t) => t.state == State::Running,
        None => false,
    };
    let idle: Tid = m.cpus[cpu].idle;
    let next: Tid = match go_to_next(m, cpu, runnable) {
        Some(next) => next,
        None => {
            return None;
        },
    };
    if runnable && current != idle {
        requeue(m, cpu, current);
    }
    let root: u64 = match m.thread(next) {
        Some(t) => match &t.space {
            Some(s) => s.ttbr0,
            None => reserved_root,
        },
        None => reserved_root,
    };
    Some(Switch { prev: current, next, root })
}

/// **The other half of a switch**, run by the thread that was switched to. The thread this core
/// left is off its stack now. A finished one is collected, and what is left of it handed to the
/// caller; any other may be run by any core from here on, and a wake that came while it was still
/// on this one is completed.
pub fn finish_switch(m: &mut Machine, cpu: usize) -> (r: Option<Remains>)
    requires
        old(m).wf(),
        cpu < MAX_CPUS,
    ensures
        final(m).wf(),
        old(m).sheds(*final(m)),
        old(m)@.settled(final(m)@),
        final(m)@ == old(m)@.switch_finished(cpu as int),
        ({
            let prev = old(m)@.cpus[cpu as int].switched_from;
            let t = old(m)@.threads[prev];
            if prev != NO_TID && old(m)@.threads.contains_key(prev) && t.state == State::Finished {
                r == Some(machine::remains_of(t))
            } else {
                r is None
            }
        }),
        r is Some ==> {
            let prev = old(m)@.cpus[cpu as int].switched_from;
            &&& old(m)@.threads.contains_key(prev) && !final(m)@.threads.contains_key(prev)
            &&& (r->0).space == old(m)@.threads[prev].space
            &&& (r->0).stack_top == old(m)@.threads[prev].stack_top
        },
        r is None ==> final(m)@.threads.dom() =~= old(m)@.threads.dom(),
        final(m)@.cpus[cpu as int].switched_from == NO_TID,
{
    let ghost c = cpu as int;
    proof {
        switch::lemma_finish_switch(m@, c);
    }
    let block = m.cpu_mut(cpu);
    let prev: Tid = block.switched_from;
    block.switched_from = NO_TID;
    proof {
        machine::lemma_sheds_nothing(*old(m), *m);
    }
    if prev == NO_TID {
        return None;
    }
    let finished = match m.thread(prev) {
        Some(t) => t.state == State::Finished,
        None => {
            return None;
        },
    };
    if finished {
        return Some(m.remove_thread(prev));
    }
    let mut woken = false;
    if let Some(t) = m.thread_mut(prev) {
        t.on_cpu = false;
        if t.wake_pending {
            t.wake_pending = false;
            t.state = State::Ready;
            woken = true;
        }
    }
    if woken {
        push_run(m, cpu, prev);
    }
    proof {
        assert(m@.threads.dom() =~= old(m)@.threads.dom());
        machine::lemma_sheds_nothing(*old(m), *m);
    }
    None
}

/// Give up the core voluntarily.
pub fn yield_now(m: &mut Machine, cpu: usize, reserved_root: u64) -> (r: Option<Switch>)
    requires
        old(m).wf(),
        cpu < MAX_CPUS,
        old(m).running ==> old(m)@.can_schedule(cpu as int),
    ensures
        final(m).wf(),
        old(m).same_room(*final(m)),
        old(m)@.settled(final(m)@),
        !old(m).running ==> r is None && *final(m) == *old(m),
        old(m).running ==> final(m)@ == old(m)@.scheduled(cpu as int) && match r {
            None => old(m)@.buried(cpu as int).next_thread(cpu as int) is None,
            Some(s) => {
                &&& old(m)@.buried(cpu as int).next_thread(cpu as int) == Some(s.next)
                &&& s.prev == old(m)@.current(cpu as int)
                &&& s.root == root_of(old(m)@.threads[s.next], reserved_root)
            },
        },
        r matches Some(s) ==> {
            let core = final(m)@.cpus[cpu as int];
            let t = final(m)@.threads[s.next];
            &&& core.current == s.next && core.switched_from == s.prev
            &&& t.state == State::Running && t.on_cpu
            &&& t.space is Some ==> s.root == (t.space->0).ttbr0
            &&& t.space is None ==> s.root == reserved_root
        },
        r is None ==> final(m)@.current(cpu as int) == old(m)@.current(cpu as int),
{
    schedule(m, cpu, reserved_root)
}

/// The timer fired. This only records that a scheduling decision is wanted.
pub fn on_tick(m: &mut Machine, cpu: usize)
    requires
        old(m).wf(),
        cpu < MAX_CPUS,
    ensures
        final(m).wf(),
        old(m).same_room(*final(m)),
        old(m)@.settled(final(m)@),
        final(m)@ == old(m)@.with_cpu(
            cpu as int,
            CpuView { need_resched: true, ..old(m)@.cpus[cpu as int] },
        ),
{
    proof {
        place::lemma_plain_cpu(
            m@,
            cpu as int,
            CpuView { need_resched: true, ..m@.cpus[cpu as int] },
        );
        assert(m.ref_ok(m@.cpus[cpu as int]));
    }
    let block = m.cpu_mut(cpu);
    block.need_resched = true;
}

/// Was a scheduling decision wanted? Asking takes the wish back.
pub fn take_need_resched(m: &mut Machine, cpu: usize) -> (wanted: bool)
    requires
        old(m).wf(),
        cpu < MAX_CPUS,
    ensures
        final(m).wf(),
        old(m).same_room(*final(m)),
        old(m)@.settled(final(m)@),
        wanted == old(m)@.cpus[cpu as int].need_resched,
        final(m)@ == old(m)@.with_cpu(
            cpu as int,
            CpuView { need_resched: false, ..old(m)@.cpus[cpu as int] },
        ),
{
    proof {
        place::lemma_plain_cpu(
            m@,
            cpu as int,
            CpuView { need_resched: false, ..m@.cpus[cpu as int] },
        );
        assert(m.ref_ok(m@.cpus[cpu as int]));
    }
    let block = m.cpu_mut(cpu);
    let wanted = block.need_resched;
    block.need_resched = false;
    wanted
}

/// The thread core `cpu` runs.
pub fn current(m: &Machine, cpu: usize) -> (tid: Tid)
    requires
        m.wf(),
        cpu < MAX_CPUS,
    ensures
        tid == m@.current(cpu as int),
{
    m.cpus[cpu].current
}

/// How often a core was taken away from a thread.
pub fn preemptions(m: &Machine) -> (n: u64)
    ensures
        n == m@.preemptions,
{
    m.preemptions
}

/// A core was taken away from a thread. The count wraps, as an atomic counter does.
pub fn count_preemption(m: &mut Machine)
    requires
        old(m).wf(),
    ensures
        final(m).wf(),
        old(m).same_room(*final(m)),
        old(m)@.settled(final(m)@),
        final(m)@ == (MView {
            preemptions: if old(m)@.preemptions == u64::MAX {
                0
            } else {
                (old(m)@.preemptions + 1) as u64
            },
            ..old(m)@
        }),
{
    let n: u64 = m.preemptions.wrapping_add(1);
    proof {
        place::lemma_beside(m@, m@.irq_routes, n);
    }
    m.preemptions = n;
    assert(m.refs_ok()) by {
        assert forall|d: int| 0 <= d < MAX_CPUS implies m.ref_ok(#[trigger] m@.cpus[d]) by {
            assert(old(m).ref_ok(old(m)@.cpus[d]));
        }
    }
}

/// Is the scheduler up?
pub fn is_running(m: &Machine) -> (r: bool)
    ensures
        r == m@.running,
{
    m.running
}

/// **Whose addresses a core sees**: those of the thread it goes to, or none at all if that thread has no
/// address space of its own; never those of the thread before.
pub proof fn law_whose_addresses_a_core_sees(t: TView, reserved_root: u64)
    ensures
        t.space is Some ==> root_of(t, reserved_root) == (t.space->0).ttbr0,
        t.space is None ==> root_of(t, reserved_root) == reserved_root,
{
}

} // verus!
