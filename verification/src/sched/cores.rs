//! Bringing cores up, placing new threads on them, and moving work between them.
use vstd::prelude::*;

use crate::cap::Tid;
use crate::cpu::{CpuView, MAX_CPUS, NO_TID};
use crate::machine;
use crate::machine::{Machine, MAX_ENDPOINTS, MAX_THREADS};
use crate::model::place;
use crate::slots::Table;
use crate::thread::{State, TView, Thread};

verus! {

/// Adopt the context the machine booted in as a thread on core `cpu`, and give the core an idle
/// thread to fall back on. The idle thread stands in no queue: it is a fallback, not a peer.
///
/// The tables start afresh, so the boot thread is thread 0 and its idle thread is thread 1, every
/// other slot for a thread is free, and so is every slot for an endpoint.
pub fn init(m: &mut Machine, cpu: usize, boot_page: u64, idle_page: u64, idle_stack: u64)
    requires
        old(m).wf(),
        cpu < MAX_CPUS,
        !old(m).running,
        forall|d: int|
            0 <= d < MAX_CPUS ==> (#[trigger] old(m)@.cpus[d]).current == NO_TID
                && old(m)@.cpus[d].switched_from == NO_TID && old(m)@.cpus[d].idle == NO_TID,
    ensures
        final(m).wf(),
        final(m)@ == old(m)@.brought_up(
            cpu as int,
            0,
            crate::thread::fresh(State::Running, true, None, boot_page),
            1,
            crate::thread::fresh(State::Ready, false, Some(idle_stack), idle_page),
        ),
        final(m).threads.slots@.len() == MAX_THREADS,
        final(m).threads@.dom().len() == 2,
        crate::slots::retired(final(m).threads.slots@) == 0,
        final(m).threads.has_room(),
        final(m).endpoints.slots@.len() == MAX_ENDPOINTS,
        final(m).endpoints@.dom().len() == 0,
        crate::slots::retired(final(m).endpoints.slots@) == 0,
        final(m).endpoints.has_room(),
{
    let ghost c = cpu as int;
    let ghost b = crate::thread::fresh(State::Running, true, None, boot_page);
    let ghost i = crate::thread::fresh(State::Ready, false, Some(idle_stack), idle_page);
    proof {
        place::lemma_bring_up(m@, c, 0, b, 1, i);
        place::lemma_down_is_empty(m@);
    }
    m.threads = Table::new(MAX_THREADS);
    m.endpoints = Table::new(MAX_ENDPOINTS);
    assert(m@.threads =~= old(m)@.threads);
    assert(m@.endpoints =~= old(m)@.endpoints);
    assert(m@.ep_pages =~= old(m)@.ep_pages);
    assert(m.refs_ok()) by {
        assert forall|d: int| 0 <= d < MAX_CPUS implies m.ref_ok(#[trigger] m@.cpus[d]) by {
            assert(old(m).ref_ok(old(m)@.cpus[d]));
        }
    }
    let boot = m.insert_thread(Thread::boot(boot_page));
    proof {
        crate::slots::lemma_name_injective(boot->0, 0);
        assert(m@.threads.contains_key(0));
        assert(!crate::slots::vacant(m.threads.slots@[0]));
        assert(crate::slots::vacant(m.threads.slots@[1]));
    }
    let idle = m.insert_thread(Thread::spawn(idle_page, idle_stack));
    proof {
        crate::slots::lemma_name_injective(idle->0, 1);
    }
    m.running = true;
    let block = m.cpu_mut(cpu);
    block.current = 0;
    block.idle = 1;
    proof {
        let none = Set::<u64>::empty();
        assert(m.threads@.dom() =~= none.insert(0).insert(1));
        assert(m.endpoints@.dom() =~= none);
        crate::slots::law_room_is_what_is_left(m.threads);
    }
}

/// Make core `cpu` a scheduler participant: the context it already runs in becomes a thread, which
/// is what the core runs and what it falls back on.
pub fn adopt_secondary_idle(m: &mut Machine, cpu: usize, page: u64) -> (tid: Tid)
    requires
        old(m).wf(),
        cpu < MAX_CPUS,
        old(m).running,
        old(m).threads.has_room(),
        old(m)@.cpus[cpu as int].current == NO_TID,
        old(m)@.cpus[cpu as int].idle == NO_TID,
        old(m)@.cpus[cpu as int].switched_from == NO_TID,
    ensures
        final(m).wf(),
        old(m).same_names(*final(m)),
        old(m)@.settled(final(m)@),
        crate::slots::mints(old(m).threads.slots@, tid),
        final(m)@ == old(m)@.adopted(
            cpu as int,
            tid,
            crate::thread::fresh(State::Running, true, None, page),
        ),
{
    let tid: Tid = match m.insert_thread(Thread::adopt_current(page)) {
        Some(tid) => tid,
        None => NO_TID,
    };
    proof {
        place::lemma_adopt(
            old(m)@,
            cpu as int,
            tid,
            crate::thread::fresh(State::Running, true, None, page),
        );
    }
    let block = m.cpu_mut(cpu);
    block.current = tid;
    block.idle = tid;
    tid
}

/// A new thread, and the core that has to be poked because it was handed there.
#[derive(Debug, Clone, Copy, PartialEq, Eq, Structural)]
pub struct Spawned {
    pub tid: Tid,
    pub poke: Option<usize>,
}

/// **Spawn a kernel thread onto a given core**, in page `page` and on the stack that ends at
/// `stack_top`. `None` if the scheduler is not up or the table is full: the page and the stack are
/// the caller's to give back.
pub fn spawn_on(m: &mut Machine, cpu: usize, target: usize, page: u64, stack_top: u64) -> (r: Option<
    Spawned,
>)
    requires
        old(m).wf(),
        cpu < MAX_CPUS,
        target < MAX_CPUS,
    ensures
        final(m).wf(),
        old(m).same_names(*final(m)),
        old(m)@.settled(final(m)@),
        r is Some <==> old(m).running && old(m).threads.has_room(),
        match r {
            Some(s) => {
                &&& crate::slots::mints(old(m).threads.slots@, s.tid)
                &&& final(m)@ == old(m)@.spawned(
                    cpu as int,
                    target as int,
                    s.tid,
                    crate::thread::fresh(State::Ready, false, Some(stack_top), page),
                )
                &&& s.poke == (if target != cpu {
                    Some(target)
                } else {
                    None
                })
            },
            None => *final(m) == *old(m),
        },
{
    if !m.running {
        return None;
    }
    let ghost t = crate::thread::fresh(State::Ready, false, Some(stack_top), page);
    match m.insert_thread(Thread::spawn(page, stack_top)) {
        Some(tid) => {
            proof {
                place::lemma_spawn(old(m)@, cpu as int, target as int, tid, t);
            }
            super::place_on(m, cpu, target, tid);
            Some(
                Spawned {
                    tid,
                    poke: if target != cpu {
                        Some(target)
                    } else {
                        None
                    },
                },
            )
        },
        None => None,
    }
}

/// **Which core a new thread goes to**: the lighter of the two that the random samples pick. The
/// two may be one core, which is harmless.
pub fn pick_spawn_target(m: &Machine, cpu: usize, samples: (u64, u64)) -> (target: usize)
    requires
        m.wf(),
        cpu < MAX_CPUS,
    ensures
        target == m@.lighter(cpu as int, samples.0, samples.1),
        target < MAX_CPUS,
{
    let n: usize = m.online;
    if n <= 1 {
        return cpu;
    }
    let i: usize = (samples.0 % n as u64) as usize;
    let j: usize = (samples.1 % n as u64) as usize;
    proof {
        machine::lemma_load_bounded(*m, i as int);
        machine::lemma_load_bounded(*m, j as int);
    }
    if m.cpus[i].runnable() <= m.cpus[j].runnable() {
        i
    } else {
        j
    }
}

/// **Spawn a kernel thread**, wherever [`pick_spawn_target`] sends it.
pub fn spawn(m: &mut Machine, cpu: usize, samples: (u64, u64), page: u64, stack_top: u64) -> (r:
    Option<Spawned>)
    requires
        old(m).wf(),
        cpu < MAX_CPUS,
    ensures
        final(m).wf(),
        old(m).same_names(*final(m)),
        old(m)@.settled(final(m)@),
        r is Some <==> old(m).running && old(m).threads.has_room(),
        ({
            let target = old(m)@.lighter(cpu as int, samples.0, samples.1);
            match r {
                Some(s) => {
                    &&& crate::slots::mints(old(m).threads.slots@, s.tid)
                    &&& final(m)@ == old(m)@.spawned(
                        cpu as int,
                        target,
                        s.tid,
                        crate::thread::fresh(State::Ready, false, Some(stack_top), page),
                    )
                    &&& match s.poke {
                        Some(p) => p == target && p != cpu,
                        None => target == cpu,
                    }
                },
                None => *final(m) == *old(m),
            }
        }),
        r matches Some(s) ==> {
            let t = final(m)@.threads[s.tid];
            &&& !old(m)@.threads.contains_key(s.tid) && final(m)@.threads.contains_key(s.tid)
            &&& t.id == s.tid && t.state == State::Ready && t.page == page
            &&& t.stack_top == Some(stack_top) && t.quota is None
            &&& match s.poke {
                Some(p) => p < MAX_CPUS && p != cpu && final(m)@.cpus[p as int].inbox
                    == old(m)@.cpus[p as int].inbox.push(s.tid),
                None => final(m)@.cpus[cpu as int].runq == old(m)@.cpus[cpu as int].runq.push(
                    s.tid,
                ),
            }
        },
        forall|x: Tid| #[trigger]
            old(m)@.threads.contains_key(x) ==> final(m)@.threads[x] == old(m)@.threads[x],
{
    let target: usize = pick_spawn_target(m, cpu, samples);
    spawn_on(m, cpu, target, page, stack_top)
}

/// **Spawn a kernel thread against a budget**: at most as many as the budget allows are alive at
/// once. `memory` is the page and the stack top, if there was memory for them. The slot is taken
/// first, and is back in the budget whenever no thread came of it; a thread that did carries it and
/// gives it back when it is collected.
pub fn spawn_with_quota(
    m: &mut Machine,
    cpu: usize,
    budget: usize,
    memory: Option<(u64, u64)>,
) -> (r: Option<Tid>)
    requires
        old(m).wf(),
        cpu < MAX_CPUS,
        budget < old(m)@.quotas.len(),
    ensures
        final(m).wf(),
        old(m).same_names(*final(m)),
        old(m)@.settled(final(m)@),
        r is Some <==> old(m)@.quotas[budget as int] > 0 && memory is Some && old(m).running
            && old(m).threads.has_room(),
        match r {
            Some(tid) => {
                &&& crate::slots::mints(old(m).threads.slots@, tid)
                &&& final(m)@ == old(m)@.taken_slot(budget as int).spawned(
                    cpu as int,
                    cpu as int,
                    tid,
                    TView {
                        quota: Some(budget),
                        ..crate::thread::fresh(
                            State::Ready,
                            false,
                            Some((memory->0).1),
                            (memory->0).0,
                        )
                    },
                )
            },
            None => final(m)@ == old(m)@,
        },
        r matches Some(tid) ==> {
            let t = final(m)@.threads[tid];
            &&& !old(m)@.threads.contains_key(tid) && final(m)@.threads.contains_key(tid)
            &&& t.id == tid && t.state == State::Ready && t.quota == Some(budget)
            &&& memory == Some((t.page, t.stack_top->0)) && t.stack_top is Some
            &&& old(m)@.quotas[budget as int] - final(m)@.quotas[budget as int] == 1
            &&& final(m)@.cpus[cpu as int].runq == old(m)@.cpus[cpu as int].runq.push(tid)
        },
        forall|x: Tid| #[trigger]
            old(m)@.threads.contains_key(x) ==> final(m)@.threads[x] == old(m)@.threads[x],
{
    let remaining: u32 = m.quotas[budget];
    if remaining == 0 {
        return None;
    }
    m.quotas.set(budget, remaining - 1);
    assert(m@ =~= old(m)@.taken_slot(budget as int));
    let (page, stack_top) = match memory {
        Some(x) => x,
        None => {
            m.quotas.set(budget, remaining);
            assert(m@.quotas =~= old(m)@.quotas);
            assert(m@ =~= old(m)@);
            return None;
        },
    };
    if !m.running {
        m.quotas.set(budget, remaining);
        assert(m@.quotas =~= old(m)@.quotas);
        assert(m@ =~= old(m)@);
        return None;
    }
    let mut thread = Thread::spawn(page, stack_top);
    thread.quota = Some(budget);
    let ghost t = thread@;
    let ghost a = m@;
    assert(m.refs_ok()) by {
        assert forall|d: int| 0 <= d < MAX_CPUS implies m.ref_ok(#[trigger] m@.cpus[d]) by {
            assert(old(m).ref_ok(old(m)@.cpus[d]));
        }
    }
    proof {
        place::lemma_quotas(old(m)@, m@.quotas);
    }
    match m.insert_thread(thread) {
        Some(tid) => {
            proof {
                place::lemma_spawn(a, cpu as int, cpu as int, tid, t);
            }
            super::push_run(m, cpu, tid);
            Some(tid)
        },
        None => {
            m.quotas.set(budget, remaining);
            assert(m@.quotas =~= old(m)@.quotas);
            assert(m@ =~= old(m)@);
            None
        },
    }
}

/// Move everything in this core's inbox to its run queue, and ask for a scheduling decision if
/// there was anything. What a core does when another one has poked it.
pub fn drain_inbox(m: &mut Machine, cpu: usize)
    requires
        old(m).wf(),
        cpu < MAX_CPUS,
    ensures
        final(m).wf(),
        old(m).same_room(*final(m)),
        old(m)@.settled(final(m)@),
        final(m)@ == old(m)@.drained(cpu as int),
{
    let ghost c = cpu as int;
    proof {
        place::lemma_drain(m@, c);
    }
    if m.cpus[cpu].inbox.len() == 0 {
        return ;
    }
    let block = m.cpu_mut(cpu);
    let ghost queue = block.runq@ + block.inbox@;
    block.runq.append(&mut block.inbox);
    block.need_resched = true;
    assert(block.runq@ =~= queue);
}

/// **Answer a request for work**: if an idle core asked this one, give it the first thread on the
/// run queue, if there is one. The running thread is never given away. The core that got one has to
/// be poked.
pub fn serve_steal_request(m: &mut Machine, cpu: usize) -> (poke: Option<usize>)
    requires
        old(m).wf(),
        cpu < MAX_CPUS,
        old(m)@.cpus[cpu as int].switched_from == NO_TID,
    ensures
        final(m).wf(),
        old(m).same_room(*final(m)),
        old(m)@.settled(final(m)@),
        final(m)@ == old(m)@.steal_served(cpu as int),
        match poke {
            Some(p) => old(m)@.thief(cpu as int) == Some(p as int),
            None => old(m)@.thief(cpu as int) is None,
        },
{
    let ghost c = cpu as int;
    assert(m.ref_ok(m@.cpus[c]));
    proof {
        place::lemma_serve_steal(m@, c);
    }
    let block = m.cpu_mut(cpu);
    let request: u32 = block.steal_request;
    block.steal_request = 0;
    if request == 0 {
        return None;
    }
    let requester: usize = (request - 1) as usize;
    let head = m.cpu_mut(cpu).runq.pop_front();
    match head {
        Some(tid) => {
            proof {
                let m1 = old(m)@.with_cpu(c, CpuView { steal_request: 0, ..old(m)@.cpus[c] });
                let m2 = m1.with_cpu(
                    c,
                    CpuView { runq: old(m)@.cpus[c].runq.skip(1), ..m1.cpus[c] },
                );
                assert(m@.cpus[c].runq =~= old(m)@.cpus[c].runq.skip(1));
                assert(m@.cpus =~= m2.cpus);
                assert(m@ =~= m2);
            }
            super::push_inbox(m, requester, tid);
            Some(requester)
        },
        None => {
            assert(m@.cpus =~= old(m)@.steal_served(c).cpus);
            None
        },
    }
}

/// **An idle core asks for work.** Not if something is on its way to it already. Otherwise the
/// other core with the longest run queue is asked, unless somebody else's request is waiting there;
/// the core that was asked has to be poked.
fn try_initiate_steal(m: &mut Machine, cpu: usize) -> (poke: Option<usize>)
    requires
        old(m).wf(),
        cpu < MAX_CPUS,
    ensures
        final(m).wf(),
        old(m).same_names(*final(m)),
        old(m)@.settled(final(m)@),
        ({
            let me = cpu as int;
            if old(m)@.cpus[me].runnable() > 0 || !exists|v: int| old(m)@.is_victim(me, v) {
                poke is None && final(m)@ == old(m)@
            } else {
                exists|v: int|
                    {
                        &&& #[trigger] old(m)@.is_victim(me, v)
                        &&& final(m)@ == old(m)@.steal_asked(me, v)
                        &&& poke == (if old(m)@.cpus[v].steal_request == 0 {
                            Some(v as usize)
                        } else {
                            None
                        })
                    }
            }
        }),
{
    let ghost me = cpu as int;
    proof {
        machine::lemma_load_bounded(*m, me);
    }
    if m.cpus[cpu].runnable() > 0 {
        return None;
    }
    let mut victim: Option<usize> = None;
    let mut best: usize = 0;
    let mut c: usize = 0;
    while c < m.online
        invariant
            m.sane(),
            m@ == old(m)@,
            *m == *old(m),
            me == cpu,
            c <= m.online,
            match victim {
                Some(v) => {
                    &&& v < c
                    &&& v != cpu
                    &&& best > 0
                    &&& m@.cpus[v as int].runq.len() == best
                    &&& forall|d: int|
                        0 <= d < c && d != me ==> (#[trigger] m@.cpus[d]).runq.len() <= best
                    &&& forall|d: int|
                        0 <= d < v && d != me ==> (#[trigger] m@.cpus[d]).runq.len() < best
                },
                None => {
                    &&& best == 0
                    &&& forall|d: int|
                        0 <= d < c && d != me ==> (#[trigger] m@.cpus[d]).runq.len() == 0
                },
            },
        decreases m.online - c,
    {
        if c != cpu {
            let load: usize = m.cpus[c].runq_len();
            assert(load == m@.cpus[c as int].runq.len());
            if load > best {
                best = load;
                victim = Some(c);
            }
        }
        c += 1;
    }
    match victim {
        Some(v) => {
            assert(m@.is_victim(me, v as int));
            proof {
                place::lemma_plain_cpu(
                    m@,
                    v as int,
                    CpuView { steal_request: (cpu + 1) as u32, ..m@.cpus[v as int] },
                );
            }
            assert(m.ref_ok(m@.cpus[v as int]));
            let block = m.cpu_mut(v);
            if block.steal_request == 0 {
                block.steal_request = (cpu + 1) as u32;
                Some(v)
            } else {
                assert(m@.cpus =~= old(m)@.cpus);
                None
            }
        },
        None => {
            assert forall|v: int| !m@.is_victim(me, v) by {
                if m@.is_victim(me, v) {
                    assert(m@.cpus[v].runq.len() == 0);
                }
            }
            None
        },
    }
}

/// **One pass of the idle thread**: ask a loaded core for work. The caller pokes the core that was
/// asked, waits for an interrupt and yields.
pub fn run_idle(m: &mut Machine, cpu: usize) -> (poke: Option<usize>)
    requires
        old(m).wf(),
        cpu < MAX_CPUS,
    ensures
        final(m).wf(),
        old(m).same_room(*final(m)),
        old(m)@.settled(final(m)@),
        ({
            let me = cpu as int;
            if old(m)@.cpus[me].runnable() > 0 || !exists|v: int| old(m)@.is_victim(me, v) {
                poke is None && final(m)@ == old(m)@
            } else {
                exists|v: int|
                    {
                        &&& #[trigger] old(m)@.is_victim(me, v)
                        &&& final(m)@ == old(m)@.steal_asked(me, v)
                        &&& poke == (if old(m)@.cpus[v].steal_request == 0 {
                            Some(v as usize)
                        } else {
                            None
                        })
                    }
            }
        }),
{
    try_initiate_steal(m, cpu)
}

} // verus!
