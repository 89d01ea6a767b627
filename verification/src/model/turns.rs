//! Who runs next, who has run, and how work moves between cores.
use vstd::prelude::*;

use crate::cap::Tid;
use crate::cpu::{CpuView, NO_TID};
use crate::model::delivery;
use crate::model::switch;
use crate::model::{MView, Place};
use crate::thread::{State, TView};

verus! {

/// Every core but `c` is as it was.
pub open spec fn other_cores_kept(a: MView, b: MView, c: int) -> bool {
    &&& b.cpus.len() == a.cpus.len()
    &&& forall|d: int| 0 <= d < a.cpus.len() && d != c ==> #[trigger] b.cpus[d] == a.cpus[d]
}

/// **What a scheduling decision does.** With nobody waiting, a thread that can carry on does, and
/// nothing changes. Otherwise the core goes to whoever has waited longest, or to its idle thread if
/// nobody waits; the thread it goes to runs and is on the core, and is the one the core names. The
/// thread it leaves, if it could have carried on and is not the idle thread, is ready and last in
/// line; one that was torn down while it ran is finished; any other is as it was. Nobody else
/// notices.
pub proof fn law_what_a_decision_does(a: MView, c: int)
    requires
        a.inv(),
        0 <= c < a.cpus.len(),
        a.can_schedule(c),
    ensures
        ({
            let cpu = a.cpus[c];
            let me = cpu.current;
            let t = a.threads[me];
            let b = a.scheduled(c);
            let fit = t.state == State::Running && !t.killed;
            let next = if cpu.runq.len() > 0 {
                cpu.runq[0]
            } else {
                cpu.idle
            };
            let line = if cpu.runq.len() > 0 {
                cpu.runq.skip(1)
            } else {
                cpu.runq
            };
            &&& cpu.runq.len() == 0 && fit ==> b == a
            &&& cpu.runq.len() > 0 || !fit ==> {
                &&& next != me
                &&& delivery::rest_kept(a, b)
                &&& b.endpoints == a.endpoints
                &&& other_cores_kept(a, b, c)
                &&& delivery::others_kept(a, b, me, next)
                &&& b.cpus[c] == (CpuView {
                    current: next,
                    switched_from: me,
                    runq: if fit && me != cpu.idle {
                        line.push(me)
                    } else {
                        line
                    },
                    ..cpu
                })
                &&& b.threads[next] == (TView {
                    state: State::Running,
                    on_cpu: true,
                    ..a.threads[next]
                })
                &&& b.threads[me] == (TView {
                    state: if fit && me != cpu.idle {
                        State::Ready
                    } else if t.state == State::Running && t.killed {
                        State::Finished
                    } else {
                        t.state
                    },
                    ..t
                })
            }
        }),
{
    let me = a.cpus[c].current;
    let t = a.threads[me];
    switch::lemma_bury(a, c);
    if a.buried(c).next_thread(c) is Some {
        switch::lemma_next_is_off_core(a, c);
        reveal(MView::inv);
        assert(a.holds_core(c, me));
        assert(t.on_cpu);
    }
}

/// **What arriving in the next thread does to the last.** The core has let go of it. A finished
/// thread is gone, and its slot in a budget is free again; a wake that came too early is completed,
/// and the thread is ready and last in line; any other is as it was, off the core. Nobody else
/// notices.
pub proof fn law_what_letting_go_does(a: MView, c: int)
    requires
        a.inv(),
        0 <= c < a.cpus.len(),
    ensures
        ({
            let cpu = a.cpus[c];
            let prev = cpu.switched_from;
            let t = a.threads[prev];
            let b = a.switch_finished(c);
            &&& other_cores_kept(a, b, c)
            &&& b.endpoints == a.endpoints
            &&& b.cpus[c].switched_from == NO_TID
            &&& prev == NO_TID || !a.threads.contains_key(prev) ==> {
                &&& b == (MView { cpus: b.cpus, ..a })
                &&& b.cpus[c] == (CpuView { switched_from: NO_TID, ..cpu })
            }
            &&& prev != NO_TID && a.threads.contains_key(prev) && t.state == State::Finished ==> {
                &&& b == (MView { cpus: b.cpus, threads: b.threads, quotas: b.quotas, ..a })
                &&& b.cpus[c] == (CpuView { switched_from: NO_TID, ..cpu })
                &&& b.threads == a.threads.remove(prev)
                &&& b.quotas.len() == a.quotas.len()
                &&& forall|q: int|
                    0 <= q < a.quotas.len() ==> #[trigger] b.quotas[q] == (if holds_slot(t, q) {
                        if a.quotas[q] < u32::MAX {
                            a.quotas[q] + 1
                        } else {
                            0
                        }
                    } else {
                        a.quotas[q] as int
                    })
            }
            &&& prev != NO_TID && a.threads.contains_key(prev) && t.state != State::Finished ==> {
                &&& delivery::rest_kept(a, b)
                &&& delivery::others_kept(a, b, prev, prev)
                &&& if t.wake_pending {
                    &&& b.threads[prev] == (TView {
                        state: State::Ready,
                        on_cpu: false,
                        wake_pending: false,
                        ..t
                    })
                    &&& b.cpus[c] == (CpuView {
                        switched_from: NO_TID,
                        runq: cpu.runq.push(prev),
                        ..cpu
                    })
                } else {
                    &&& b.threads[prev] == (TView { on_cpu: false, ..t })
                    &&& b.cpus[c] == (CpuView { switched_from: NO_TID, ..cpu })
                }
            }
        }),
{
}

/// Does the thread hold a slot of budget `q`?
pub open spec fn holds_slot(t: TView, q: int) -> bool {
    match t.quota {
        Some(k) => k == q,
        None => false,
    }
}

/// **What emptying the inbox does.** Whatever other cores have handed over stands behind those that
/// waited already, in the order it came, the inbox is empty, and if there was anything a scheduling
/// decision is wanted. Nobody else notices.
pub proof fn law_what_emptying_the_inbox_does(a: MView, c: int)
    requires
        0 <= c < a.cpus.len(),
    ensures
        ({
            let (cpu, b) = (a.cpus[c], a.drained(c));
            &&& b == (MView { cpus: b.cpus, ..a })
            &&& other_cores_kept(a, b, c)
            &&& b.cpus[c] == (CpuView {
                runq: b.cpus[c].runq,
                inbox: b.cpus[c].inbox,
                need_resched: cpu.need_resched || cpu.inbox.len() > 0,
                ..cpu
            })
            &&& b.cpus[c].inbox.len() == 0
            &&& b.cpus[c].runq.len() == cpu.runq.len() + cpu.inbox.len()
            &&& forall|i: int| 0 <= i < cpu.runq.len() ==> #[trigger] b.cpus[c].runq[i] == cpu.runq[i]
            &&& forall|i: int|
                0 <= i < cpu.inbox.len() ==> b.cpus[c].runq[cpu.runq.len() + i]
                    == #[trigger] cpu.inbox[i]
        }),
{
    assert(a.drained(c).cpus[c].inbox.len() == 0);
}

/// **What answering a request for work does.** No request is left. If there was one, and somebody
/// waited, the one who had waited longest stands last in the inbox of the core that asked, which is
/// the core to poke; with nobody waiting, or no request, nobody moves and nobody is poked.
pub proof fn law_what_answering_a_request_does(a: MView, c: int)
    requires
        0 <= c < a.cpus.len(),
        a.cpus[c].steal_request <= a.cpus.len(),
    ensures
        ({
            let (cpu, b) = (a.cpus[c], a.steal_served(c));
            let t = cpu.steal_request - 1;
            &&& b == (MView { cpus: b.cpus, ..a })
            &&& b.cpus.len() == a.cpus.len()
            &&& b.cpus[c].steal_request == 0
            &&& cpu.steal_request == 0 || cpu.runq.len() == 0 ==> {
                &&& a.thief(c) is None
                &&& other_cores_kept(a, b, c)
                &&& b.cpus[c] == (CpuView { steal_request: 0, ..cpu })
            }
            &&& cpu.steal_request > 0 && cpu.runq.len() > 0 ==> {
                &&& a.thief(c) == Some(t)
                &&& b.cpus[c].runq == cpu.runq.skip(1)
                &&& b.cpus[t].inbox == a.cpus[t].inbox.push(cpu.runq[0])
                &&& forall|d: int|
                    0 <= d < a.cpus.len() && d != c && d != t ==> #[trigger] b.cpus[d] == a.cpus[d]
                &&& t != c ==> {
                    &&& b.cpus[t] == (CpuView { inbox: b.cpus[t].inbox, ..a.cpus[t] })
                    &&& b.cpus[c] == (CpuView { runq: b.cpus[c].runq, steal_request: 0, ..cpu })
                }
            }
        }),
{
}

/// **What asking for work does.** The request stands with the core that was asked, under the name of
/// the core that asks, unless another's stands there already. Nobody else notices.
pub proof fn law_what_asking_for_work_does(a: MView, me: int, v: int)
    requires
        0 <= v < a.cpus.len(),
        0 <= me < 0xffff_ffff,
    ensures
        ({
            let b = a.steal_asked(me, v);
            &&& b == (MView { cpus: b.cpus, ..a })
            &&& other_cores_kept(a, b, v)
            &&& a.cpus[v].steal_request != 0 ==> b == a
            &&& a.cpus[v].steal_request == 0 ==> {
                &&& b.cpus[v].steal_request == me + 1
                &&& b.cpus[v] == (CpuView { steal_request: b.cpus[v].steal_request, ..a.cpus[v] })
            }
        }),
{
}

/// **The core that is asked has the most waiting**, and something, and is another core than the one
/// that asks, and up.
pub proof fn law_the_most_loaded_is_asked(a: MView, me: int, v: int, other: int)
    requires
        a.is_victim(me, v),
        0 <= other < a.online,
        other != me,
    ensures
        0 <= v < a.online,
        v != me,
        a.cpus[v].runq.len() > 0,
        a.cpus[other].runq.len() <= a.cpus[v].runq.len(),
        a.cpus[other].runq.len() == a.cpus[v].runq.len() ==> v <= other,
{
}

/// **An idle core is given work.** It asks a core with threads waiting; once that core has answered,
/// the one who had waited longest there is in the idle core's inbox, and the idle core is poked.
pub proof fn law_an_idle_core_is_given_work(a: MView, me: int, v: int)
    requires
        0 <= me < a.cpus.len(),
        0 <= v < a.cpus.len(),
        a.cpus.len() < 0xffff_ffff,
        me != v,
        a.cpus[v].runq.len() > 0,
        a.cpus[v].steal_request == 0,
    ensures
        ({
            let asked = a.steal_asked(me, v).drained(v);
            let b = asked.steal_served(v);
            &&& asked.thief(v) == Some(me)
            &&& b.cpus[me].inbox == a.cpus[me].inbox.push(a.cpus[v].runq[0])
            &&& b.cpus[v].steal_request == 0
            &&& b.cpus[v].current == a.cpus[v].current
            &&& b.threads == a.threads
        }),
{
}

/// **Where a new thread goes.** It is there, as it was made and under its name, and waits for core
/// `target`: on its run queue if that is the core that made it, in its inbox if it is another. Nobody
/// else notices.
pub proof fn law_where_a_new_thread_goes(a: MView, here: int, target: int, tid: Tid, t: TView)
    requires
        0 <= here < a.cpus.len(),
        0 <= target < a.cpus.len(),
        !a.threads.contains_key(tid),
    ensures
        ({
            let b = a.spawned(here, target, tid, t);
            &&& b == (MView { threads: b.threads, cpus: b.cpus, ..a })
            &&& b.threads == a.threads.insert(tid, TView { id: tid, ..t })
            &&& if target == here {
                delivery::joined_run_queue(a, b, target, tid)
            } else {
                delivery::joined_inbox(a, b, target, tid)
            }
            &&& t.state == State::Ready ==> b.awake(tid)
        }),
{
    let b = a.spawned(here, target, tid, t);
    let p = if target == here {
        Place::Run(target)
    } else {
        Place::Inbox(target)
    };
    let n = a.queue(p).len() as int;
    assert(b.queue(p) == a.queue(p).push(tid));
    assert(b.queue(p)[n] == tid);
}

/// **A new thread goes to the lighter of two cores that are up**, or stays where there is only one;
/// no sample is more loaded than the choice.
pub proof fn law_the_lighter_of_two(a: MView, here: int, x: u64, y: u64)
    requires
        0 <= here < a.cpus.len(),
        1 <= a.online <= a.cpus.len(),
    ensures
        ({
            let t = a.lighter(here, x, y);
            let (i, j) = (x as int % a.online as int, y as int % a.online as int);
            let load = |c: int| a.cpus[c].runq.len() + a.cpus[c].inbox.len();
            &&& a.online == 1 ==> t == here
            &&& a.online > 1 ==> {
                &&& 0 <= t < a.online
                &&& t == i || t == j
                &&& load(t) <= load(i)
                &&& load(t) <= load(j)
                &&& load(i) == load(j) ==> t == i
            }
        }),
{
    let n = a.online as int;
    assert(0 <= x as int % n < n && 0 <= y as int % n < n) by (nonlinear_arith)
        requires
            n >= 1,
    ;
}

/// **A driver wakes where there is least to do**: no core that is up has less, and it is another core
/// than the one the interrupt came to only if that has strictly more to do.
pub proof fn law_the_lightest_core(a: MView, here: int, t: int, other: int)
    requires
        a.is_lightest(here, t),
        0 <= other < a.online,
    ensures
        ({
            let load = |c: int| a.cpus[c].runq.len() + a.cpus[c].inbox.len();
            &&& a.lightest(here) == t
            &&& t == here || 0 <= t < a.online
            &&& load(t) <= load(other)
            &&& t != here ==> load(t) < load(here)
            &&& t != here && load(other) == load(t) ==> t <= other
        }),
{
    crate::model::place::lemma_lightest(a, here, t);
    assert(a.cpus[other].runnable() >= a.cpus[t].runnable());
    if other < t {
        assert(a.cpus[other].runnable() >= a.cpus[t].runnable());
    }
}

/// **What coming up does.** The machine runs; the boot thread is on its core and the idle thread is
/// what that core falls back on. The other cores are as they were.
pub proof fn law_what_coming_up_does(a: MView, c: int, boot: Tid, b: TView, idle: Tid, i: TView)
    requires
        0 <= c < a.cpus.len(),
        boot != idle,
    ensures
        ({
            let m = a.brought_up(c, boot, b, idle, i);
            &&& m == (MView { running: true, threads: m.threads, cpus: m.cpus, ..a })
            &&& m.threads == a.threads.insert(boot, TView { id: boot, ..b }).insert(
                idle,
                TView { id: idle, ..i },
            )
            &&& other_cores_kept(a, m, c)
            &&& m.cpus[c] == (CpuView { current: boot, idle, ..a.cpus[c] })
        }),
{
}

/// **What joining does.** The context the core came up in is a thread, and is both what the core runs
/// and what it falls back on. The other cores are as they were.
pub proof fn law_what_joining_does(a: MView, c: int, tid: Tid, t: TView)
    requires
        0 <= c < a.cpus.len(),
    ensures
        ({
            let m = a.adopted(c, tid, t);
            &&& m == (MView { threads: m.threads, cpus: m.cpus, ..a })
            &&& m.threads == a.threads.insert(tid, TView { id: tid, ..t })
            &&& other_cores_kept(a, m, c)
            &&& m.cpus[c] == (CpuView { current: tid, idle: tid, ..a.cpus[c] })
        }),
{
}

/// **A budget shrinks by the slot that is taken**, and no other budget does.
pub proof fn law_a_slot_is_taken(a: MView, q: int)
    requires
        0 <= q < a.quotas.len(),
        a.quotas[q] > 0,
    ensures
        ({
            let b = a.taken_slot(q);
            &&& b == (MView { quotas: b.quotas, ..a })
            &&& b.quotas.len() == a.quotas.len()
            &&& b.quotas[q] == a.quotas[q] - 1
            &&& forall|k: int|
                0 <= k < a.quotas.len() && k != q ==> #[trigger] b.quotas[k] == a.quotas[k]
        }),
{
}

} // verus!
