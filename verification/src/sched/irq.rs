//! Interrupts on their way to the endpoint they are bound to.
use vstd::prelude::*;

use crate::cap::Tid;
use crate::cpu::MAX_CPUS;
use crate::machine;
use crate::machine::{Machine, MAX_INTID};
use crate::model::place;
use crate::model::rendezvous;
use crate::model::MView;
use crate::thread::State;

verus! {

/// From now on, interrupt `intid` signals endpoint `ep`. No registry mints the largest name, so a
/// name plus one is never 0, which stands for an interrupt that goes nowhere.
pub fn bind_irq(m: &mut Machine, intid: u32, ep: u64)
    requires
        old(m).wf(),
        intid < MAX_INTID,
        ep < u64::MAX,
    ensures
        final(m).wf(),
        old(m).same_room(*final(m)),
        old(m)@.settled(final(m)@),
        final(m)@ == (MView {
            irq_routes: old(m)@.irq_routes.update(intid as int, (ep + 1) as u64),
            ..old(m)@
        }),
{
    proof {
        place::lemma_beside(m@, m@.irq_routes.update(intid as int, (ep + 1) as u64), m@.preemptions);
    }
    m.irq_routes.set(intid as usize, ep + 1);
    assert(m.refs_ok()) by {
        assert forall|d: int| 0 <= d < MAX_CPUS implies m.ref_ok(#[trigger] m@.cpus[d]) by {
            assert(old(m).ref_ok(old(m)@.cpus[d]));
        }
    }
}

/// The endpoint interrupt `intid` signals, if it is bound to one.
pub fn irq_route(m: &Machine, intid: u32) -> (r: Option<u64>)
    requires
        m.wf(),
    ensures
        match r {
            Some(ep) => intid < MAX_INTID && m@.irq_routes[intid as int] == ep + 1,
            None => intid >= MAX_INTID || m@.irq_routes[intid as int] == 0,
        },
{
    if intid as usize >= MAX_INTID {
        return None;
    }
    let n: u64 = m.irq_routes[intid as usize];
    if n == 0 {
        None
    } else {
        Some(n - 1)
    }
}

/// **Which core an interrupt's receiver wakes on**: the least loaded one, and this one unless
/// another is strictly lighter.
fn pick_wake_target(m: &Machine, cpu: usize) -> (target: usize)
    requires
        m.wf(),
        cpu < MAX_CPUS,
    ensures
        target < MAX_CPUS,
        m@.is_lightest(cpu as int, target as int),
        target == m@.lightest(cpu as int),
{
    let ghost here = cpu as int;
    proof {
        machine::lemma_load_bounded(*m, here);
    }
    let mut best: usize = cpu;
    let mut best_load: usize = m.cpus[cpu].runnable();
    let here_load: usize = best_load;
    let mut c: usize = 0;
    while c < m.online
        invariant
            m.wf(),
            c <= m.online,
            cpu < MAX_CPUS,
            here == cpu,
            best == cpu || best < c,
            best < MAX_CPUS,
            here_load == m@.cpus[here].runnable(),
            best_load == m@.cpus[best as int].runnable(),
            best_load <= here_load,
            best_load == here_load ==> best == cpu,
            forall|d: int| 0 <= d < c ==> best_load <= (#[trigger] m@.cpus[d]).runnable(),
            best != cpu ==> forall|d: int|
                0 <= d < best ==> best_load < (#[trigger] m@.cpus[d]).runnable(),
        decreases m.online - c,
    {
        if c != cpu {
            proof {
                machine::lemma_load_bounded(*m, c as int);
            }
            let load: usize = m.cpus[c].runnable();
            assert(load == m@.cpus[c as int].runnable());
            if load < best_load {
                best_load = load;
                best = c;
            }
        }
        c += 1;
    }
    proof {
        place::lemma_lightest(m@, here, best as int);
    }
    best
}

/// The core an interrupt's receiver was handed to and that has to be poked, if it is not this one.
pub open spec fn notify_poke(m: MView, here: int, target: int, ep: u64) -> Option<usize> {
    if m.endpoints.contains_key(ep) && m.endpoints[ep].receivers.len() > 0
        && !m.threads[m.endpoints[ep].receivers[0]].on_cpu && target != here {
        Some(target as usize)
    } else {
        None
    }
}

/// Wake `tid` on whichever core is lightest. The core that has to be poked, if it is another one.
fn wake_load_aware(m: &mut Machine, cpu: usize, tid: Tid, target: usize) -> (poke: Option<usize>)
    requires
        old(m).sane(),
        cpu < MAX_CPUS,
        target < MAX_CPUS,
    ensures
        super::steady(*old(m), *final(m)),
        final(m)@ == old(m)@.woken_on(cpu as int, target as int, tid),
        poke == (if old(m)@.threads.contains_key(tid) && old(m)@.threads[tid].state
            == State::Blocked && !old(m)@.threads[tid].on_cpu && target != cpu {
            Some(target)
        } else {
            None
        }),
{
    let place = match m.thread_mut(tid) {
        Some(t) => if t.state == State::Blocked {
            if t.on_cpu {
                t.wake_pending = true;
                false
            } else {
                t.state = State::Ready;
                true
            }
        } else {
            false
        },
        None => false,
    };
    if place {
        super::place_on(m, cpu, target, tid);
        if target != cpu {
            return Some(target);
        }
    } else {
        assert(m@.threads =~= old(m)@.woken_on(cpu as int, target as int, tid).threads);
    }
    None
}

/// **An interrupt becomes a message.** A thread waiting on the endpoint finds a one in its mailbox
/// and wakes on the lightest core; with nobody waiting the signal is counted, so that it is not
/// lost. A name that no longer resolves has nowhere to go, which is not an error.
pub fn irq_notify(m: &mut Machine, cpu: usize, ep: u64) -> (poke: Option<usize>)
    requires
        old(m).wf(),
        cpu < MAX_CPUS,
    ensures
        final(m).wf(),
        old(m).same_room(*final(m)),
        old(m)@.settled(final(m)@),
        ({
            let target = old(m)@.lightest(cpu as int);
            &&& 0 <= target < MAX_CPUS
            &&& old(m)@.is_lightest(cpu as int, target)
            &&& final(m)@ == old(m)@.notified(cpu as int, target, ep)
            &&& poke == notify_poke(old(m)@, cpu as int, target, ep)
        }),
{
    let target: usize = pick_wake_target(m, cpu);
    proof {
        rendezvous::lemma_notify(m@, cpu as int, target as int, ep);
        if m@.endpoints.contains_key(ep) {
            rendezvous::lemma_meets(m@, ep);
        }
    }
    let waiter = match m.endpoint_mut(ep) {
        Some(e) => e.signal(),
        None => {
            return None;
        },
    };
    match waiter {
        Some(r) => {
            if let Some(t) = m.thread_mut(r) {
                let one = [1, 0, 0, 0, 0];
                assert(one@ =~= rendezvous::signal_words());
                t.deliver(one);
            }
            wake_load_aware(m, cpu, r, target)
        },
        None => None,
    }
}

/// **A core is poked exactly if somebody was put into its inbox.** It is another core than this one,
/// and the thread that the interrupt woke is last there.
pub proof fn law_a_core_is_poked_for_its_inbox(m: MView, here: int, target: int, ep: u64, d: int)
    requires
        m.inv(),
        0 <= here < m.cpus.len(),
        0 <= target < m.cpus.len(),
        m.cpus.len() <= usize::MAX,
        0 <= d < m.cpus.len(),
    ensures
        ({
            let b = m.notified(here, target, ep);
            let poke = notify_poke(m, here, target, ep);
            let r = m.endpoints[ep].receivers[0];
            &&& poke == Some(d as usize) <==> b.cpus[d].inbox.len() > m.cpus[d].inbox.len()
            &&& poke is None ==> b.cpus[d].inbox == m.cpus[d].inbox
            &&& poke == Some(d as usize) ==> {
                &&& d != here
                &&& b.cpus[d].inbox == m.cpus[d].inbox.push(r)
                &&& b.threads[r].state == State::Ready
            }
        }),
{
    if m.endpoints.contains_key(ep) {
        rendezvous::lemma_meets(m, ep);
    }
}

} // verus!
