//! The rendezvous between threads: messages, capabilities, calls and replies, and deaths.
use vstd::prelude::*;

use crate::abi::FaultAbi;
use crate::cap::{Cap, Tid, NO_CAP};
use crate::cpu::MAX_CPUS;
use crate::ipc::{Recv, Send};
use crate::machine::Machine;
use crate::model::laws;
use crate::model::rendezvous;
use crate::model::steps;
use crate::thread::{State, TView};

verus! {

/// A three-word message in the five-word mailbox: the top two words are a death message's.
fn wide(msg: [u64; 3]) -> (r: [u64; 5])
    ensures
        r@ == rendezvous::wide(msg@),
{
    let r = [msg[0], msg[1], msg[2], 0, 0];
    assert(r@ =~= rendezvous::wide(msg@));
    r
}

/// Mark `tid`'s rendezvous as called off.
pub(crate) fn set_ipc_aborted(m: &mut Machine, tid: Tid)
    requires
        old(m).sane(),
    ensures
        super::steady(*old(m), *final(m)),
        final(m)@ == old(m)@.aborted(tid),
{
    if let Some(t) = m.thread_mut(tid) {
        t.ipc_aborted = true;
    }
}

/// **Send three words to an endpoint.** A receiver that is waiting has them in its mailbox (one that
/// asked for a capability has the first two, and [`NO_CAP`] between them) and is awake when this
/// returns `false`. With nobody waiting the sender is parked and blocked, and
/// `true` says that the core has to go elsewhere. A name that no longer resolves marks the send as
/// aborted and does not block.
pub fn ipc_send(m: &mut Machine, cpu: usize, ep: u64, msg: [u64; 3]) -> (block: bool)
    requires
        old(m).wf(),
        cpu < MAX_CPUS,
        old(m)@.may_block(cpu as int),
    ensures
        final(m).wf(),
        old(m).same_room(*final(m)),
        old(m)@.settled(final(m)@),
        final(m)@ == old(m)@.sent(cpu as int, ep, rendezvous::wide(msg@)),
        block == old(m)@.send_blocks(ep),
{
    let ghost c = cpu as int;
    let words = wide(msg);
    proof {
        rendezvous::lemma_send(m@, c, ep, words@);
        if m@.endpoints.contains_key(ep) {
            rendezvous::lemma_meets(m@, ep);
        }
    }
    let me: Tid = m.cpus[cpu].current;
    let met = match m.endpoint_mut(ep) {
        Some(e) => e.send(me),
        None => {
            set_ipc_aborted(m, me);
            return false;
        },
    };
    match met {
        Send::Rendezvous(receiver) => {
            if let Some(t) = m.thread_mut(receiver) {
                t.deliver(words);
            }
            super::wake(m, cpu, receiver);
            false
        },
        Send::Blocked => {
            if let Some(t) = m.thread_mut(me) {
                t.mailbox = words;
                t.carries_cap = false;
                t.state = State::Blocked;
            }
            true
        },
    }
}

/// **Receive a message.** The words, if a signal or a sender was waiting. `None` when there was
/// nothing: the receiver is parked and blocked, the core has to go elsewhere, and the words are in
/// the thread's mailbox once it runs again. A name that no longer resolves marks the receive as
/// aborted and returns zeroes.
///
/// A sender whose words were taken wakes, unless it is a caller, which waits for its reply, or a
/// corpse, which is dead. A capability it had along stays with it, and no later message takes it
/// along.
pub fn ipc_recv(m: &mut Machine, cpu: usize, ep: u64) -> (r: Option<[u64; 5]>)
    requires
        old(m).wf(),
        cpu < MAX_CPUS,
        old(m)@.may_block(cpu as int),
    ensures
        final(m).wf(),
        old(m).same_room(*final(m)),
        old(m)@.settled(final(m)@),
        final(m)@ == old(m)@.received(cpu as int, ep),
        match r {
            Some(words) => old(m)@.recv_result(ep) == Some(words@),
            None => old(m)@.recv_result(ep) is None,
        },
{
    let ghost c = cpu as int;
    proof {
        rendezvous::lemma_recv(m@, c, ep);
        if m@.endpoints.contains_key(ep) {
            rendezvous::lemma_meets(m@, ep);
        }
    }
    let me: Tid = m.cpus[cpu].current;
    let met = match m.endpoint_mut(ep) {
        Some(e) => e.recv(me),
        None => {
            set_ipc_aborted(m, me);
            let none = [0, 0, 0, 0, 0];
            assert(none@ =~= crate::thread::no_words());
            return Some(none);
        },
    };
    match met {
        Recv::Signal => {
            let one = [1, 0, 0, 0, 0];
            assert(one@ =~= rendezvous::signal_words());
            Some(one)
        },
        Recv::FromSender(sender) => {
            let (words, stays) = match m.thread(sender) {
                Some(t) => (
                    t.mailbox,
                    (t.carries_cap && crate::cap::carries_reply(&t.outgoing_cap)) || t.state
                        == State::Dead,
                ),
                None => ([0, 0, 0, 0, 0], true),
            };
            if !stays {
                super::wake(m, cpu, sender);
            }
            Some(words)
        },
        Recv::Blocked => {
            if let Some(t) = m.thread_mut(me) {
                t.state = State::Blocked;
                t.wants_cap = false;
            }
            None
        },
    }
}

/// What a thread finds in its mailbox when it runs again after a rendezvous blocked it.
pub fn mailbox(m: &Machine, cpu: usize) -> (r: Option<[u64; 5]>)
    requires
        m.wf(),
        cpu < MAX_CPUS,
    ensures
        match r {
            Some(words) => {
                &&& m@.threads.contains_key(m@.current(cpu as int))
                &&& words@ == m@.threads[m@.current(cpu as int)].mailbox
            },
            None => !m@.threads.contains_key(m@.current(cpu as int)),
        },
{
    match m.thread(m.cpus[cpu].current) {
        Some(t) => Some(t.mailbox),
        None => None,
    }
}

/// File `cap` in `tid`'s table and leave `head`, the slot and `tail` in its mailbox. The slot is
/// [`NO_CAP`], and the capability is dropped, if the table is full.
fn hand(m: &mut Machine, tid: Tid, head: u64, cap: Cap, tail: u64)
    requires
        old(m).sane(),
        old(m)@.threads.contains_key(tid),
    ensures
        super::steady(*old(m), *final(m)),
        final(m)@ == old(m)@.handed(tid, head, cap, tail),
{
    if let Some(t) = m.thread_mut(tid) {
        let ghost before = t.cspace@;
        proof {
            crate::cap::lemma_free_slot(before, 0);
        }
        let slot: u64 = match t.cspace.insert(cap) {
            Ok(slot) => slot,
            Err(_) => NO_CAP,
        };
        t.mailbox = [head, slot, tail, 0, 0];
        assert(t.mailbox@ =~= seq![head, crate::cap::inserted_slot(before), tail, 0u64, 0u64]);
    }
}

/// **Send a data word and a capability to an endpoint.** As [`ipc_send`], and at the moment the two
/// meet the capability moves into the receiver's table. A full table drops it: the receiver sees
/// [`NO_CAP`] and still gets the word.
pub fn ipc_send_cap(m: &mut Machine, cpu: usize, ep: u64, data: u64, cap: Cap) -> (block: bool)
    requires
        old(m).wf(),
        cpu < MAX_CPUS,
        old(m)@.may_block(cpu as int),
    ensures
        final(m).wf(),
        old(m).same_room(*final(m)),
        old(m)@.settled(final(m)@),
        final(m)@ == old(m)@.sent_cap(cpu as int, ep, data, cap),
        block == old(m)@.send_blocks(ep),
{
    let ghost c = cpu as int;
    proof {
        rendezvous::lemma_send_cap(m@, c, ep, data, cap);
        laws::lemma_homes_of_a_sender(m@, c, ep, data, cap);
        if m@.endpoints.contains_key(ep) {
            rendezvous::lemma_meets(m@, ep);
        }
    }
    let me: Tid = m.cpus[cpu].current;
    let met = match m.endpoint_mut(ep) {
        Some(e) => e.send(me),
        None => {
            set_ipc_aborted(m, me);
            return false;
        },
    };
    match met {
        Send::Rendezvous(receiver) => {
            hand(m, receiver, data, cap, 0);
            super::wake(m, cpu, receiver);
            false
        },
        Send::Blocked => {
            if let Some(t) = m.thread_mut(me) {
                t.mailbox = [data, 0, 0, 0, 0];
                t.outgoing_cap = Some(cap);
                t.carries_cap = true;
                t.state = State::Blocked;
                assert(t.mailbox@ =~= seq![data, 0u64, 0u64, 0u64, 0u64]);
            }
            true
        },
    }
}

/// Take the capability `tid`'s message carries, if it carries one. Nothing is parked there any more
/// either way.
fn take_outgoing(m: &mut Machine, tid: Tid) -> (cap: Option<Cap>)
    requires
        old(m).sane(),
        old(m)@.threads.contains_key(tid),
    ensures
        super::steady(*old(m), *final(m)),
        cap == old(m)@.threads[tid].carried(),
        final(m)@ == old(m)@.with_thread(
            tid,
            TView { outgoing_cap: None, ..old(m)@.threads[tid] },
        ),
{
    match m.thread_mut(tid) {
        Some(t) => {
            let cap = if t.carries_cap {
                t.outgoing_cap
            } else {
                None
            };
            t.outgoing_cap = None;
            cap
        },
        None => None,
    }
}

/// File `cap` in `tid`'s table and say where, or [`NO_CAP`] if it is full.
fn file_cap(m: &mut Machine, tid: Tid, cap: Cap) -> (slot: u64)
    requires
        old(m).sane(),
        old(m)@.threads.contains_key(tid),
    ensures
        super::steady(*old(m), *final(m)),
        slot == crate::cap::inserted_slot(old(m)@.threads[tid].cspace),
        final(m)@ == old(m)@.with_thread(
            tid,
            TView {
                cspace: crate::cap::with_inserted(old(m)@.threads[tid].cspace, cap),
                ..old(m)@.threads[tid]
            },
        ),
{
    proof {
        crate::cap::lemma_free_slot(m@.threads[tid].cspace, 0);
    }
    match m.thread_mut(tid) {
        Some(t) => match t.cspace.insert(cap) {
            Ok(slot) => slot,
            Err(_) => NO_CAP,
        },
        None => NO_CAP,
    }
}

/// **Receive a message and the capability that comes with it**, if one does: the first word, the
/// slot it was filed in (or [`NO_CAP`]), and the second word. `None` when there was nothing: the
/// same three words are in the thread's mailbox once it runs again. As [`ipc_recv`] otherwise, and a
/// caller, whose capability is the one-shot reply naming it, stays blocked until it is answered.
pub fn ipc_recv_cap(m: &mut Machine, cpu: usize, ep: u64) -> (r: Option<[u64; 3]>)
    requires
        old(m).wf(),
        cpu < MAX_CPUS,
        old(m)@.may_block(cpu as int),
    ensures
        final(m).wf(),
        old(m).same_room(*final(m)),
        old(m)@.settled(final(m)@),
        final(m)@ == old(m)@.received_cap(cpu as int, ep),
        match r {
            Some(words) => old(m)@.recv_cap_result(cpu as int, ep) == Some(words@),
            None => old(m)@.recv_cap_result(cpu as int, ep) is None,
        },
{
    let ghost c = cpu as int;
    proof {
        rendezvous::lemma_recv_cap(m@, c, ep);
        if m@.endpoints.contains_key(ep) {
            rendezvous::lemma_meets(m@, ep);
        }
    }
    let me: Tid = m.cpus[cpu].current;
    let met = match m.endpoint_mut(ep) {
        Some(e) => e.recv(me),
        None => {
            set_ipc_aborted(m, me);
            let none = [0, 0, 0];
            assert(none@ =~= seq![0u64, 0u64, 0u64]);
            return Some(none);
        },
    };
    match met {
        Recv::Signal => {
            let one = [1, NO_CAP, 0];
            assert(one@ =~= seq![1u64, NO_CAP, 0u64]);
            Some(one)
        },
        Recv::FromSender(sender) => {
            let words = match m.thread(sender) {
                Some(t) => t.mailbox,
                None => [0, 0, 0, 0, 0],
            };
            let cap = take_outgoing(m, sender);
            let is_reply = crate::cap::carries_reply(&cap);
            let slot: u64 = match cap {
                Some(k) => file_cap(m, me, k),
                None => NO_CAP,
            };
            if !is_reply {
                super::wake(m, cpu, sender);
            }
            let out = [words[0], slot, words[1]];
            assert(out@ =~= seq![words[0], slot, words[1]]);
            Some(out)
        },
        Recv::Blocked => {
            if let Some(t) = m.thread_mut(me) {
                t.state = State::Blocked;
                t.wants_cap = true;
            }
            None
        },
    }
}

/// **Call: send two words and wait for the answer.** A one-shot reply capability naming the caller
/// goes to the server, and the caller is blocked until it is used, whether or not a server was
/// waiting. `false`, and the call aborted, if the name does not resolve.
#[verifier::rlimit(40)]
pub fn ipc_call(m: &mut Machine, cpu: usize, ep: u64, msg: [u64; 2]) -> (block: bool)
    requires
        old(m).wf(),
        cpu < MAX_CPUS,
        old(m)@.may_block(cpu as int),
    ensures
        final(m).wf(),
        old(m).same_room(*final(m)),
        old(m)@.settled(final(m)@),
        final(m)@ == old(m)@.called(cpu as int, ep, msg@),
        block == old(m)@.endpoints.contains_key(ep),
{
    let ghost c = cpu as int;
    proof {
        rendezvous::lemma_call(m@, c, ep, msg@);
        if m@.endpoints.contains_key(ep) {
            rendezvous::lemma_meets(m@, ep);
        }
    }
    let me: Tid = m.cpus[cpu].current;
    let reply = crate::cap::reply_cap(me);
    let met = match m.endpoint_mut(ep) {
        Some(e) => e.send(me),
        None => {
            set_ipc_aborted(m, me);
            return false;
        },
    };
    match met {
        Send::Rendezvous(receiver) => {
            hand(m, receiver, msg[0], reply, msg[1]);
            super::wake(m, cpu, receiver);
        },
        Send::Blocked => {
            if let Some(t) = m.thread_mut(me) {
                t.mailbox = [msg[0], msg[1], 0, 0, 0];
                t.outgoing_cap = Some(reply);
                t.carries_cap = true;
                assert(t.mailbox@ =~= seq![msg[0], msg[1], 0u64, 0u64, 0u64]);
            }
        },
    }
    if let Some(t) = m.thread_mut(me) {
        t.state = State::Blocked;
    }
    true
}

/// **Reply: two words for a blocked caller, which wakes.** A caller that is gone gets nothing. The
/// caller must not be parked on an endpoint: the capability that names it is handed over only once
/// it has left the queue.
pub fn ipc_reply(m: &mut Machine, cpu: usize, caller: Tid, msg: [u64; 2])
    requires
        old(m).wf(),
        cpu < MAX_CPUS,
        !old(m)@.parked(caller),
    ensures
        final(m).wf(),
        old(m).same_room(*final(m)),
        old(m)@.settled(final(m)@),
        final(m)@ == old(m)@.replied(cpu as int, caller, msg@),
{
    proof {
        rendezvous::lemma_reply(m@, cpu as int, caller, msg@);
    }
    match m.thread_mut(caller) {
        Some(t) => {
            t.mailbox = [msg[0], msg[1], 0, 0, 0];
            assert(t.mailbox@ =~= seq![msg[0], msg[1], 0u64, 0u64, 0u64]);
        },
        None => {
            return ;
        },
    }
    super::wake(m, cpu, caller);
}

/// Deliver a corpse's message to the endpoint that supervises it.
fn deliver_death(m: &mut Machine, cpu: usize, corpse: Tid, ep: u64, msg: [u64; 5])
    requires
        old(m).sane(),
        cpu < MAX_CPUS,
        old(m)@.endpoints.contains_key(ep) ==> (old(m)@.endpoints[ep].on_send() matches
            Send::Rendezvous(r) ==> old(m)@.threads.contains_key(r)),
    ensures
        super::steady(*old(m), *final(m)),
        final(m)@ == old(m)@.death_delivered(cpu as int, corpse, ep, msg@),
{
    let met = match m.endpoint_mut(ep) {
        Some(e) => e.send(corpse),
        None => {
            return ;
        },
    };
    match met {
        Send::Rendezvous(receiver) => {
            if let Some(t) = m.thread_mut(receiver) {
                t.deliver(msg);
            }
            super::wake(m, cpu, receiver);
        },
        Send::Blocked => {},
    }
}

/// **A thread's last act.** Unsupervised, it is finished, and collected once the core has left it.
/// Supervised, it becomes a corpse that keeps its five-word message and reports it. The core has to
/// go elsewhere either way.
fn depart(m: &mut Machine, cpu: usize, event: u64, pc: u64, addr: u64)
    requires
        old(m).wf(),
        cpu < MAX_CPUS,
        old(m)@.may_block(cpu as int),
    ensures
        final(m).wf(),
        old(m).same_room(*final(m)),
        old(m)@.settled(final(m)@),
        final(m)@ == old(m)@.departed(cpu as int, event, pc, addr),
{
    let ghost c = cpu as int;
    let current: Tid = m.cpus[cpu].current;
    proof {
        rendezvous::lemma_depart(m@, c, event, pc, addr);
        if let Some(ep) = m@.threads[current].fault_ep {
            if m@.endpoints.contains_key(ep) {
                rendezvous::lemma_meets(m@, ep);
            }
        }
    }
    let fault_ep = match m.thread(current) {
        Some(t) => t.fault_ep,
        None => None,
    };
    match fault_ep {
        None => {
            if let Some(t) = m.thread_mut(current) {
                t.state = State::Finished;
            }
        },
        Some(ep) => {
            let msg = [event, current, pc, addr, 0];
            assert(msg@ =~= seq![event, current, pc, addr, 0u64]);
            if let Some(t) = m.thread_mut(current) {
                t.fault_msg = Some(msg);
                t.mailbox = msg;
                t.carries_cap = false;
                t.state = State::Dead;
            }
            deliver_death(m, cpu, current, ep, msg);
        },
    }
}

/// The running thread exited cleanly.
pub fn exit(m: &mut Machine, cpu: usize, abi: FaultAbi)
    requires
        old(m).wf(),
        cpu < MAX_CPUS,
        old(m)@.may_block(cpu as int),
    ensures
        final(m).wf(),
        old(m).same_room(*final(m)),
        old(m)@.settled(final(m)@),
        final(m)@ == old(m)@.departed(cpu as int, abi.event_exit, 0, 0),
{
    depart(m, cpu, abi.event_exit, 0, 0);
}

/// The running thread did something it may not, at `pc` and about address `addr`, and is killed.
pub fn fault(m: &mut Machine, cpu: usize, abi: FaultAbi, pc: u64, addr: u64)
    requires
        old(m).wf(),
        cpu < MAX_CPUS,
        old(m)@.may_block(cpu as int),
    ensures
        final(m).wf(),
        old(m).same_room(*final(m)),
        old(m)@.settled(final(m)@),
        final(m)@ == old(m)@.departed(cpu as int, abi.event_fault, pc, addr),
{
    depart(m, cpu, abi.event_fault, pc, addr);
}

/// Was the running thread's last rendezvous called off? Asking clears the mark.
pub fn take_ipc_aborted(m: &mut Machine, cpu: usize) -> (aborted: bool)
    requires
        old(m).wf(),
        cpu < MAX_CPUS,
    ensures
        final(m).wf(),
        old(m).same_room(*final(m)),
        old(m)@.settled(final(m)@),
        ({
            let me = old(m)@.current(cpu as int);
            if old(m)@.threads.contains_key(me) {
                &&& aborted == old(m)@.threads[me].ipc_aborted
                &&& final(m)@ == old(m)@.with_thread(
                    me,
                    TView { ipc_aborted: false, ..old(m)@.threads[me] },
                )
            } else {
                !aborted && final(m)@ == old(m)@
            }
        }),
{
    let me: Tid = m.cpus[cpu].current;
    proof {
        if m@.threads.contains_key(me) {
            steps::lemma_plain_threads(m@, me);
            steps::lemma_plain(m@, me, TView { ipc_aborted: false, ..m@.threads[me] });
        }
    }
    match m.thread_mut(me) {
        Some(t) => {
            let aborted = t.ipc_aborted;
            t.ipc_aborted = false;
            aborted
        },
        None => false,
    }
}

} // verus!
