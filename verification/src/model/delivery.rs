//! What every rendezvous delivers, and to whom: who wakes, with which words, holding what, who waits
//! where, and that nobody else notices.
use vstd::prelude::*;

use crate::cap::{Cap, Object, Rights, Tid};
use crate::cpu::CpuView;
use crate::ipc::EpView;
use crate::model::rendezvous;
use crate::model::MView;
use crate::thread::{State, TView};

verus! {

/// Nobody came or went, and every thread but `x` and `y` is as it was.
pub open spec fn others_kept(a: MView, b: MView, x: Tid, y: Tid) -> bool {
    &&& forall|t: Tid| #[trigger] b.threads.contains_key(t) <==> a.threads.contains_key(t)
    &&& forall|t: Tid| #[trigger]
        a.threads.contains_key(t) && t != x && t != y ==> b.threads[t] == a.threads[t]
}

/// No endpoint came or went, and every endpoint but `ep` is as it was.
pub open spec fn other_endpoints_kept(a: MView, b: MView, ep: u64) -> bool {
    &&& forall|e: u64| #[trigger] b.endpoints.contains_key(e) <==> a.endpoints.contains_key(e)
    &&& forall|e: u64| #[trigger]
        a.endpoints.contains_key(e) && e != ep ==> b.endpoints[e] == a.endpoints[e]
}

/// Apart from threads, endpoints and cores, nothing changed.
pub open spec fn rest_kept(a: MView, b: MView) -> bool {
    b == (MView { threads: b.threads, endpoints: b.endpoints, cpus: b.cpus, ..a })
}

/// Every core is as it was, but for the run queue of core `c`, which `tid` joined at the back.
pub open spec fn joined_run_queue(a: MView, b: MView, c: int, tid: Tid) -> bool {
    &&& b.cpus.len() == a.cpus.len()
    &&& forall|d: int| 0 <= d < a.cpus.len() && d != c ==> #[trigger] b.cpus[d] == a.cpus[d]
    &&& b.cpus[c] == (CpuView { runq: a.cpus[c].runq.push(tid), ..a.cpus[c] })
}

/// Every core is as it was, but for the inbox of core `c`, which `tid` joined at the back.
pub open spec fn joined_inbox(a: MView, b: MView, c: int, tid: Tid) -> bool {
    &&& b.cpus.len() == a.cpus.len()
    &&& forall|d: int| 0 <= d < a.cpus.len() && d != c ==> #[trigger] b.cpus[d] == a.cpus[d]
    &&& b.cpus[c] == (CpuView { inbox: a.cpus[c].inbox.push(tid), ..a.cpus[c] })
}

/// `tid`, which was blocked, will run again: it is ready and last on core `c`'s run queue; or, if a
/// core is still on it, the wake is noted for that core to complete. No core changed otherwise.
pub open spec fn roused(a: MView, b: MView, c: int, tid: Tid) -> bool {
    let (t, u) = (a.threads[tid], b.threads[tid]);
    &&& u.on_cpu == t.on_cpu
    &&& if t.on_cpu {
        &&& u.state == State::Blocked
        &&& u.wake_pending
        &&& b.cpus == a.cpus
    } else {
        &&& u.state == State::Ready
        &&& u.wake_pending == t.wake_pending
        &&& joined_run_queue(a, b, c, tid)
    }
}

/// `u` is `t` with these words and this table, and whatever a wake changes.
pub open spec fn given(t: TView, u: TView, words: Seq<u64>, cspace: Seq<Option<Cap>>) -> bool {
    u == (TView {
        state: u.state,
        wake_pending: u.wake_pending,
        mailbox: words,
        cspace,
        ..t
    })
}

/// `after` is the table `before` with `cap` in its lowest empty slot, whose number `slot` is. A full
/// table is as it was, and `slot` says that there is none.
pub open spec fn filed(
    before: Seq<Option<Cap>>,
    after: Seq<Option<Cap>>,
    cap: Cap,
    slot: u64,
) -> bool {
    if forall|i: int| 0 <= i < before.len() ==> #[trigger] before[i] is Some {
        slot == u64::MAX && after == before
    } else {
        &&& slot < before.len()
        &&& before[slot as int] is None
        &&& forall|i: int| 0 <= i < slot ==> #[trigger] before[i] is Some
        &&& after == before.update(slot as int, Some(cap))
    }
}

/// The words a thread finds that are not accompanied by a capability: as they are, or, if it asked
/// for a capability, the first, the sign that there is none, and the second.
pub open spec fn plain_words(asked: bool, msg: Seq<u64>) -> Seq<u64> {
    if asked {
        seq![msg[0], u64::MAX, msg[1], 0u64, 0u64]
    } else {
        msg
    }
}

/// Is the thread's message a call, with the capability to answer it along?
pub open spec fn calling(t: TView) -> bool {
    t.carries_cap && match t.outgoing_cap {
        Some(k) => k.object is Reply,
        None => false,
    }
}

/// Nobody noticed anything but that the thread's rendezvous is marked as called off.
pub open spec fn only_told_off(a: MView, b: MView, me: Tid) -> bool {
    &&& rest_kept(a, b)
    &&& b.cpus == a.cpus
    &&& b.endpoints == a.endpoints
    &&& others_kept(a, b, me, me)
    &&& b.threads[me] == (TView { ipc_aborted: true, ..a.threads[me] })
}

/// A table's lowest empty slot is the one that is filled.
pub proof fn lemma_filed(s: Seq<Option<Cap>>, cap: Cap)
    requires
        s.len() < u64::MAX,
    ensures
        filed(s, crate::cap::with_inserted(s, cap), cap, crate::cap::inserted_slot(s)),
{
    crate::cap::lemma_free_slot(s, 0);
    if crate::cap::free_slot(s, 0) < s.len() {
        assert(s[crate::cap::free_slot(s, 0)] is None);
    }
}

/// **What sending words does.** Whoever has waited longest to receive has them, and will run again;
/// the sender goes on. With nobody waiting the sender waits, last in the queue, with the words. A
/// name that does not resolve is an error, and nobody waits.
pub proof fn law_what_sending_does(a: MView, c: int, ep: u64, msg: Seq<u64>)
    requires
        a.inv(),
        0 <= c < a.cpus.len(),
        a.may_block(c),
        msg.len() == 5,
    ensures
        ({
            let me = a.current(c);
            let b = a.sent(c, ep, msg);
            let e = a.endpoints[ep];
            &&& !a.endpoints.contains_key(ep) ==> only_told_off(a, b, me) && !a.send_blocks(ep)
            &&& a.endpoints.contains_key(ep) && e.receivers.len() > 0 ==> {
                let r = e.receivers[0];
                &&& !a.send_blocks(ep)
                &&& rest_kept(a, b)
                &&& others_kept(a, b, r, r)
                &&& other_endpoints_kept(a, b, ep)
                &&& b.endpoints[ep] == (EpView { receivers: e.receivers.skip(1), ..e })
                &&& roused(a, b, c, r)
                &&& given(
                    a.threads[r],
                    b.threads[r],
                    plain_words(a.threads[r].wants_cap, msg),
                    a.threads[r].cspace,
                )
            }
            &&& a.endpoints.contains_key(ep) && e.receivers.len() == 0 ==> {
                &&& a.send_blocks(ep)
                &&& rest_kept(a, b)
                &&& others_kept(a, b, me, me)
                &&& other_endpoints_kept(a, b, ep)
                &&& b.cpus == a.cpus
                &&& b.endpoints[ep] == (EpView { senders: e.senders.push(me), ..e })
                &&& b.threads[me] == (TView {
                    state: State::Blocked,
                    mailbox: msg,
                    carries_cap: false,
                    ..a.threads[me]
                })
            }
        }),
{
    if a.endpoints.contains_key(ep) {
        rendezvous::lemma_meets(a, ep);
    }
}

/// **What sending a capability does.** Whoever has waited longest to receive will run again, with the
/// word, the slot and a zero in its mailbox and the capability in that slot, which was its lowest
/// empty one; the sender goes on. With nobody waiting the sender waits with both.
pub proof fn law_what_sending_a_capability_does(a: MView, c: int, ep: u64, data: u64, cap: Cap)
    requires
        a.inv(),
        0 <= c < a.cpus.len(),
        a.may_block(c),
    ensures
        ({
            let me = a.current(c);
            let b = a.sent_cap(c, ep, data, cap);
            let e = a.endpoints[ep];
            &&& !a.endpoints.contains_key(ep) ==> only_told_off(a, b, me) && !a.send_blocks(ep)
            &&& a.endpoints.contains_key(ep) && e.receivers.len() > 0 ==> {
                let r = e.receivers[0];
                let slot = b.threads[r].mailbox[1];
                &&& !a.send_blocks(ep)
                &&& rest_kept(a, b)
                &&& others_kept(a, b, r, r)
                &&& other_endpoints_kept(a, b, ep)
                &&& b.endpoints[ep] == (EpView { receivers: e.receivers.skip(1), ..e })
                &&& b.awake(r)
                &&& roused(a, b, c, r)
                &&& filed(a.threads[r].cspace, b.threads[r].cspace, cap, slot)
                &&& given(
                    a.threads[r],
                    b.threads[r],
                    seq![data, slot, 0u64, 0u64, 0u64],
                    b.threads[r].cspace,
                )
            }
            &&& a.endpoints.contains_key(ep) && e.receivers.len() == 0 ==> {
                &&& a.send_blocks(ep)
                &&& rest_kept(a, b)
                &&& others_kept(a, b, me, me)
                &&& other_endpoints_kept(a, b, ep)
                &&& b.cpus == a.cpus
                &&& b.endpoints[ep] == (EpView { senders: e.senders.push(me), ..e })
                &&& b.threads[me] == (TView {
                    state: State::Blocked,
                    mailbox: seq![data, 0u64, 0u64, 0u64, 0u64],
                    outgoing_cap: Some(cap),
                    carries_cap: true,
                    ..a.threads[me]
                })
            }
        }),
{
    if a.endpoints.contains_key(ep) {
        rendezvous::lemma_meets(a, ep);
        if a.endpoints[ep].receivers.len() > 0 {
            let r = a.endpoints[ep].receivers[0];
            lemma_tables(a, r);
            lemma_filed(a.threads[r].cspace, cap);
            let m = a.with_ep(ep, a.endpoints[ep].after_send(a.current(c)));
            lemma_roused(m.handed(r, data, cap, 0), c, r);
        }
    }
}

/// Every thread has a table of the one size, and a mailbox.
proof fn lemma_tables(a: MView, tid: Tid)
    requires
        a.inv(),
        a.threads.contains_key(tid),
    ensures
        a.threads[tid].cspace.len() == crate::cap::CSPACE_SLOTS,
        a.threads[tid].mailbox.len() == 5,
{
    reveal(MView::inv);
}

/// Waking rouses.
proof fn lemma_roused(a: MView, c: int, tid: Tid)
    requires
        0 <= c < a.cpus.len(),
        a.threads.contains_key(tid),
        a.threads[tid].state == State::Blocked,
    ensures
        roused(a, a.woken(c, tid), c, tid),
        a.woken(c, tid).awake(tid),
{
    let b = a.woken(c, tid);
    if !a.threads[tid].on_cpu {
        let p = crate::model::Place::Run(c);
        let n = a.cpus[c].runq.len() as int;
        assert(b.queue(p)[n] == tid);
    }
}

/// **What receiving words does.** A signal that waits is taken. Else the words of whoever has waited
/// longest to send are, and it will run again; but a caller waits on for its answer, and a corpse
/// stays dead. With nothing there the receiver waits, last in the queue, for words alone. A name that
/// does not resolve is an error, and gives zeroes.
pub proof fn law_what_receiving_does(a: MView, c: int, ep: u64)
    requires
        a.inv(),
        0 <= c < a.cpus.len(),
        a.may_block(c),
    ensures
        ({
            let me = a.current(c);
            let b = a.received(c, ep);
            let e = a.endpoints[ep];
            let got = a.recv_result(ep);
            &&& !a.endpoints.contains_key(ep) ==> {
                &&& only_told_off(a, b, me)
                &&& got == Some(seq![0u64, 0u64, 0u64, 0u64, 0u64])
            }
            &&& a.endpoints.contains_key(ep) ==> rest_kept(a, b) && other_endpoints_kept(a, b, ep)
            &&& a.endpoints.contains_key(ep) && e.pending > 0 ==> {
                &&& b.threads == a.threads
                &&& b.cpus == a.cpus
                &&& b.endpoints[ep] == (EpView { pending: (e.pending - 1) as u64, ..e })
                &&& got == Some(seq![1u64, 0u64, 0u64, 0u64, 0u64])
            }
            &&& a.endpoints.contains_key(ep) && e.pending == 0 && e.senders.len() > 0 ==> {
                let s = e.senders[0];
                let t = a.threads[s];
                &&& got == Some(t.mailbox)
                &&& b.endpoints[ep] == (EpView { senders: e.senders.skip(1), ..e })
                &&& others_kept(a, b, s, s)
                &&& if calling(t) || t.state == State::Dead {
                    b.threads[s] == t && b.cpus == a.cpus
                } else {
                    roused(a, b, c, s) && given(t, b.threads[s], t.mailbox, t.cspace)
                }
            }
            &&& a.endpoints.contains_key(ep) && e.pending == 0 && e.senders.len() == 0 ==> {
                &&& got is None
                &&& b.endpoints[ep] == (EpView { receivers: e.receivers.push(me), ..e })
                &&& b.cpus == a.cpus
                &&& others_kept(a, b, me, me)
                &&& b.threads[me] == (TView {
                    state: State::Blocked,
                    wants_cap: false,
                    ..a.threads[me]
                })
            }
        }),
{
    if a.endpoints.contains_key(ep) {
        rendezvous::lemma_meets(a, ep);
    }
}

/// **What receiving with a capability does.** As receiving words; and the capability that comes with
/// the message, if one does, is in the receiver's lowest empty slot, which the second word names. The
/// sender has it no more.
pub proof fn law_what_receiving_a_capability_does(a: MView, c: int, ep: u64)
    requires
        a.inv(),
        0 <= c < a.cpus.len(),
        a.may_block(c),
    ensures
        ({
            let me = a.current(c);
            let b = a.received_cap(c, ep);
            let e = a.endpoints[ep];
            let got = a.recv_cap_result(c, ep);
            &&& !a.endpoints.contains_key(ep) ==> {
                &&& only_told_off(a, b, me)
                &&& got == Some(seq![0u64, 0u64, 0u64])
            }
            &&& a.endpoints.contains_key(ep) ==> rest_kept(a, b) && other_endpoints_kept(a, b, ep)
            &&& a.endpoints.contains_key(ep) && e.pending > 0 ==> {
                &&& b.threads == a.threads
                &&& b.cpus == a.cpus
                &&& b.endpoints[ep] == (EpView { pending: (e.pending - 1) as u64, ..e })
                &&& got == Some(seq![1u64, u64::MAX, 0u64])
            }
            &&& a.endpoints.contains_key(ep) && e.pending == 0 && e.senders.len() > 0 ==> {
                let s = e.senders[0];
                let t = a.threads[s];
                let words = got->0;
                &&& got is Some
                &&& words.len() == 3
                &&& words[0] == t.mailbox[0]
                &&& words[2] == t.mailbox[1]
                &&& b.endpoints[ep] == (EpView { senders: e.senders.skip(1), ..e })
                &&& others_kept(a, b, s, me)
                &&& b.threads[me] == (TView { cspace: b.threads[me].cspace, ..a.threads[me] })
                &&& match t.outgoing_cap {
                    Some(k) if t.carries_cap => filed(
                        a.threads[me].cspace,
                        b.threads[me].cspace,
                        k,
                        words[1],
                    ),
                    _ => words[1] == u64::MAX && b.threads[me].cspace == a.threads[me].cspace,
                }
                &&& if calling(t) || t.state == State::Dead {
                    b.threads[s] == (TView { outgoing_cap: None, ..t }) && b.cpus == a.cpus
                } else {
                    &&& roused(a, b, c, s)
                    &&& given(
                        TView { outgoing_cap: None, ..t },
                        b.threads[s],
                        t.mailbox,
                        t.cspace,
                    )
                }
            }
            &&& a.endpoints.contains_key(ep) && e.pending == 0 && e.senders.len() == 0 ==> {
                &&& got is None
                &&& b.endpoints[ep] == (EpView { receivers: e.receivers.push(me), ..e })
                &&& b.cpus == a.cpus
                &&& others_kept(a, b, me, me)
                &&& b.threads[me] == (TView {
                    state: State::Blocked,
                    wants_cap: true,
                    ..a.threads[me]
                })
            }
        }),
{
    if a.endpoints.contains_key(ep) {
        rendezvous::lemma_meets(a, ep);
        let e = a.endpoints[ep];
        let me = a.current(c);
        if e.pending == 0 && e.senders.len() > 0 {
            let s = e.senders[0];
            let t = a.threads[s];
            lemma_tables(a, me);
            assert(s != me);
            let m = a.with_ep(ep, e.after_recv(me));
            let m1 = m.with_thread(s, TView { outgoing_cap: None, ..m.threads[s] });
            if let Some(k) = t.carried() {
                lemma_filed(a.threads[me].cspace, k);
                let m2 = m1.with_thread(
                    me,
                    TView {
                        cspace: crate::cap::with_inserted(m1.threads[me].cspace, k),
                        ..m1.threads[me]
                    },
                );
                if !crate::cap::is_reply(t.carried()) && t.state == State::Blocked {
                    lemma_roused(m2, c, s);
                }
                assert(m2.woken(c, s).threads[me] == m2.threads[me]);
            } else {
                if t.state == State::Blocked {
                    lemma_roused(m1, c, s);
                }
                assert(m1.woken(c, s).threads[me] == m1.threads[me]);
            }
        }
    }
}

/// **What calling does.** A server that waits will run again, with the first word, the slot and the
/// second word in its mailbox, and in that slot the one capability that answers this caller and
/// cannot be passed on. With no server waiting the words and that capability wait with the caller.
/// Either way the caller is blocked, and stands in line only if no server was there.
pub proof fn law_what_calling_does(a: MView, c: int, ep: u64, msg: Seq<u64>)
    requires
        a.inv(),
        0 <= c < a.cpus.len(),
        a.may_block(c),
        msg.len() == 2,
    ensures
        ({
            let me = a.current(c);
            let b = a.called(c, ep, msg);
            let e = a.endpoints[ep];
            let reply = Cap {
                object: Object::Reply(me),
                rights: Rights { read: false, write: true, grant: false },
            };
            &&& !a.endpoints.contains_key(ep) ==> only_told_off(a, b, me)
            &&& a.endpoints.contains_key(ep) ==> rest_kept(a, b) && other_endpoints_kept(a, b, ep)
            &&& a.endpoints.contains_key(ep) && e.receivers.len() > 0 ==> {
                let r = e.receivers[0];
                let slot = b.threads[r].mailbox[1];
                &&& others_kept(a, b, r, me)
                &&& b.endpoints[ep] == (EpView { receivers: e.receivers.skip(1), ..e })
                &&& roused(a, b, c, r)
                &&& filed(a.threads[r].cspace, b.threads[r].cspace, reply, slot)
                &&& given(
                    a.threads[r],
                    b.threads[r],
                    seq![msg[0], slot, msg[1], 0u64, 0u64],
                    b.threads[r].cspace,
                )
                &&& b.threads[me] == (TView { state: State::Blocked, ..a.threads[me] })
            }
            &&& a.endpoints.contains_key(ep) && e.receivers.len() == 0 ==> {
                &&& others_kept(a, b, me, me)
                &&& b.cpus == a.cpus
                &&& b.endpoints[ep] == (EpView { senders: e.senders.push(me), ..e })
                &&& b.threads[me] == (TView {
                    state: State::Blocked,
                    mailbox: seq![msg[0], msg[1], 0u64, 0u64, 0u64],
                    outgoing_cap: Some(reply),
                    carries_cap: true,
                    ..a.threads[me]
                })
            }
        }),
{
    if a.endpoints.contains_key(ep) {
        rendezvous::lemma_meets(a, ep);
        let me = a.current(c);
        let e = a.endpoints[ep];
        if e.receivers.len() > 0 {
            let r = e.receivers[0];
            assert(r != me);
            lemma_tables(a, r);
            lemma_filed(a.threads[r].cspace, crate::cap::reply_to(me));
            let m = a.with_ep(ep, e.after_send(me));
            let h = m.handed(r, msg[0], crate::cap::reply_to(me), msg[1]);
            lemma_roused(h, c, r);
        }
    }
}

/// **What answering does.** The caller has the two words, and runs again if it was blocked; nobody
/// else notices. A caller that is gone gets nothing, and nothing happens.
pub proof fn law_what_answering_does(a: MView, c: int, caller: Tid, msg: Seq<u64>)
    requires
        0 <= c < a.cpus.len(),
        msg.len() == 2,
    ensures
        ({
            let b = a.replied(c, caller, msg);
            let words = seq![msg[0], msg[1], 0u64, 0u64, 0u64];
            let t = a.threads[caller];
            &&& !a.threads.contains_key(caller) ==> b == a
            &&& a.threads.contains_key(caller) ==> {
                &&& rest_kept(a, b)
                &&& b.endpoints == a.endpoints
                &&& others_kept(a, b, caller, caller)
                &&& if t.state == State::Blocked {
                    roused(a, b, c, caller) && given(t, b.threads[caller], words, t.cspace)
                } else {
                    b.cpus == a.cpus && b.threads[caller] == (TView { mailbox: words, ..t })
                }
            }
        }),
{
}

/// **What dying does.** A thread nobody supervises is finished. One that is supervised is dead, and
/// keeps the event, its name, where it was and what it was about; a supervisor that waits has those
/// words and will run again, and with none waiting the corpse waits on the endpoint, last in the
/// queue. An endpoint that is gone hears nothing.
pub proof fn law_what_dying_does(a: MView, c: int, event: u64, pc: u64, addr: u64)
    requires
        a.inv(),
        0 <= c < a.cpus.len(),
        a.may_block(c),
    ensures
        ({
            let me = a.current(c);
            let t = a.threads[me];
            let b = a.departed(c, event, pc, addr);
            let words = seq![event, me, pc, addr, 0u64];
            let corpse = TView {
                state: State::Dead,
                mailbox: words,
                fault_msg: Some(words),
                carries_cap: false,
                ..t
            };
            &&& rest_kept(a, b)
            &&& t.fault_ep is None ==> {
                &&& others_kept(a, b, me, me)
                &&& b.endpoints == a.endpoints
                &&& b.cpus == a.cpus
                &&& b.threads[me] == (TView { state: State::Finished, ..t })
            }
            &&& t.fault_ep matches Some(ep) ==> {
                let e = a.endpoints[ep];
                &&& b.threads[me] == corpse
                &&& other_endpoints_kept(a, b, ep)
                &&& !a.endpoints.contains_key(ep) ==> {
                    &&& others_kept(a, b, me, me)
                    &&& b.endpoints == a.endpoints
                    &&& b.cpus == a.cpus
                }
                &&& a.endpoints.contains_key(ep) && e.receivers.len() > 0 ==> {
                    let r = e.receivers[0];
                    &&& others_kept(a, b, me, r)
                    &&& b.endpoints[ep] == (EpView { receivers: e.receivers.skip(1), ..e })
                    &&& roused(a, b, c, r)
                    &&& given(
                        a.threads[r],
                        b.threads[r],
                        plain_words(a.threads[r].wants_cap, words),
                        a.threads[r].cspace,
                    )
                }
                &&& a.endpoints.contains_key(ep) && e.receivers.len() == 0 ==> {
                    &&& others_kept(a, b, me, me)
                    &&& b.endpoints[ep] == (EpView { senders: e.senders.push(me), ..e })
                    &&& b.cpus == a.cpus
                }
            }
        }),
{
    if let Some(ep) = a.threads[a.current(c)].fault_ep {
        if a.endpoints.contains_key(ep) {
            rendezvous::lemma_meets(a, ep);
        }
    }
}

/// **What an interrupt does.** A driver that waits has a one in its mailbox, and no slot if it asked
/// for a capability; it runs again, on core `target` unless a core is still on it. With nobody waiting
/// the signal is counted, as far as counting goes. A name that does not resolve hears nothing.
pub proof fn law_what_an_interrupt_does(a: MView, here: int, target: int, ep: u64)
    requires
        a.inv(),
        0 <= here < a.cpus.len(),
        0 <= target < a.cpus.len(),
    ensures
        ({
            let b = a.notified(here, target, ep);
            let e = a.endpoints[ep];
            &&& !a.endpoints.contains_key(ep) ==> b == a
            &&& a.endpoints.contains_key(ep) ==> rest_kept(a, b) && other_endpoints_kept(a, b, ep)
            &&& a.endpoints.contains_key(ep) && e.receivers.len() == 0 ==> {
                &&& b.threads == a.threads
                &&& b.cpus == a.cpus
                &&& b.endpoints[ep].senders == e.senders
                &&& b.endpoints[ep].receivers == e.receivers
                &&& b.endpoints[ep].pending == (if e.pending < u64::MAX {
                    e.pending + 1
                } else {
                    u64::MAX as int
                })
            }
            &&& a.endpoints.contains_key(ep) && e.receivers.len() > 0 ==> {
                let r = e.receivers[0];
                let (t, u) = (a.threads[r], b.threads[r]);
                &&& others_kept(a, b, r, r)
                &&& b.endpoints[ep] == (EpView { receivers: e.receivers.skip(1), ..e })
                &&& given(
                    t,
                    u,
                    plain_words(t.wants_cap, seq![1u64, 0u64, 0u64, 0u64, 0u64]),
                    t.cspace,
                )
                &&& if t.on_cpu {
                    u.wake_pending && u.state == State::Blocked && b.cpus == a.cpus
                } else {
                    &&& u.state == State::Ready
                    &&& u.wake_pending == t.wake_pending
                    &&& if target == here {
                        joined_run_queue(a, b, target, r)
                    } else {
                        joined_inbox(a, b, target, r)
                    }
                }
            }
        }),
{
    if a.endpoints.contains_key(ep) {
        rendezvous::lemma_meets(a, ep);
    }
}

/// The receiver comes first.
proof fn lemma_receiver_first(a: MView, c: int, d: int, ep: u64, data: u64, cap: Cap)
    requires
        a.inv(),
        0 <= c < a.cpus.len(),
        0 <= d < a.cpus.len(),
        a.may_block(c),
        a.may_block(d),
        a.current(d) != a.current(c),
        a.endpoints.contains_key(ep),
        a.endpoints[ep].senders.len() == 0,
        a.endpoints[ep].receivers.len() == 0,
        a.endpoints[ep].pending == 0,
    ensures
        ({
            let (giver, taker) = (a.current(c), a.current(d));
            let b = a.received_cap(d, ep).sent_cap(c, ep, data, cap);
            &&& b.awake(taker)
            &&& b.threads[taker].mailbox == seq![
                data,
                crate::cap::inserted_slot(a.threads[taker].cspace),
                0u64,
                0u64,
                0u64,
            ]
            &&& b.threads[taker].cspace == crate::cap::with_inserted(a.threads[taker].cspace, cap)
            &&& b.threads[giver] == a.threads[giver]
            &&& b.endpoints[ep] == a.endpoints[ep]
        }),
{
    let (giver, taker) = (a.current(c), a.current(d));
    let b = a.received_cap(d, ep);
    assert(b.endpoints[ep].receivers[0] == taker);
    let m = b.with_ep(ep, b.endpoints[ep].after_send(giver));
    let h = m.handed(taker, data, cap, 0);
    lemma_roused(h, c, taker);
    assert(b.sent_cap(c, ep, data, cap) == h.woken(c, taker));
    assert(h.endpoints[ep].receivers =~= a.endpoints[ep].receivers);
    assert(h.endpoints[ep] =~= a.endpoints[ep]);
}

/// The giver comes first.
proof fn lemma_giver_first(a: MView, c: int, d: int, ep: u64, data: u64, cap: Cap)
    requires
        a.inv(),
        0 <= c < a.cpus.len(),
        0 <= d < a.cpus.len(),
        a.may_block(c),
        a.may_block(d),
        a.current(d) != a.current(c),
        a.endpoints.contains_key(ep),
        a.endpoints[ep].senders.len() == 0,
        a.endpoints[ep].receivers.len() == 0,
        a.endpoints[ep].pending == 0,
        !(cap.object is Reply),
    ensures
        ({
            let (giver, taker) = (a.current(c), a.current(d));
            let late = a.sent_cap(c, ep, data, cap);
            let b = late.received_cap(d, ep);
            let slot = crate::cap::inserted_slot(a.threads[taker].cspace);
            &&& late.recv_cap_result(d, ep) == Some(seq![data, slot, 0u64])
            &&& b.threads[taker].cspace == crate::cap::with_inserted(a.threads[taker].cspace, cap)
            &&& b.threads[taker].state == State::Running
            &&& b.awake(giver)
            &&& b.threads[giver].outgoing_cap is None
            &&& b.endpoints[ep] == a.endpoints[ep]
        }),
{
    let (giver, taker) = (a.current(c), a.current(d));
    let e = a.sent_cap(c, ep, data, cap);
    assert(e.endpoints[ep].senders[0] == giver);
    let n = e.with_ep(ep, e.endpoints[ep].after_recv(taker));
    let n1 = n.with_thread(giver, TView { outgoing_cap: None, ..n.threads[giver] });
    let n2 = n1.with_thread(
        taker,
        TView {
            cspace: crate::cap::with_inserted(n1.threads[taker].cspace, cap),
            ..n1.threads[taker]
        },
    );
    lemma_roused(n2, d, giver);
    assert(e.received_cap(d, ep) == n2.woken(d, giver));
    assert(n2.endpoints[ep].senders =~= a.endpoints[ep].senders);
    assert(n2.endpoints[ep] =~= a.endpoints[ep]);
}

/// **A capability and its receiver meet in either order.** With nothing at the endpoint, one thread
/// sends a word and a capability and another receives with a capability. Whoever is first, the
/// receiver has the word, the capability is in the slot its second word names, and both run on.
pub proof fn law_a_capability_and_its_receiver_meet_in_either_order(
    a: MView,
    c: int,
    d: int,
    ep: u64,
    data: u64,
    cap: Cap,
)
    requires
        a.inv(),
        0 <= c < a.cpus.len(),
        0 <= d < a.cpus.len(),
        a.may_block(c),
        a.may_block(d),
        a.current(d) != a.current(c),
        a.endpoints.contains_key(ep),
        a.endpoints[ep].senders.len() == 0,
        a.endpoints[ep].receivers.len() == 0,
        a.endpoints[ep].pending == 0,
        !(cap.object is Reply),
    ensures
        ({
            let (giver, taker) = (a.current(c), a.current(d));
            let first = a.received_cap(d, ep).sent_cap(c, ep, data, cap);
            let late = a.sent_cap(c, ep, data, cap);
            let words = late.recv_cap_result(d, ep);
            let after = late.received_cap(d, ep);
            &&& first.awake(taker)
            &&& first.threads[taker].mailbox[0] == data
            &&& filed(
                a.threads[taker].cspace,
                first.threads[taker].cspace,
                cap,
                first.threads[taker].mailbox[1],
            )
            &&& first.threads[giver] == a.threads[giver]
            &&& first.endpoints[ep] == a.endpoints[ep]
            &&& words == Some(seq![data, first.threads[taker].mailbox[1], 0u64])
            &&& after.threads[taker].cspace == first.threads[taker].cspace
            &&& after.threads[taker].state == State::Running
            &&& after.awake(giver)
            &&& after.threads[giver].outgoing_cap is None
            &&& after.endpoints[ep] == a.endpoints[ep]
        }),
{
    let taker = a.current(d);
    lemma_tables(a, taker);
    lemma_filed(a.threads[taker].cspace, cap);
    lemma_receiver_first(a, c, d, ep, data, cap);
    lemma_giver_first(a, c, d, ep, data, cap);
}

/// **Three words are three words in a wider message, and nothing follows them.**
pub proof fn law_three_words_in_five(m: Seq<u64>, i: int)
    requires
        m.len() == 3,
        0 <= i < 5,
    ensures
        rendezvous::wide(m).len() == 5,
        i < 3 ==> rendezvous::wide(m)[i] == m[i],
        i >= 3 ==> rendezvous::wide(m)[i] == 0,
        rendezvous::wide(m).take(3) == m,
{
    assert(rendezvous::wide(m).take(3) =~= m);
}

/// **What a signal looks like**: a one, and nothing else.
pub proof fn law_what_a_signal_looks_like(i: int)
    requires
        0 <= i < 5,
    ensures
        rendezvous::signal_words().len() == 5,
        rendezvous::signal_words()[i] == (if i == 0 {
            1u64
        } else {
            0
        }),
{
}

/// **What waking does.** A thread that waits will run again: on this core's run queue, or on the inbox
/// of the core it is woken onto, or, while a core is on it, once that core has let go of it. A thread
/// that does not wait is as it was, and so is everybody else.
pub proof fn law_what_waking_does(a: MView, c: int, target: int, tid: Tid)
    requires
        0 <= c < a.cpus.len(),
        0 <= target < a.cpus.len(),
    ensures
        ({
            let b = a.woken(c, tid);
            let d = a.woken_on(c, target, tid);
            let waits = a.threads.contains_key(tid) && a.threads[tid].state == State::Blocked;
            &&& !waits ==> b == a && d == a
            &&& waits ==> {
                &&& rest_kept(a, b) && rest_kept(a, d)
                &&& others_kept(a, b, tid, tid) && others_kept(a, d, tid, tid)
                &&& b.endpoints == a.endpoints && d.endpoints == a.endpoints
                &&& roused(a, b, c, tid)
                &&& b.threads[tid] == d.threads[tid]
                &&& b.threads[tid] == (TView {
                    state: b.threads[tid].state,
                    wake_pending: b.threads[tid].wake_pending,
                    ..a.threads[tid]
                })
                &&& a.threads[tid].on_cpu ==> d.cpus == a.cpus
                &&& !a.threads[tid].on_cpu && target != c ==> joined_inbox(a, d, target, tid)
                &&& !a.threads[tid].on_cpu && target == c ==> joined_run_queue(a, d, c, tid)
            }
        }),
{
}

/// **What filling a table does to its thread, and to nobody else.**
pub proof fn law_whose_table_is_filled(a: MView, c: int, cspace: Seq<Option<Cap>>)
    requires
        a.threads.contains_key(a.current(c)),
    ensures
        ({
            let b = a.with_cspace(c, cspace);
            let me = a.current(c);
            &&& b == (MView { threads: b.threads, ..a })
            &&& others_kept(a, b, me, me)
            &&& b.threads[me] == (TView { cspace, ..a.threads[me] })
        }),
{
}

} // verus!
