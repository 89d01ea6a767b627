//! What a rendezvous does to the two threads that meet.
use vstd::prelude::*;

use crate::cap::{Cap, Tid, CSPACE_SLOTS, NO_CAP};
use crate::cpu::NO_TID;
use crate::ipc::{EpView, Recv, Send};
use crate::model;
use crate::model::steps;
use crate::model::{MView, Place};
use crate::thread::{State, TView};

verus! {

/// A three-word message in the five-word mailbox.
pub open spec fn wide(m: Seq<u64>) -> Seq<u64> {
    seq![m[0], m[1], m[2], 0u64, 0u64]
}

/// What a signal looks like to a plain receiver.
pub open spec fn signal_words() -> Seq<u64> {
    seq![1u64, 0u64, 0u64, 0u64, 0u64]
}

impl MView {
    /// The thread core `c` runs.
    pub open spec fn current(self, c: int) -> Tid {
        self.cpus[c].current
    }

    /// May the thread on core `c` block? It must be there, running, and not the idle thread, which
    /// always has to be able to run.
    pub open spec fn may_block(self, c: int) -> bool {
        &&& self.threads.contains_key(self.current(c))
        &&& self.threads[self.current(c)].state == State::Running
        &&& !self.is_idle(self.current(c))
    }

    /// `tid`'s rendezvous is called off.
    pub open spec fn aborted(self, tid: Tid) -> MView {
        if self.threads.contains_key(tid) {
            self.with_thread(tid, TView { ipc_aborted: true, ..self.threads[tid] })
        } else {
            self
        }
    }

    /// The thread on core `c` sends the five words `msg` to `ep`. A waiting receiver finds them in
    /// its mailbox and wakes, and one that asked for a capability finds that none came; with nobody
    /// waiting, the sender keeps the words in its own and blocks. A stale name aborts the send.
    pub open spec fn sent(self, c: int, ep: u64, msg: Seq<u64>) -> MView {
        let me = self.current(c);
        if !self.endpoints.contains_key(ep) {
            self.aborted(me)
        } else {
            let m = self.with_ep(ep, self.endpoints[ep].after_send(me));
            match self.endpoints[ep].on_send() {
                Send::Rendezvous(r) => m.with_thread(r, m.threads[r].delivered(msg)).woken(c, r),
                Send::Blocked => m.with_thread(
                    me,
                    TView {
                        mailbox: msg,
                        carries_cap: false,
                        state: State::Blocked,
                        ..m.threads[me]
                    },
                ),
            }
        }
    }

    /// Does a send to `ep` block?
    pub open spec fn send_blocks(self, ep: u64) -> bool {
        self.endpoints.contains_key(ep) && self.endpoints[ep].on_send() == Send::Blocked
    }

    /// Must a sender stay as it is once its words are taken? A caller waits for its reply, and a
    /// corpse is dead.
    pub open spec fn stays_put(self, s: Tid) -> bool {
        crate::cap::is_reply(self.threads[s].carried()) || self.threads[s].state == State::Dead
    }

    /// The thread on core `c` receives from `ep`, words only: a capability the sender has along stays
    /// with the sender, and no later message takes it along.
    pub open spec fn received(self, c: int, ep: u64) -> MView {
        let me = self.current(c);
        if !self.endpoints.contains_key(ep) {
            self.aborted(me)
        } else {
            let m = self.with_ep(ep, self.endpoints[ep].after_recv(me));
            match self.endpoints[ep].on_recv() {
                Recv::Signal => m,
                Recv::FromSender(s) => if self.stays_put(s) {
                    m
                } else {
                    m.woken(c, s)
                },
                Recv::Blocked => m.with_thread(
                    me,
                    TView { state: State::Blocked, wants_cap: false, ..m.threads[me] },
                ),
            }
        }
    }

    /// What that receive returns at once; `None` if it blocks instead.
    pub open spec fn recv_result(self, ep: u64) -> Option<Seq<u64>> {
        if !self.endpoints.contains_key(ep) {
            Some(crate::thread::no_words())
        } else {
            match self.endpoints[ep].on_recv() {
                Recv::Signal => Some(signal_words()),
                Recv::FromSender(s) => Some(self.threads[s].mailbox),
                Recv::Blocked => None,
            }
        }
    }

    /// `tid` after `cap` was filed in its table and `head`, the slot and `tail` in its mailbox.
    pub open spec fn handed(self, tid: Tid, head: u64, cap: Cap, tail: u64) -> MView {
        let t = self.threads[tid];
        self.with_thread(
            tid,
            TView {
                cspace: crate::cap::with_inserted(t.cspace, cap),
                mailbox: seq![head, crate::cap::inserted_slot(t.cspace), tail, 0u64, 0u64],
                ..t
            },
        )
    }

    /// The thread on core `c` sends `data` and `cap` to `ep`.
    pub open spec fn sent_cap(self, c: int, ep: u64, data: u64, cap: Cap) -> MView {
        let me = self.current(c);
        if !self.endpoints.contains_key(ep) {
            self.aborted(me)
        } else {
            let m = self.with_ep(ep, self.endpoints[ep].after_send(me));
            match self.endpoints[ep].on_send() {
                Send::Rendezvous(r) => m.handed(r, data, cap, 0).woken(c, r),
                Send::Blocked => m.with_thread(
                    me,
                    TView {
                        mailbox: seq![data, 0u64, 0u64, 0u64, 0u64],
                        outgoing_cap: Some(cap),
                        carries_cap: true,
                        state: State::Blocked,
                        ..m.threads[me]
                    },
                ),
            }
        }
    }

    /// The thread on core `c` receives from `ep`, with whatever capability comes along.
    pub open spec fn received_cap(self, c: int, ep: u64) -> MView {
        let me = self.current(c);
        if !self.endpoints.contains_key(ep) {
            self.aborted(me)
        } else {
            let m = self.with_ep(ep, self.endpoints[ep].after_recv(me));
            match self.endpoints[ep].on_recv() {
                Recv::Signal => m,
                Recv::FromSender(s) => {
                    let cap = self.threads[s].carried();
                    let m1 = m.with_thread(s, TView { outgoing_cap: None, ..m.threads[s] });
                    let m2 = match cap {
                        Some(k) => m1.with_thread(
                            me,
                            TView {
                                cspace: crate::cap::with_inserted(m1.threads[me].cspace, k),
                                ..m1.threads[me]
                            },
                        ),
                        None => m1,
                    };
                    if crate::cap::is_reply(cap) {
                        m2
                    } else {
                        m2.woken(c, s)
                    }
                },
                Recv::Blocked => m.with_thread(
                    me,
                    TView { state: State::Blocked, wants_cap: true, ..m.threads[me] },
                ),
            }
        }
    }

    /// What that receive returns at once; `None` if it blocks instead.
    pub open spec fn recv_cap_result(self, c: int, ep: u64) -> Option<Seq<u64>> {
        if !self.endpoints.contains_key(ep) {
            Some(seq![0u64, 0u64, 0u64])
        } else {
            match self.endpoints[ep].on_recv() {
                Recv::Signal => Some(seq![1u64, NO_CAP, 0u64]),
                Recv::FromSender(s) => {
                    let msg = self.threads[s].mailbox;
                    let slot = if self.threads[s].carried() is Some {
                        crate::cap::inserted_slot(self.threads[self.current(c)].cspace)
                    } else {
                        NO_CAP
                    };
                    Some(seq![msg[0], slot, msg[1]])
                },
                Recv::Blocked => None,
            }
        }
    }

    /// The thread on core `c` calls `ep` with two words: a send that always blocks, with a reply
    /// capability naming the caller on its way to the server.
    pub open spec fn called(self, c: int, ep: u64, msg: Seq<u64>) -> MView {
        let me = self.current(c);
        if !self.endpoints.contains_key(ep) {
            self.aborted(me)
        } else {
            let m = self.with_ep(ep, self.endpoints[ep].after_send(me));
            let reply = crate::cap::reply_to(me);
            let m1 = match self.endpoints[ep].on_send() {
                Send::Rendezvous(r) => m.handed(r, msg[0], reply, msg[1]).woken(c, r),
                Send::Blocked => m.with_thread(
                    me,
                    TView {
                        mailbox: seq![msg[0], msg[1], 0u64, 0u64, 0u64],
                        outgoing_cap: Some(reply),
                        carries_cap: true,
                        ..m.threads[me]
                    },
                ),
            };
            m1.with_thread(me, TView { state: State::Blocked, ..m1.threads[me] })
        }
    }

    /// `caller` gets its two-word reply and wakes. A caller that is gone gets nothing.
    pub open spec fn replied(self, c: int, caller: Tid, msg: Seq<u64>) -> MView {
        if self.threads.contains_key(caller) {
            self.with_thread(
                caller,
                TView {
                    mailbox: seq![msg[0], msg[1], 0u64, 0u64, 0u64],
                    ..self.threads[caller]
                },
            ).woken(c, caller)
        } else {
            self
        }
    }

    /// The thread on core `c` is done. Unsupervised, it is finished. Supervised, it is a corpse
    /// that keeps its five-word message and reports it to its supervisor: handed over if one is
    /// waiting, parked on the endpoint if none is, dropped if the endpoint is gone.
    pub open spec fn departed(self, c: int, event: u64, pc: u64, addr: u64) -> MView {
        let me = self.current(c);
        let t = self.threads[me];
        match t.fault_ep {
            None => self.with_thread(me, TView { state: State::Finished, ..t }),
            Some(ep) => {
                let msg = seq![event, me, pc, addr, 0u64];
                self.with_thread(
                    me,
                    TView {
                        fault_msg: Some(msg),
                        mailbox: msg,
                        carries_cap: false,
                        state: State::Dead,
                        ..t
                    },
                ).death_delivered(c, me, ep, msg)
            },
        }
    }

    /// The delivery of `corpse`'s message.
    pub open spec fn death_delivered(self, c: int, corpse: Tid, ep: u64, msg: Seq<u64>) -> MView {
        if !self.endpoints.contains_key(ep) {
            self
        } else {
            let m = self.with_ep(ep, self.endpoints[ep].after_send(corpse));
            match self.endpoints[ep].on_send() {
                Send::Rendezvous(r) => m.with_thread(r, m.threads[r].delivered(msg)).woken(c, r),
                Send::Blocked => m,
            }
        }
    }

    /// Core `here` wakes `tid` onto core `target`.
    pub open spec fn woken_on(self, here: int, target: int, tid: Tid) -> MView {
        if self.threads.contains_key(tid) && self.threads[tid].state == State::Blocked {
            let t = self.threads[tid];
            if t.on_cpu {
                self.with_thread(tid, TView { wake_pending: true, ..t })
            } else {
                self.with_thread(tid, TView { state: State::Ready, ..t }).placed(here, target, tid)
            }
        } else {
            self
        }
    }

    /// An interrupt bound to `ep` fires on core `here`: a waiting receiver finds a one in its
    /// mailbox, and no capability if it asked for one, and wakes on core `target`; with nobody
    /// waiting, the signal is counted.
    pub open spec fn notified(self, here: int, target: int, ep: u64) -> MView {
        if !self.endpoints.contains_key(ep) {
            self
        } else {
            let m = self.with_ep(ep, self.endpoints[ep].after_signal());
            match self.endpoints[ep].on_signal() {
                Some(r) => m.with_thread(r, m.threads[r].delivered(signal_words())).woken_on(
                    here,
                    target,
                    r,
                ),
                None => m,
            }
        }
    }
}

/// An endpoint's queues and count change, and nobody moves.
proof fn lemma_ep_count(a: MView, e: u64, ep: EpView)
    requires
        a.inv(),
        a.endpoints.contains_key(e),
        ep.senders == a.endpoints[e].senders,
        ep.receivers == a.endpoints[e].receivers,
        ep.one_sided(),
    ensures
        a.with_ep(e, ep).inv(),
{
    reveal(MView::inv);
    let b = a.with_ep(e, ep);
    assert forall|p: Place| #[trigger] b.queue(p) == a.queue(p) by {}
    assert forall|p: Place, i: int|
        #![trigger a.queue(p)[i]]
        0 <= i < a.queue(p).len() implies b.threads.contains_key(a.queue(p)[i]) && b.fits(
        p,
        b.threads[a.queue(p)[i]],
    ) by {
        assert(a.fits(p, a.threads[a.queue(p)[i]]));
    }
    steps::lemma_queues_kept(a, b);
    lemma_ep_frame(a, b);
    assert(b.ep_pages.dom() =~= b.endpoints.dom());
}

/// An endpoint's state says nothing about the cores.
pub proof fn lemma_ep_frame(a: MView, b: MView)
    requires
        a.inv(),
        b == (MView { endpoints: b.endpoints, ..a }),
    ensures
        b.cores_ok(),
        b.idles_ok(),
        b.threads_ok(),
{
    reveal(MView::inv);
    assert forall|c: int, t: Tid| #[trigger] b.holds_core(c, t) <==> a.holds_core(c, t) by {}
    assert forall|t: Tid| #[trigger] b.threads.contains_key(t) implies (b.threads[t].on_cpu
        <==> exists|c: int| #[trigger] b.holds_core(c, t)) by {
        assert(a.threads.contains_key(t));
        if a.threads[t].on_cpu {
            let c = choose|c: int| #[trigger] a.holds_core(c, t);
            assert(b.holds_core(c, t));
        }
        if exists|c: int| #[trigger] b.holds_core(c, t) {
            let c = choose|c: int| #[trigger] b.holds_core(c, t);
            assert(a.holds_core(c, t));
        }
    }
    assert forall|c: int, d: int, t: Tid|
        #![trigger b.holds_core(c, t), b.holds_core(d, t)]
        t != NO_TID && b.holds_core(c, t) && b.holds_core(d, t) implies c == d by {
        assert(a.holds_core(c, t) && a.holds_core(d, t));
    }
    assert forall|c: int| 0 <= c < b.cpus.len() && (#[trigger] b.cpus[c]).idle != NO_TID implies ({
        let t = b.threads[b.cpus[c].idle];
        &&& b.threads.contains_key(b.cpus[c].idle)
        &&& t.state == State::Ready || t.state == State::Running
        &&& !t.killed
        &&& t.on_cpu ==> b.holds_core(c, t.id)
    }) by {
        let i = b.threads[b.cpus[c].idle].id;
        assert(b.holds_core(c, i) <==> a.holds_core(c, i));
    }
}

/// The first receiver leaves the queue. It stands nowhere then, blocked as it was.
proof fn lemma_pop_receiver(a: MView, e: u64)
    requires
        a.inv(),
        a.endpoints.contains_key(e),
        a.endpoints[e].receivers.len() > 0,
    ensures
        ({
            let ep = a.endpoints[e];
            let r = ep.receivers[0];
            let b = a.with_ep(e, EpView { receivers: ep.receivers.skip(1), ..ep });
            &&& b.inv()
            &&& a.threads.contains_key(r)
            &&& a.threads[r].state == State::Blocked
            &&& !a.threads[r].wake_pending
            &&& !b.queued(r)
            &&& !b.parked(r)
        }),
{
    reveal(MView::inv);
    let ep = a.endpoints[e];
    let r = ep.receivers[0];
    let b = a.with_ep(e, EpView { receivers: ep.receivers.skip(1), ..ep });
    let from = Place::Receivers(e);
    assert(a.queue(from)[0] == r);
    assert(a.fits(from, a.threads[r]));
    assert forall|p: Place| #[trigger] b.queue(p) == model::moved(a, r, Some(from), None, p) by {}
    assert(b.threads =~= a.threads.insert(r, b.threads[r]));
    assert forall|p: Place, i: int|
        #![trigger a.queue(p)[i]]
        0 <= i < a.queue(p).len() && a.queue(p)[i] != r implies b.fits(
        p,
        a.threads[a.queue(p)[i]],
    ) by {
        assert(a.fits(p, a.threads[a.queue(p)[i]]));
    }
    model::lemma_move(a, b, r, Some(from), None);
    lemma_ep_frame(a, b);
    assert(b.ep_pages.dom() =~= b.endpoints.dom());
    lemma_gone(a, b, r, from);
}

/// The first sender leaves the queue. It stands nowhere then, blocked or dead as it was.
proof fn lemma_pop_sender(a: MView, e: u64)
    requires
        a.inv(),
        a.endpoints.contains_key(e),
        a.endpoints[e].senders.len() > 0,
    ensures
        ({
            let ep = a.endpoints[e];
            let s = ep.senders[0];
            let b = a.with_ep(e, EpView { senders: ep.senders.skip(1), ..ep });
            &&& b.inv()
            &&& a.threads.contains_key(s)
            &&& a.threads[s].state == State::Blocked || a.threads[s].state == State::Dead
            &&& !a.threads[s].wake_pending
            &&& !b.queued(s)
            &&& !b.parked(s)
        }),
{
    reveal(MView::inv);
    let ep = a.endpoints[e];
    let s = ep.senders[0];
    let b = a.with_ep(e, EpView { senders: ep.senders.skip(1), ..ep });
    let from = Place::Senders(e);
    assert(a.queue(from)[0] == s);
    assert(a.fits(from, a.threads[s]));
    assert forall|p: Place| #[trigger] b.queue(p) == model::moved(a, s, Some(from), None, p) by {}
    assert(b.threads =~= a.threads.insert(s, b.threads[s]));
    assert forall|p: Place, i: int|
        #![trigger a.queue(p)[i]]
        0 <= i < a.queue(p).len() && a.queue(p)[i] != s implies b.fits(
        p,
        a.threads[a.queue(p)[i]],
    ) by {
        assert(a.fits(p, a.threads[a.queue(p)[i]]));
    }
    model::lemma_move(a, b, s, Some(from), None);
    lemma_ep_frame(a, b);
    assert(b.ep_pages.dom() =~= b.endpoints.dom());
    lemma_gone(a, b, s, from);
}

/// The head of a queue that left it stands nowhere.
proof fn lemma_gone(a: MView, b: MView, tid: Tid, from: Place)
    requires
        a.queues_apart(),
        a.queue(from).len() > 0,
        a.queue(from)[0] == tid,
        forall|p: Place| #[trigger] b.queue(p) == model::moved(a, tid, Some(from), None, p),
    ensures
        !b.queued(tid),
        !b.parked(tid),
{
    if b.queued(tid) {
        let (p, i) = choose|p: Place, i: int|
            0 <= i < b.queue(p).len() && #[trigger] b.queue(p)[i] == tid;
        let k = if p == from {
            i + 1
        } else {
            i
        };
        assert(b.queue(p) == model::moved(a, tid, Some(from), None, p));
        assert(a.queue(p)[k] == tid);
        assert(p == from && k == 0);
    }
    if b.parked(tid) {
        let (p, i) = choose|p: Place, i: int|
            (p is Senders || p is Receivers) && 0 <= i < b.queue(p).len() && #[trigger] b.queue(
                p,
            )[i] == tid;
        assert(b.queue(p)[i] == tid);
        assert(b.queued(tid));
    }
}

/// A thread that stands nowhere joins an endpoint's senders.
proof fn lemma_park_sender(a: MView, e: u64, tid: Tid, t: TView)
    requires
        a.inv(),
        a.endpoints.contains_key(e),
        a.endpoints[e].receivers.len() == 0,
        a.threads.contains_key(tid),
        !a.queued(tid),
        !a.is_idle(tid),
        t.id == tid,
        t.on_cpu == a.threads[tid].on_cpu,
        !t.wake_pending,
        t.state == State::Blocked || (t.state == State::Dead && t.fault_ep == Some(e)),
        t.cspace.len() == CSPACE_SLOTS,
        t.mailbox.len() == 5,
    ensures
        a.with_ep(
            e,
            EpView { senders: a.endpoints[e].senders.push(tid), ..a.endpoints[e] },
        ).with_thread(tid, t).inv(),
{
    reveal(MView::inv);
    let ep = EpView { senders: a.endpoints[e].senders.push(tid), ..a.endpoints[e] };
    let b = a.with_ep(e, ep).with_thread(tid, t);
    let to = Place::Senders(e);
    assert forall|p: Place| #[trigger] b.queue(p) == model::moved(a, tid, None, Some(to), p) by {}
    assert forall|p: Place, i: int|
        #![trigger a.queue(p)[i]]
        0 <= i < a.queue(p).len() && a.queue(p)[i] != tid implies b.fits(
        p,
        a.threads[a.queue(p)[i]],
    ) by {
        assert(a.fits(p, a.threads[a.queue(p)[i]]));
    }
    model::lemma_move(a, b, tid, None, Some(to));
    steps::lemma_cores_kept(a, b, tid);
    assert(b.ep_pages.dom() =~= b.endpoints.dom());
    assert(b.threads.dom() =~= a.threads.dom());
}

/// A thread that stands nowhere joins an endpoint's receivers.
proof fn lemma_park_receiver(a: MView, e: u64, tid: Tid, t: TView)
    requires
        a.inv(),
        a.endpoints.contains_key(e),
        a.endpoints[e].senders.len() == 0,
        a.endpoints[e].pending == 0,
        a.threads.contains_key(tid),
        !a.queued(tid),
        !a.is_idle(tid),
        t.id == tid,
        t.on_cpu == a.threads[tid].on_cpu,
        !t.wake_pending,
        t.state == State::Blocked,
        t.cspace.len() == CSPACE_SLOTS,
        t.mailbox.len() == 5,
    ensures
        a.with_ep(
            e,
            EpView { receivers: a.endpoints[e].receivers.push(tid), ..a.endpoints[e] },
        ).with_thread(tid, t).inv(),
{
    reveal(MView::inv);
    let ep = EpView { receivers: a.endpoints[e].receivers.push(tid), ..a.endpoints[e] };
    let b = a.with_ep(e, ep).with_thread(tid, t);
    let to = Place::Receivers(e);
    assert forall|p: Place| #[trigger] b.queue(p) == model::moved(a, tid, None, Some(to), p) by {}
    assert forall|p: Place, i: int|
        #![trigger a.queue(p)[i]]
        0 <= i < a.queue(p).len() && a.queue(p)[i] != tid implies b.fits(
        p,
        a.threads[a.queue(p)[i]],
    ) by {
        assert(a.fits(p, a.threads[a.queue(p)[i]]));
    }
    model::lemma_move(a, b, tid, None, Some(to));
    steps::lemma_cores_kept(a, b, tid);
    assert(b.ep_pages.dom() =~= b.endpoints.dom());
    assert(b.threads.dom() =~= a.threads.dom());
}

/// A plain change to a thread moves nobody.
pub proof fn lemma_plain_stays(a: MView, tid: Tid, t: TView, x: Tid)
    requires
        a.threads.contains_key(tid),
    ensures
        a.with_thread(tid, t).queued(x) <==> a.queued(x),
        a.with_thread(tid, t).parked(x) <==> a.parked(x),
        a.with_thread(tid, t).is_idle(x) <==> a.is_idle(x),
{
    let b = a.with_thread(tid, t);
    assert forall|p: Place| #[trigger] b.queue(p) == a.queue(p) by {}
    model::lemma_idle_same(a, b);
    if a.queued(x) {
        let (p, i) = choose|p: Place, i: int|
            0 <= i < a.queue(p).len() && #[trigger] a.queue(p)[i] == x;
        assert(b.queue(p)[i] == x);
    }
    if b.queued(x) {
        let (p, i) = choose|p: Place, i: int|
            0 <= i < b.queue(p).len() && #[trigger] b.queue(p)[i] == x;
        assert(a.queue(p)[i] == x);
    }
    if a.parked(x) {
        let (p, i) = choose|p: Place, i: int|
            (p is Senders || p is Receivers) && 0 <= i < a.queue(p).len() && #[trigger] a.queue(
                p,
            )[i] == x;
        assert(b.queue(p)[i] == x);
    }
    if b.parked(x) {
        let (p, i) = choose|p: Place, i: int|
            (p is Senders || p is Receivers) && 0 <= i < b.queue(p).len() && #[trigger] b.queue(
                p,
            )[i] == x;
        assert(a.queue(p)[i] == x);
    }
}

/// Handing words to a thread that stands nowhere and waking it.
proof fn lemma_handover(a: MView, c: int, tid: Tid, t: TView)
    requires
        a.inv(),
        0 <= c < a.cpus.len(),
        a.threads.contains_key(tid),
        a.threads[tid].state == State::Blocked,
        !a.parked(tid),
        steps::plain_change(a, tid, t),
    ensures
        a.with_thread(tid, t).woken(c, tid).inv(),
{
    reveal(MView::inv);
    steps::lemma_plain(a, tid, t);
    lemma_plain_stays(a, tid, t, tid);
    steps::lemma_wake(a.with_thread(tid, t), c, tid);
}

/// Calling off a rendezvous keeps the discipline.
pub proof fn lemma_abort(a: MView, tid: Tid)
    requires
        a.inv(),
    ensures
        a.aborted(tid).inv(),
{
    reveal(MView::inv);
    if a.threads.contains_key(tid) {
        steps::lemma_plain(a, tid, TView { ipc_aborted: true, ..a.threads[tid] });
    }
}

/// Sending keeps the discipline.
pub proof fn lemma_send(a: MView, c: int, ep: u64, msg: Seq<u64>)
    requires
        a.inv(),
        0 <= c < a.cpus.len(),
        a.may_block(c),
        msg.len() == 5,
    ensures
        a.sent(c, ep, msg).inv(),
{
    reveal(MView::inv);
    let me = a.current(c);
    lemma_abort(a, me);
    if a.endpoints.contains_key(ep) {
        let e = a.endpoints[ep];
        let m = a.with_ep(ep, e.after_send(me));
        steps::lemma_active_not_queued(a, me);
        if e.receivers.len() > 0 {
            let r = e.receivers[0];
            lemma_pop_receiver(a, ep);
            lemma_handover(m, c, r, m.threads[r].delivered(msg));
        } else {
            lemma_park_sender(
                a,
                ep,
                me,
                TView {
                    mailbox: msg,
                    carries_cap: false,
                    state: State::Blocked,
                    ..a.threads[me]
                },
            );
        }
    }
}

/// Receiving keeps the discipline.
pub proof fn lemma_recv(a: MView, c: int, ep: u64)
    requires
        a.inv(),
        0 <= c < a.cpus.len(),
        a.may_block(c),
    ensures
        a.received(c, ep).inv(),
{
    reveal(MView::inv);
    let me = a.current(c);
    lemma_abort(a, me);
    if a.endpoints.contains_key(ep) {
        let e = a.endpoints[ep];
        let m = a.with_ep(ep, e.after_recv(me));
        steps::lemma_active_not_queued(a, me);
        if e.pending > 0 {
            lemma_ep_count(a, ep, e.after_recv(me));
        } else if e.senders.len() > 0 {
            let s = e.senders[0];
            lemma_pop_sender(a, ep);
            steps::lemma_wake(m, c, s);
        } else {
            lemma_park_receiver(
                a,
                ep,
                me,
                TView { state: State::Blocked, wants_cap: false, ..a.threads[me] },
            );
        }
    }
}

/// Sending a capability keeps the discipline.
pub proof fn lemma_send_cap(a: MView, c: int, ep: u64, data: u64, cap: Cap)
    requires
        a.inv(),
        0 <= c < a.cpus.len(),
        a.may_block(c),
    ensures
        a.sent_cap(c, ep, data, cap).inv(),
{
    reveal(MView::inv);
    let me = a.current(c);
    lemma_abort(a, me);
    if a.endpoints.contains_key(ep) {
        let e = a.endpoints[ep];
        let m = a.with_ep(ep, e.after_send(me));
        steps::lemma_active_not_queued(a, me);
        if e.receivers.len() > 0 {
            let r = e.receivers[0];
            lemma_pop_receiver(a, ep);
            crate::cap::lemma_free_slot(m.threads[r].cspace, 0);
            lemma_handover(m, c, r, m.handed(r, data, cap, 0).threads[r]);
        } else {
            lemma_park_sender(
                a,
                ep,
                me,
                TView {
                    mailbox: seq![data, 0u64, 0u64, 0u64, 0u64],
                    outgoing_cap: Some(cap),
                    carries_cap: true,
                    state: State::Blocked,
                    ..a.threads[me]
                },
            );
        }
    }
}

/// Receiving with a capability keeps the discipline.
pub proof fn lemma_recv_cap(a: MView, c: int, ep: u64)
    requires
        a.inv(),
        0 <= c < a.cpus.len(),
        a.may_block(c),
    ensures
        a.received_cap(c, ep).inv(),
{
    reveal(MView::inv);
    let me = a.current(c);
    lemma_abort(a, me);
    if a.endpoints.contains_key(ep) {
        let e = a.endpoints[ep];
        let m = a.with_ep(ep, e.after_recv(me));
        steps::lemma_active_not_queued(a, me);
        if e.pending > 0 {
            lemma_ep_count(a, ep, e.after_recv(me));
        } else if e.senders.len() > 0 {
            let s = e.senders[0];
            let cap = a.threads[s].carried();
            lemma_pop_sender(a, ep);
            let t1 = TView { outgoing_cap: None, ..m.threads[s] };
            steps::lemma_plain(m, s, t1);
            lemma_plain_stays(m, s, t1, s);
            let m1 = m.with_thread(s, t1);
            match cap {
                Some(k) => {
                    let t2 = TView {
                        cspace: crate::cap::with_inserted(m1.threads[me].cspace, k),
                        ..m1.threads[me]
                    };
                    assert(m1.threads.contains_key(me));
                    crate::cap::lemma_free_slot(m1.threads[me].cspace, 0);
                    steps::lemma_plain(m1, me, t2);
                    lemma_plain_stays(m1, me, t2, s);
                    steps::lemma_wake(m1.with_thread(me, t2), c, s);
                },
                None => {
                    steps::lemma_wake(m1, c, s);
                },
            }
        } else {
            lemma_park_receiver(
                a,
                ep,
                me,
                TView { state: State::Blocked, wants_cap: true, ..a.threads[me] },
            );
        }
    }
}

/// Waking somebody else leaves a running thread where it was, and as it was.
proof fn lemma_wake_others(a: MView, c: int, r: Tid, me: Tid)
    requires
        a.inv(),
        0 <= c < a.cpus.len(),
        !a.parked(r),
        r != me,
        a.threads.contains_key(me),
        a.threads[me].state == State::Running,
    ensures
        a.woken(c, r).threads.contains_key(me),
        a.woken(c, r).threads[me] == a.threads[me],
        !a.woken(c, r).queued(me),
        a.woken(c, r).is_idle(me) <==> a.is_idle(me),
{
    reveal(MView::inv);
    let b = a.woken(c, r);
    steps::lemma_wake(a, c, r);
    steps::lemma_active_not_queued(b, me);
    assert forall|d: int| 0 <= d < a.cpus.len() implies (#[trigger] b.cpus[d]).idle
        == a.cpus[d].idle by {}
    model::lemma_idle_same(a, b);
}

/// Calling keeps the discipline.
pub proof fn lemma_call(a: MView, c: int, ep: u64, msg: Seq<u64>)
    requires
        a.inv(),
        0 <= c < a.cpus.len(),
        a.may_block(c),
        msg.len() == 2,
    ensures
        a.called(c, ep, msg).inv(),
{
    reveal(MView::inv);
    let me = a.current(c);
    lemma_abort(a, me);
    if a.endpoints.contains_key(ep) {
        let e = a.endpoints[ep];
        let m = a.with_ep(ep, e.after_send(me));
        let reply = crate::cap::reply_to(me);
        steps::lemma_active_not_queued(a, me);
        if e.receivers.len() > 0 {
            let r = e.receivers[0];
            lemma_pop_receiver(a, ep);
            assert(r != me);
            let h = m.handed(r, msg[0], reply, msg[1]);
            crate::cap::lemma_free_slot(m.threads[r].cspace, 0);
            steps::lemma_plain(m, r, h.threads[r]);
            lemma_plain_stays(m, r, h.threads[r], r);
            steps::lemma_wake(h, c, r);
            model::lemma_idle_same(a, h);
            lemma_wake_others(h, c, r, me);
            let m1 = h.woken(c, r);
            steps::lemma_unqueued(m1, me, TView { state: State::Blocked, ..m1.threads[me] });
        } else {
            let t = TView {
                mailbox: seq![msg[0], msg[1], 0u64, 0u64, 0u64],
                outgoing_cap: Some(reply),
                carries_cap: true,
                state: State::Blocked,
                ..a.threads[me]
            };
            lemma_park_sender(a, ep, me, t);
            assert(a.called(c, ep, msg).threads =~= m.with_thread(me, t).threads);
            assert(a.called(c, ep, msg) =~= m.with_thread(me, t));
        }
    }
}

/// Replying keeps the discipline, as long as the caller is parked on no endpoint.
pub proof fn lemma_reply(a: MView, c: int, caller: Tid, msg: Seq<u64>)
    requires
        a.inv(),
        0 <= c < a.cpus.len(),
        !a.parked(caller),
    ensures
        a.replied(c, caller, msg).inv(),
{
    reveal(MView::inv);
    if a.threads.contains_key(caller) {
        let t = TView {
            mailbox: seq![msg[0], msg[1], 0u64, 0u64, 0u64],
            ..a.threads[caller]
        };
        steps::lemma_plain(a, caller, t);
        lemma_plain_stays(a, caller, t, caller);
        steps::lemma_wake(a.with_thread(caller, t), c, caller);
    }
}

/// Dying keeps the discipline.
pub proof fn lemma_depart(a: MView, c: int, event: u64, pc: u64, addr: u64)
    requires
        a.inv(),
        0 <= c < a.cpus.len(),
        a.may_block(c),
    ensures
        a.departed(c, event, pc, addr).inv(),
{
    reveal(MView::inv);
    let me = a.current(c);
    let t = a.threads[me];
    steps::lemma_active_not_queued(a, me);
    match t.fault_ep {
        None => {
            steps::lemma_unqueued(a, me, TView { state: State::Finished, ..t });
        },
        Some(ep) => {
            let msg = seq![event, me, pc, addr, 0u64];
            let dead = TView {
                fault_msg: Some(msg),
                mailbox: msg,
                carries_cap: false,
                state: State::Dead,
                ..t
            };
            let b = a.with_thread(me, dead);
            steps::lemma_unqueued(a, me, dead);
            lemma_plain_stays(a, me, dead, me);
            if b.endpoints.contains_key(ep) {
                let e = b.endpoints[ep];
                let m = b.with_ep(ep, e.after_send(me));
                if e.receivers.len() > 0 {
                    let r = e.receivers[0];
                    lemma_pop_receiver(b, ep);
                    lemma_handover(m, c, r, m.threads[r].delivered(msg));
                } else {
                    lemma_park_sender(b, ep, me, dead);
                    assert(m.with_thread(me, dead).threads =~= m.threads);
                    assert(m.with_thread(me, dead) =~= m);
                }
            }
        },
    }
}

/// An interrupt keeps the discipline.
pub proof fn lemma_notify(a: MView, here: int, target: int, ep: u64)
    requires
        a.inv(),
        0 <= here < a.cpus.len(),
        0 <= target < a.cpus.len(),
    ensures
        a.notified(here, target, ep).inv(),
{
    reveal(MView::inv);
    if a.endpoints.contains_key(ep) {
        let e = a.endpoints[ep];
        let m = a.with_ep(ep, e.after_signal());
        if e.receivers.len() > 0 {
            let r = e.receivers[0];
            lemma_pop_receiver(a, ep);
            let t = m.threads[r].delivered(signal_words());
            steps::lemma_plain(m, r, t);
            lemma_plain_stays(m, r, t, r);
            let b = m.with_thread(r, t);
            steps::lemma_blocked_not_idle(b, r);
            if t.on_cpu {
                steps::lemma_unqueued(b, r, TView { wake_pending: true, ..t });
            } else if here == target {
                steps::lemma_ready_on_run(b, target, r, TView { state: State::Ready, ..t });
            } else {
                steps::lemma_ready_in_inbox(b, target, r, TView { state: State::Ready, ..t });
            }
        } else {
            lemma_ep_count(a, ep, e.after_signal());
        }
    }
}


/// Whoever a rendezvous meets is a thread, and not the one that came to meet it.
pub proof fn lemma_meets(a: MView, e: u64)
    requires
        a.inv(),
        a.endpoints.contains_key(e),
    ensures
        a.endpoints[e].on_send() matches Send::Rendezvous(r) ==> a.threads.contains_key(r)
            && a.threads[r].state == State::Blocked,
        a.endpoints[e].on_recv() matches Recv::FromSender(s) ==> a.threads.contains_key(s) && (
        a.threads[s].state == State::Blocked || a.threads[s].state == State::Dead),
        a.endpoints[e].on_signal() matches Some(r) ==> a.threads.contains_key(r)
            && a.threads[r].state == State::Blocked,
{
    reveal(MView::inv);
    if a.endpoints[e].receivers.len() > 0 {
        let r = a.queue(Place::Receivers(e))[0];
        assert(a.fits(Place::Receivers(e), a.threads[r]));
    }
    if a.endpoints[e].senders.len() > 0 {
        let s = a.queue(Place::Senders(e))[0];
        assert(a.fits(Place::Senders(e), a.threads[s]));
    }
}

} // verus!
