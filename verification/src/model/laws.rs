//! What the operations promise together: messages arrive, wakes are not lost, the dead stay dead,
//! and no thread is ever in two places.
use vstd::prelude::*;

use crate::cap::{Cap, Tid, CSPACE_SLOTS, NO_CAP};
use crate::cpu::NO_TID;
use crate::model::rendezvous;
use crate::model::switch;
use crate::model::{MView, Place};
use crate::thread::{State, TView};

verus! {

impl MView {
    /// `tid` will run again without anybody else's help: it stands in a queue for a core, or its
    /// wake is noted and completed once the core it is on has let go of it.
    pub open spec fn awake(self, tid: Tid) -> bool {
        &&& self.threads.contains_key(tid)
        &&& self.threads[tid].wake_pending || (self.threads[tid].state == State::Ready
            && self.queued(tid))
    }
}

/// A blocked thread that is woken is awake.
proof fn lemma_woken_is_awake(a: MView, c: int, tid: Tid)
    requires
        0 <= c < a.cpus.len(),
        a.threads.contains_key(tid),
        a.threads[tid].state == State::Blocked,
    ensures
        a.woken(c, tid).awake(tid),
{
    let b = a.woken(c, tid);
    if !a.threads[tid].on_cpu {
        let p = Place::Run(c);
        let n = a.cpus[c].runq.len() as int;
        assert(b.cpus[c].runq == a.cpus[c].runq.push(tid));
        assert(b.queue(p)[n] == tid);
    }
}

/// **A message that waits is received.** With nobody at the endpoint, a sender parks with its words;
/// the next receiver on another core takes just those words at once, and the sender is awake again.
pub proof fn law_a_waiting_message_is_received(
    a: MView,
    c: int,
    d: int,
    ep: u64,
    msg: Seq<u64>,
)
    requires
        a.inv(),
        0 <= c < a.cpus.len(),
        0 <= d < a.cpus.len(),
        a.may_block(c),
        a.may_block(d),
        a.current(d) != a.current(c),
        a.endpoints.contains_key(ep),
        a.endpoints[ep].senders.len() == 0,
        a.endpoints[ep].receivers.len() == 0,
        a.endpoints[ep].pending == 0,
    ensures
        a.send_blocks(ep),
        a.sent(c, ep, msg).threads[a.current(c)].state == State::Blocked,
        a.sent(c, ep, msg).recv_result(ep) == Some(msg),
        a.sent(c, ep, msg).received(d, ep).awake(a.current(c)),
        a.sent(c, ep, msg).received(d, ep).endpoints[ep] == a.endpoints[ep],
        a.sent(c, ep, msg).received(d, ep).threads[a.current(d)] == a.threads[a.current(d)],
{
    let me = a.current(c);
    let b = a.sent(c, ep, msg);
    assert(b.endpoints[ep].senders[0] == me);
    let m = b.with_ep(ep, b.endpoints[ep].after_recv(b.current(d)));
    lemma_woken_is_awake(m, d, me);
    assert(b.received(d, ep) == m.woken(d, me));
    assert(b.received(d, ep).endpoints[ep].senders =~= a.endpoints[ep].senders);
}

/// **A receiver that waits is served.** With nothing at the endpoint, a receiver parks; the next
/// sender on another core leaves just its words in the receiver's mailbox, does not block, and the
/// receiver is awake.
pub proof fn law_a_waiting_receiver_is_served(a: MView, c: int, d: int, ep: u64, msg: Seq<u64>)
    requires
        a.inv(),
        0 <= c < a.cpus.len(),
        0 <= d < a.cpus.len(),
        a.may_block(c),
        a.may_block(d),
        a.current(d) != a.current(c),
        a.endpoints.contains_key(ep),
        a.endpoints[ep].senders.len() == 0,
        a.endpoints[ep].receivers.len() == 0,
        a.endpoints[ep].pending == 0,
    ensures
        a.recv_result(ep) is None,
        a.received(c, ep).threads[a.current(c)].state == State::Blocked,
        !a.received(c, ep).send_blocks(ep),
        a.received(c, ep).sent(d, ep, msg).threads[a.current(c)].mailbox == msg,
        a.received(c, ep).sent(d, ep, msg).awake(a.current(c)),
        a.received(c, ep).sent(d, ep, msg).endpoints[ep] == a.endpoints[ep],
        a.received(c, ep).sent(d, ep, msg).threads[a.current(d)] == a.threads[a.current(d)],
{
    let me = a.current(c);
    let b = a.received(c, ep);
    assert(b.endpoints[ep].receivers[0] == me);
    let m = b.with_ep(ep, b.endpoints[ep].after_send(b.current(d)));
    let m1 = m.with_thread(me, m.threads[me].delivered(msg));
    lemma_woken_is_awake(m1, d, me);
    assert(b.sent(d, ep, msg) == m1.woken(d, me));
    assert(b.sent(d, ep, msg).endpoints[ep].receivers =~= a.endpoints[ep].receivers);
}

/// **An interrupt with nobody waiting is not lost.** The next receive returns it at once, and leaves
/// the endpoint as it was before.
pub proof fn law_an_interrupt_is_not_lost(a: MView, here: int, target: int, c: int, ep: u64)
    requires
        0 <= c < a.cpus.len(),
        a.endpoints.contains_key(ep),
        a.endpoints[ep].receivers.len() == 0,
        a.endpoints[ep].pending < u64::MAX,
    ensures
        a.notified(here, target, ep).recv_result(ep) == Some(rendezvous::signal_words()),
        a.notified(here, target, ep).received(c, ep) == a,
{
    let b = a.notified(here, target, ep);
    crate::ipc::law_signal_is_remembered(a.endpoints[ep], b.current(c));
    assert(b.received(c, ep).endpoints =~= a.endpoints);
    assert(b.received(c, ep) =~= a);
}

/// **An interrupt with somebody waiting wakes them**, with a one in their mailbox, and no capability
/// if they asked for one.
pub proof fn law_an_interrupt_wakes_its_driver(a: MView, here: int, target: int, ep: u64)
    requires
        a.inv(),
        0 <= here < a.cpus.len(),
        0 <= target < a.cpus.len(),
        a.endpoints.contains_key(ep),
        a.endpoints[ep].receivers.len() > 0,
    ensures
        ({
            let r = a.endpoints[ep].receivers[0];
            let b = a.notified(here, target, ep);
            &&& b.awake(r)
            &&& b.threads[r].mailbox == (if a.threads[r].wants_cap {
                seq![1u64, NO_CAP, 0u64, 0u64, 0u64]
            } else {
                rendezvous::signal_words()
            })
            &&& b.endpoints[ep].pending == a.endpoints[ep].pending
        }),
{
    rendezvous::lemma_meets(a, ep);
    let r = a.endpoints[ep].receivers[0];
    let b = a.notified(here, target, ep);
    if !a.threads[r].on_cpu {
        let p = if here == target {
            Place::Run(target)
        } else {
            Place::Inbox(target)
        };
        let n = a.queue(p).len() as int;
        assert(b.queue(p) == a.queue(p).push(r));
        assert(b.queue(p)[n] == r);
    }
}

/// **A call reaches the server, and its answer reaches the caller.** A server that waits finds the
/// two words, and in the slot beside them the one capability that names the caller; the caller is
/// blocked whether or not anybody waited. Answering leaves the two words of the answer in the
/// caller's mailbox, and the caller is awake.
pub proof fn law_a_call_is_answered(
    a: MView,
    c: int,
    d: int,
    ep: u64,
    msg: Seq<u64>,
    answer: Seq<u64>,
)
    requires
        a.inv(),
        0 <= c < a.cpus.len(),
        0 <= d < a.cpus.len(),
        a.may_block(c),
        a.endpoints.contains_key(ep),
        msg.len() == 2,
        answer.len() == 2,
    ensures
        ({
            let me = a.current(c);
            let b = a.called(c, ep, msg);
            let e = b.replied(d, me, answer);
            &&& b.threads[me].state == State::Blocked
            &&& a.endpoints[ep].receivers.len() > 0 ==> {
                let r = a.endpoints[ep].receivers[0];
                let slot = crate::cap::free_slot(a.threads[r].cspace, 0);
                &&& b.awake(r)
                &&& b.threads[r].mailbox[0] == msg[0]
                &&& b.threads[r].mailbox[2] == msg[1]
                &&& slot < CSPACE_SLOTS ==> b.threads[r].mailbox[1] == slot
                    && b.threads[r].cspace[slot] == Some(crate::cap::reply_to(me))
                &&& slot >= CSPACE_SLOTS ==> b.threads[r].mailbox[1] == NO_CAP
            }
            &&& a.endpoints[ep].receivers.len() == 0 ==> {
                &&& b.endpoints[ep].senders.last() == me
                &&& b.threads[me].mailbox[0] == msg[0]
                &&& b.threads[me].mailbox[1] == msg[1]
                &&& b.threads[me].carried() == Some(crate::cap::reply_to(me))
            }
            &&& e.awake(me)
            &&& e.threads[me].mailbox[0] == answer[0]
            &&& e.threads[me].mailbox[1] == answer[1]
        }),
{
    let me = a.current(c);
    let b = a.called(c, ep, msg);
    reveal(MView::inv);
    if a.endpoints[ep].receivers.len() > 0 {
        rendezvous::lemma_meets(a, ep);
        let r = a.endpoints[ep].receivers[0];
        assert(r != me);
        crate::cap::lemma_free_slot(a.threads[r].cspace, 0);
        let m = a.with_ep(ep, a.endpoints[ep].after_send(me));
        let h = m.handed(r, msg[0], crate::cap::reply_to(me), msg[1]);
        lemma_woken_is_awake(h, c, r);
        let w = h.woken(c, r);
        assert(b == w.with_thread(me, TView { state: State::Blocked, ..w.threads[me] }));
        rendezvous::lemma_plain_stays(w, me, b.threads[me], r);
    }
    let t = b.threads[me];
    let m1 = b.with_thread(
        me,
        TView { mailbox: seq![answer[0], answer[1], 0u64, 0u64, 0u64], ..t },
    );
    lemma_woken_is_awake(m1, d, me);
}

/// **Taking a caller's words does not wake it.** It keeps waiting for its answer, and the capability
/// that names it is with whoever took the words, if there was room.
pub proof fn law_a_caller_waits_for_its_answer(a: MView, c: int, ep: u64)
    requires
        a.inv(),
        0 <= c < a.cpus.len(),
        a.may_block(c),
        a.endpoints.contains_key(ep),
        a.endpoints[ep].on_recv() is FromSender,
        crate::cap::is_reply(a.threads[a.endpoints[ep].senders[0]].carried()),
    ensures
        ({
            let me = a.current(c);
            let s = a.endpoints[ep].senders[0];
            let b = a.received_cap(c, ep);
            let slot = crate::cap::free_slot(a.threads[me].cspace, 0);
            &&& b.threads[s].state == a.threads[s].state
            &&& b.threads[s].wake_pending == a.threads[s].wake_pending
            &&& b.threads[s].outgoing_cap is None
            &&& slot < CSPACE_SLOTS ==> b.threads[me].cspace[slot] == a.threads[s].carried()
            &&& a.received(c, ep).threads[s] == a.threads[s]
        }),
{
    reveal(MView::inv);
    rendezvous::lemma_meets(a, ep);
    crate::cap::lemma_free_slot(a.threads[a.current(c)].cspace, 0);
}

/// **A supervisor hears of a death.** Dying makes a supervised thread a corpse that keeps its
/// message. A supervisor that waits has the message in its mailbox and is awake; one that asks later
/// gets it then, and taking it leaves the corpse dead.
pub proof fn law_a_death_is_reported(
    a: MView,
    c: int,
    d: int,
    ep: u64,
    event: u64,
    pc: u64,
    addr: u64,
)
    requires
        a.inv(),
        0 <= c < a.cpus.len(),
        a.may_block(c),
        a.threads[a.current(c)].fault_ep == Some(ep),
        a.endpoints.contains_key(ep),
    ensures
        ({
            let me = a.current(c);
            let msg = seq![event, me, pc, addr, 0u64];
            let b = a.departed(c, event, pc, addr);
            &&& b.threads[me].state == State::Dead
            &&& b.threads[me].fault_msg == Some(msg)
            &&& a.endpoints[ep].receivers.len() > 0 ==> {
                let r = a.endpoints[ep].receivers[0];
                b.awake(r) && b.threads[r].mailbox == a.threads[r].delivered(msg).mailbox
            }
            &&& a.endpoints[ep].receivers.len() == 0 && a.endpoints[ep].senders.len() == 0
                && a.endpoints[ep].pending == 0 ==> {
                &&& b.recv_result(ep) == Some(msg)
                &&& b.received(d, ep).threads[me] == b.threads[me]
            }
        }),
{
    let me = a.current(c);
    let msg = seq![event, me, pc, addr, 0u64];
    let b = a.departed(c, event, pc, addr);
    if a.endpoints[ep].receivers.len() > 0 {
        rendezvous::lemma_meets(a, ep);
        let r = a.endpoints[ep].receivers[0];
        assert(r != me);
        let t = a.threads[me];
        let m = a.with_thread(
            me,
            TView {
                fault_msg: Some(msg),
                mailbox: msg,
                carries_cap: false,
                state: State::Dead,
                ..t
            },
        ).with_ep(ep, a.endpoints[ep].after_send(me));
        lemma_woken_is_awake(m.with_thread(r, m.threads[r].delivered(msg)), c, r);
    }
}

/// **The dead are not woken.** Waking a thread that is not blocked changes nothing.
pub proof fn law_only_the_blocked_wake(a: MView, c: int, tid: Tid)
    requires
        a.threads.contains_key(tid) ==> a.threads[tid].state != State::Blocked,
    ensures
        a.woken(c, tid) == a,
{
}

/// **The dead do not run.** Whomever a core goes to can run, was not torn down if it is the idle
/// thread, and is on no core; in particular it is neither blocked nor dead nor finished, and the
/// core it goes to is the only one in it.
pub proof fn law_a_core_goes_to_who_can_run(a: MView, c: int)
    requires
        a.inv(),
        0 <= c < a.cpus.len(),
        a.can_schedule(c),
    ensures
        ({
            let b = a.scheduled(c);
            let cur = b.cpus[c].current;
            &&& b.threads.contains_key(cur)
            &&& b.threads[cur].state == State::Running
            &&& a.threads[cur].state == State::Ready || a.threads[cur].state == State::Running
            &&& forall|d: int| 0 <= d < b.cpus.len() && d != c ==> (#[trigger] b.cpus[d]).current
                != cur && b.cpus[d].switched_from != cur
        }),
{
    let b = a.buried(c);
    switch::lemma_bury(a, c);
    switch::lemma_schedule(a, c);
    let e = a.scheduled(c);
    let cur = e.cpus[c].current;
    if b.next_thread(c) is Some {
        switch::lemma_next_is_off_core(a, c);
    }
    assert(e.threads.contains_key(cur));
    assert(e.threads[cur].state == State::Running);
    reveal(MView::inv);
    assert(e.holds_core(c, cur));
    assert forall|d: int| 0 <= d < e.cpus.len() && d != c implies (#[trigger] e.cpus[d]).current
        != cur && e.cpus[d].switched_from != cur by {
        if e.cpus[d].current == cur || e.cpus[d].switched_from == cur {
            assert(e.holds_core(d, cur));
        }
    }
}

/// **A torn-down thread does not run on.** The next decision of its core makes a running thread that
/// was torn down finished and leaves it for another, and once the core has left it, it is gone.
pub proof fn law_the_condemned_go(a: MView, c: int)
    requires
        a.inv(),
        0 <= c < a.cpus.len(),
        a.can_schedule(c),
        a.carries_on(c),
        a.threads[a.current(c)].killed,
    ensures
        ({
            let me = a.current(c);
            let b = a.scheduled(c);
            &&& b.current(c) != me
            &&& b.threads[me].state == State::Finished
            &&& !b.switch_finished(c).threads.contains_key(me)
        }),
{
    switch::lemma_bury(a, c);
    switch::lemma_next_is_off_core(a, c);
    reveal(MView::inv);
}

/// **A refused reclaim only marks.** Condemning the threads of a region marks those that could still
/// run, and changes nothing else about anybody.
pub proof fn law_condemning_only_marks(a: MView, base: int, end: int, tid: Tid)
    requires
        a.threads.contains_key(tid),
    ensures
        ({
            let b = a.condemned(base, end);
            let hit = a.threads[tid].resides(base, end) && a.threads[tid].is_live();
            &&& b.threads.dom() == a.threads.dom()
            &&& b == (MView { threads: b.threads, ..a })
            &&& b.threads[tid] == (TView {
                killed: a.threads[tid].killed || hit,
                ..a.threads[tid]
            })
        }),
{
    assert(a.condemned(base, end).threads.dom() =~= a.threads.dom());
}

/// **No two cores are in one thread.**
pub proof fn law_one_core_per_thread(a: MView, c: int, d: int)
    requires
        a.inv(),
        0 <= c < a.cpus.len(),
        0 <= d < a.cpus.len(),
        a.cpus[c].current != NO_TID,
        a.cpus[c].current == a.cpus[d].current,
    ensures
        c == d,
{
    reveal(MView::inv);
    let t = a.cpus[c].current;
    assert(a.holds_core(c, t) && a.holds_core(d, t));
}

/// **Every thread that can run and does not has exactly one place to wait in.** A ready thread that
/// is no core's idle thread stands in one queue, once; and that queue is a core's.
pub proof fn law_the_ready_have_one_place(a: MView, tid: Tid)
    requires
        a.inv(),
        a.threads.contains_key(tid),
        a.threads[tid].state == State::Ready,
        !a.is_idle(tid),
    ensures
        exists|p: Place, i: int|
            (p is Run || p is Inbox) && 0 <= i < a.queue(p).len() && #[trigger] a.queue(p)[i] == tid,
        forall|p: Place, i: int, q: Place, j: int|
            #![trigger a.queue(p)[i], a.queue(q)[j]]
            0 <= i < a.queue(p).len() && 0 <= j < a.queue(q).len() && a.queue(p)[i] == tid
                && a.queue(q)[j] == tid ==> p == q && i == j,
{
    reveal(MView::inv);
    assert(a.queued(tid));
    let (p, i) = choose|p: Place, i: int|
        0 <= i < a.queue(p).len() && #[trigger] a.queue(p)[i] == tid;
    assert(a.fits(p, a.threads[tid]));
}

/// **An idle thread waits in no queue**, so no other core can take it and no endpoint can hold it.
pub proof fn law_an_idle_thread_is_never_queued(a: MView, tid: Tid)
    requires
        a.inv(),
        a.is_idle(tid),
    ensures
        !a.queued(tid),
        !a.parked(tid),
{
    reveal(MView::inv);
    if a.queued(tid) {
        let (p, i) = choose|p: Place, i: int|
            0 <= i < a.queue(p).len() && #[trigger] a.queue(p)[i] == tid;
        assert(!a.is_idle(a.queue(p)[i]));
    }
    if a.parked(tid) {
        let (p, i) = choose|p: Place, i: int|
            (p is Senders || p is Receivers) && 0 <= i < a.queue(p).len() && #[trigger] a.queue(
                p,
            )[i] == tid;
        assert(!a.is_idle(a.queue(p)[i]));
    }
}

/// **A wake that comes early is not lost.** A thread that blocked and was woken before its core had
/// left it is ready, and at the back of that core's run queue, once the core has.
pub proof fn law_an_early_wake_is_completed(a: MView, c: int, d: int)
    requires
        a.inv(),
        0 <= c < a.cpus.len(),
        0 <= d < a.cpus.len(),
        a.cpus[c].switched_from != NO_TID,
        a.threads.contains_key(a.cpus[c].switched_from),
        a.threads[a.cpus[c].switched_from].state == State::Blocked,
    ensures
        ({
            let prev = a.cpus[c].switched_from;
            let b = a.woken(d, prev).switch_finished(c);
            &&& a.woken(d, prev).threads[prev].wake_pending
            &&& b.threads[prev].state == State::Ready
            &&& !b.threads[prev].on_cpu
            &&& !b.threads[prev].wake_pending
            &&& b.cpus[c].runq == a.cpus[c].runq.push(prev)
        }),
{
    reveal(MView::inv);
    let prev = a.cpus[c].switched_from;
    assert(a.holds_core(c, prev));
}

/// **Turns go round.** A core with others waiting goes to the one that has waited longest, which runs.
/// A thread that could have carried on is ready and joins at the back. One that blocked, died or was
/// torn down waits on no run queue, and one that was torn down while it ran is finished.
pub proof fn law_turns_go_round(a: MView, c: int)
    requires
        a.inv(),
        0 <= c < a.cpus.len(),
        a.can_schedule(c),
        a.cpus[c].runq.len() > 0,
    ensures
        ({
            let waiting = a.cpus[c].runq;
            let me = a.current(c);
            let t = a.threads[me];
            let b = a.scheduled(c);
            let stays = t.state == State::Running && !t.killed && me != a.cpus[c].idle;
            &&& b.current(c) == waiting[0]
            &&& b.threads[waiting[0]].state == State::Running
            &&& b.cpus[c].runq == (if stays {
                waiting.skip(1).push(me)
            } else {
                waiting.skip(1)
            })
            &&& stays ==> b.threads[me].state == State::Ready
            &&& t.state == State::Running && t.killed ==> b.threads[me].state == State::Finished
            &&& t.state != State::Running ==> b.threads[me].state == t.state
            &&& !stays ==> forall|d: int, i: int|
                0 <= d < b.cpus.len() && 0 <= i < b.cpus[d].runq.len()
                    ==> #[trigger] b.cpus[d].runq[i] != me
        }),
{
    switch::lemma_bury(a, c);
    switch::lemma_next_is_off_core(a, c);
    let me = a.current(c);
    let t = a.threads[me];
    let b = a.scheduled(c);
    let w0 = a.cpus[c].runq[0];
    reveal(MView::inv);
    assert(a.holds_core(c, me));
    assert(t.on_cpu);
    assert(w0 != me);
    if !(t.state == State::Running && !t.killed && me != a.cpus[c].idle) {
        assert forall|d: int, i: int|
            0 <= d < b.cpus.len() && 0 <= i < b.cpus[d].runq.len() implies #[trigger] b.cpus[d].runq[i]
            != me by {
            let k = if d == c {
                i + 1
            } else {
                i
            };
            assert(a.queue(Place::Run(d))[k] == b.cpus[d].runq[i]);
            assert(a.fits(Place::Run(d), a.threads[a.queue(Place::Run(d))[k]]));
            if b.cpus[d].runq[i] == me {
                assert(a.holds_core(d, me));
            }
        }
    }
}

/// **Stealing takes only what waits.** The thread that goes to the other core is on no core, keeps
/// everything it had, and stands in the thief's inbox; the thread the victim runs stays.
pub proof fn law_only_the_waiting_are_stolen(a: MView, c: int)
    requires
        a.inv(),
        0 <= c < a.cpus.len(),
        a.cpus[c].switched_from == NO_TID,
        a.cpus[c].steal_request <= a.cpus.len(),
        a.cpus[c].steal_request - 1 != c,
        a.thief(c) is Some,
    ensures
        ({
            let tid = a.cpus[c].runq[0];
            let thief = a.thief(c)->0;
            let b = a.steal_served(c);
            &&& !a.threads[tid].on_cpu
            &&& tid != a.cpus[c].current
            &&& b.threads == a.threads
            &&& b.cpus[thief].inbox == a.cpus[thief].inbox.push(tid)
            &&& b.cpus[c].current == a.cpus[c].current
            &&& b.cpus[c].runq == a.cpus[c].runq.skip(1)
        }),
{
    crate::model::place::lemma_queued_is_off_core(a, c);
    reveal(MView::inv);
    let tid = a.cpus[c].runq[0];
    if tid == a.cpus[c].current {
        assert(a.holds_core(c, tid));
        assert(a.threads[tid].on_cpu);
    }
}

/// **A budget gets back what it gave.** A slot taken for a thread is in the budget again once that
/// thread is collected.
pub proof fn law_a_slot_comes_back(a: MView, here: int, target: int, tid: Tid, t: TView, q: usize)
    requires
        q < a.quotas.len(),
        a.quotas[q as int] > 0,
        t.quota == Some(q),
    ensures
        a.taken_slot(q as int).spawned(here, target, tid, t).removed(tid).quotas == a.quotas,
{
    let b = a.taken_slot(q as int).spawned(here, target, tid, t);
    assert(b.threads[tid].quota == Some(q));
    assert(b.removed(tid).quotas =~= a.quotas);
}

/// One thread after those of `tids` were called off.
proof fn lemma_called_off_stays(a: MView, c: int, tids: Seq<Tid>, x: Tid)
    requires
        0 <= c < a.cpus.len(),
        a.threads.contains_key(x),
    ensures
        ({
            let b = a.called_off(c, tids);
            &&& b.cpus.len() == a.cpus.len()
            &&& b.threads.contains_key(x)
            &&& a.awake(x) ==> b.awake(x)
            &&& !tids.contains(x) ==> b.threads[x] == a.threads[x]
            &&& tids.contains(x) ==> b.threads[x].ipc_aborted
            &&& tids.contains(x) && a.threads[x].state == State::Blocked ==> b.awake(x)
            &&& a.threads[x].state == State::Dead ==> b.threads[x].state == State::Dead
        }),
    decreases tids.len(),
{
    if tids.len() > 0 {
        let front = tids.drop_last();
        let last = tids.last();
        lemma_called_off_stays(a, c, front, x);
        let m = a.called_off(c, front);
        let n = m.aborted(last);
        let b = n.woken(c, last);
        assert(tids =~= front.push(last));
        assert(tids.contains(x) <==> front.contains(x) || x == last) by {
            if front.contains(x) {
                let i = choose|i: int| 0 <= i < front.len() && front[i] == x;
                assert(tids[i] == x);
            }
            assert(tids[tids.len() - 1] == last);
        }
        lemma_still_queued(m, c, last, x);
        if x == last && n.threads[x].state == State::Blocked {
            lemma_woken_is_awake(n, c, x);
        }
    }
}

/// Calling one rendezvous off takes nobody out of a queue.
proof fn lemma_still_queued(a: MView, c: int, tid: Tid, x: Tid)
    requires
        0 <= c < a.cpus.len(),
    ensures
        a.queued(x) ==> a.aborted(tid).woken(c, tid).queued(x),
{
    let b = a.aborted(tid).woken(c, tid);
    if a.queued(x) {
        let (p, i) = choose|p: Place, i: int|
            0 <= i < a.queue(p).len() && #[trigger] a.queue(p)[i] == x;
        assert(b.queue(p)[i] == x);
    }
}

/// **Nobody waits for an endpoint that is gone.** Whoever stood in one of its queues is awake, with
/// the rendezvous marked as called off; a corpse that was parked there stays dead.
pub proof fn law_nobody_waits_for_what_is_gone(a: MView, c: int, ep: u64, tid: Tid)
    requires
        a.inv(),
        0 <= c < a.cpus.len(),
        a.endpoints.contains_key(ep),
        a.endpoints[ep].waiters().contains(tid),
    ensures
        ({
            let b = a.torn_down(c, ep);
            &&& !b.endpoints.contains_key(ep)
            &&& b.threads[tid].ipc_aborted
            &&& a.threads[tid].state == State::Blocked ==> b.awake(tid)
            &&& a.threads[tid].state != State::Blocked ==> b.threads[tid].state == State::Dead
        }),
{
    let w = a.endpoints[ep].waiters();
    let m = a.with_ep(ep, crate::model::reap::quiet(a.endpoints[ep].pending));
    let k = choose|k: int| 0 <= k < w.len() && w[k] == tid;
    reveal(MView::inv);
    if k < a.endpoints[ep].senders.len() {
        assert(a.queue(Place::Senders(ep))[k] == tid);
        assert(a.fits(Place::Senders(ep), a.threads[tid]));
    } else {
        let j = k - a.endpoints[ep].senders.len();
        assert(a.queue(Place::Receivers(ep))[j] == tid);
        assert(a.fits(Place::Receivers(ep), a.threads[tid]));
    }
    lemma_called_off_stays(m, c, w, tid);
    let b0 = m.called_off(c, w);
    let b = b0.unregistered(ep);
    if b0.queued(tid) && b0.threads[tid].state == State::Ready {
        crate::model::reap::lemma_empty_ep(a, ep);
        crate::model::reap::lemma_call_off(m, c, w);
        let (p, i) = choose|p: Place, i: int|
            0 <= i < b0.queue(p).len() && #[trigger] b0.queue(p)[i] == tid;
        assert(b0.fits(p, b0.threads[tid]));
        assert(b.queue(p)[i] == tid);
    }
}

/// Whoever waits on one endpoint waits on no other, and is a thread.
pub proof fn lemma_waits_once(a: MView, e: u64, f: u64, x: Tid)
    requires
        a.inv(),
        a.endpoints.contains_key(e),
        a.endpoints[e].waiters().contains(x),
    ensures
        a.threads.contains_key(x),
        f != e && a.endpoints.contains_key(f) ==> !a.endpoints[f].waiters().contains(x),
{
    reveal(MView::inv);
    let w = a.endpoints[e].waiters();
    let k = choose|k: int| 0 <= k < w.len() && w[k] == x;
    let n = a.endpoints[e].senders.len() as int;
    let (p, i) = if k < n {
        (Place::Senders(e), k)
    } else {
        (Place::Receivers(e), k - n)
    };
    assert(a.queue(p)[i] == x);
    assert(a.fits(p, a.threads[x]));
    if f != e && a.endpoints.contains_key(f) && a.endpoints[f].waiters().contains(x) {
        let v = a.endpoints[f].waiters();
        let l = choose|l: int| 0 <= l < v.len() && v[l] == x;
        let o = a.endpoints[f].senders.len() as int;
        let (q, j) = if l < o {
            (Place::Senders(f), l)
        } else {
            (Place::Receivers(f), l - o)
        };
        assert(a.queue(q)[j] == x);
        assert(p == q);
    }
}

/// One thread after an endpoint was torn down: if it was awake it still is, a mark stays, and if it
/// did not wait there nothing happened to it.
proof fn lemma_torn_down_stays(a: MView, c: int, e: u64, x: Tid)
    requires
        a.inv(),
        0 <= c < a.cpus.len(),
        a.endpoints.contains_key(e),
        a.threads.contains_key(x),
    ensures
        ({
            let b = a.torn_down(c, e);
            &&& b.threads.contains_key(x)
            &&& a.awake(x) ==> b.awake(x)
            &&& a.threads[x].ipc_aborted ==> b.threads[x].ipc_aborted
            &&& !a.endpoints[e].waiters().contains(x) ==> b.threads[x] == a.threads[x]
        }),
{
    let w = a.endpoints[e].waiters();
    let m = a.with_ep(e, crate::model::reap::quiet(a.endpoints[e].pending));
    let b0 = m.called_off(c, w);
    let b = b0.unregistered(e);
    lemma_called_off_stays(m, c, w, x);
    crate::model::reap::lemma_empty_ep(a, e);
    crate::model::reap::lemma_call_off(m, c, w);
    reveal(MView::inv);
    if a.awake(x) {
        if !a.threads[x].wake_pending {
            let (p, i) = choose|p: Place, i: int|
                0 <= i < a.queue(p).len() && #[trigger] a.queue(p)[i] == x;
            assert(a.fits(p, a.threads[x]));
            assert(m.queue(p)[i] == x);
        }
        assert(m.awake(x));
        if !b0.threads[x].wake_pending {
            let (p, i) = choose|p: Place, i: int|
                0 <= i < b0.queue(p).len() && #[trigger] b0.queue(p)[i] == x;
            assert(b0.fits(p, b0.threads[x]));
            assert(b.queue(p)[i] == x);
        }
    }
}

/// One thread that is blocked on endpoint `e`, after the endpoints of `eps` were torn down.
pub proof fn lemma_torn_down_all_stays(a: MView, c: int, eps: Seq<u64>, e: u64, x: Tid)
    requires
        a.inv(),
        0 <= c < a.cpus.len(),
        eps.no_duplicates(),
        forall|i: int| 0 <= i < eps.len() ==> a.endpoints.contains_key(#[trigger] eps[i]),
        a.endpoints.contains_key(e),
        a.endpoints[e].waiters().contains(x),
        a.threads[x].state == State::Blocked,
    ensures
        ({
            let b = a.torn_down_all(c, eps);
            &&& b.inv()
            &&& b.cpus.len() == a.cpus.len()
            &&& b.threads.contains_key(x)
            &&& forall|k: u64| #[trigger]
                b.endpoints.contains_key(k) <==> a.endpoints.contains_key(k) && !eps.contains(k)
            &&& forall|k: u64| #[trigger]
                b.endpoints.contains_key(k) ==> b.endpoints[k] == a.endpoints[k]
            &&& if eps.contains(e) {
                b.awake(x) && b.threads[x].ipc_aborted
            } else {
                b.threads[x] == a.threads[x]
            }
        }),
    decreases eps.len(),
{
    lemma_waits_once(a, e, e, x);
    if eps.len() > 0 {
        let front = eps.drop_last();
        let last = eps.last();
        assert(eps[eps.len() - 1] == last);
        assert forall|i: int| 0 <= i < front.len() implies a.endpoints.contains_key(
            #[trigger] front[i],
        ) by {
            assert(front[i] == eps[i]);
        }
        lemma_torn_down_all_stays(a, c, front, e, x);
        let m = a.torn_down_all(c, front);
        let b = a.torn_down_all(c, eps);
        assert forall|k: u64| eps.contains(k) <==> front.contains(k) || k == last by {
            if eps.contains(k) {
                let i = choose|i: int| 0 <= i < eps.len() && eps[i] == k;
                if i < front.len() {
                    assert(front[i] == k);
                }
            }
            if front.contains(k) {
                let i = choose|i: int| 0 <= i < front.len() && front[i] == k;
                assert(eps[i] == k);
            }
        }
        assert(!front.contains(last)) by {
            if front.contains(last) {
                let i = choose|i: int| 0 <= i < front.len() && front[i] == last;
                assert(eps[i] == eps[eps.len() - 1]);
            }
        }
        assert(m.endpoints.contains_key(last));
        crate::model::reap::lemma_tear_down(m, c, last);
        if last == e {
            law_nobody_waits_for_what_is_gone(m, c, e, x);
        } else {
            lemma_torn_down_stays(m, c, last, x);
            if !front.contains(e) {
                assert(m.endpoints.contains_key(e));
                lemma_waits_once(m, e, last, x);
            }
        }
    }
}

/// One thread that waits on endpoint `e`, after others were collected.
pub proof fn lemma_collected_stays(a: MView, tids: Seq<Tid>, e: u64, x: Tid)
    requires
        a.inv(),
        tids.no_duplicates(),
        forall|i: int|
            0 <= i < tids.len() ==> a.threads.contains_key(#[trigger] tids[i])
                && !a.threads[tids[i]].is_live(),
        a.endpoints.contains_key(e),
        a.endpoints[e].waiters().contains(x),
        !tids.contains(x),
    ensures
        ({
            let b = a.collected(tids);
            &&& b.inv()
            &&& b.cpus == a.cpus
            &&& b.endpoints.dom() == a.endpoints.dom()
            &&& b.endpoints[e].waiters().contains(x)
            &&& forall|t: Tid| #[trigger]
                a.threads.contains_key(t) && !tids.contains(t) ==> b.threads.contains_key(t)
                    && b.threads[t] == a.threads[t]
        }),
    decreases tids.len(),
{
    if tids.len() > 0 {
        let front = tids.drop_last();
        let last = tids.last();
        assert(tids[tids.len() - 1] == last);
        assert forall|i: int| 0 <= i < front.len() implies a.threads.contains_key(
            #[trigger] front[i],
        ) && !a.threads[front[i]].is_live() by {
            assert(front[i] == tids[i]);
        }
        assert forall|k: Tid| front.contains(k) implies tids.contains(k) && k != last by {
            let i = choose|i: int| 0 <= i < front.len() && front[i] == k;
            assert(tids[i] == k);
        }
        assert(tids.contains(last));
        lemma_collected_stays(a, front, e, x);
        let m = a.collected(front);
        assert(a.threads.contains_key(last) && !front.contains(last));
        crate::model::reap::lemma_collect_one(m, last);
        let b = m.unparked(last);
        assert(b.endpoints.dom() =~= m.endpoints.dom());
        let s = m.endpoints[e].senders;
        crate::ipc::lemma_without(s, last);
        let w = m.endpoints[e].waiters();
        let k = choose|k: int| 0 <= k < w.len() && w[k] == x;
        let v = b.endpoints[e].waiters();
        if k < s.len() {
            assert(s.contains(x));
            let t = b.endpoints[e].senders;
            assert(t.contains(x));
            let j = choose|j: int| 0 <= j < t.len() && t[j] == x;
            assert(v[j] == x);
        } else {
            let j = k - s.len();
            assert(m.endpoints[e].receivers[j] == x);
            assert(v[b.endpoints[e].senders.len() + j] == x);
        }
        assert forall|t: Tid| #[trigger]
            a.threads.contains_key(t) && !tids.contains(t) implies b.removed(
            last,
        ).threads.contains_key(t) && b.removed(last).threads[t] == a.threads[t] by {
            assert(!front.contains(t));
        }
    }
}

/// **Asking for a capability that does not come is told so, whoever is first.** With nothing at the
/// endpoint, one thread receives with a capability and another sends plain words. In either order
/// the receiver has the first word, no slot and the second word, and holds what it held before.
pub proof fn law_a_missing_capability_is_told(a: MView, c: int, d: int, ep: u64, msg: Seq<u64>)
    requires
        a.inv(),
        0 <= c < a.cpus.len(),
        0 <= d < a.cpus.len(),
        a.may_block(c),
        a.may_block(d),
        a.current(d) != a.current(c),
        a.endpoints.contains_key(ep),
        a.endpoints[ep].senders.len() == 0,
        a.endpoints[ep].receivers.len() == 0,
        a.endpoints[ep].pending == 0,
    ensures
        ({
            let me = a.current(c);
            let first = a.received_cap(c, ep);
            let late = a.sent(d, ep, msg);
            &&& a.recv_cap_result(c, ep) is None
            &&& first.sent(d, ep, msg).threads[me].mailbox == seq![
                msg[0],
                NO_CAP,
                msg[1],
                0u64,
                0u64,
            ]
            &&& first.sent(d, ep, msg).awake(me)
            &&& first.sent(d, ep, msg).threads[me].cspace == a.threads[me].cspace
            &&& late.recv_cap_result(c, ep) == Some(seq![msg[0], NO_CAP, msg[1]])
            &&& late.received_cap(c, ep).threads[me] == a.threads[me]
            &&& late.received_cap(c, ep).awake(a.current(d))
        }),
{
    let me = a.current(c);
    let you = a.current(d);
    let b = a.received_cap(c, ep);
    assert(b.endpoints[ep].receivers[0] == me);
    let m = b.with_ep(ep, b.endpoints[ep].after_send(you));
    let m1 = m.with_thread(me, m.threads[me].delivered(msg));
    lemma_woken_is_awake(m1, d, me);
    assert(b.sent(d, ep, msg) == m1.woken(d, me));
    let e = a.sent(d, ep, msg);
    assert(e.endpoints[ep].senders[0] == you);
    let n = e.with_ep(ep, e.endpoints[ep].after_recv(me));
    let n1 = n.with_thread(you, TView { outgoing_cap: None, ..n.threads[you] });
    lemma_woken_is_awake(n1, c, you);
    assert(e.received_cap(c, ep) == n1.woken(c, you));
}

/// **A message without a capability says so to whoever asked for one**: a receiver that waits for a
/// capability and is met by plain words, by an interrupt or by a death has no slot in its second
/// word.
pub proof fn law_no_slot_is_invented(
    a: MView,
    c: int,
    target: int,
    ep: u64,
    msg: Seq<u64>,
    corpse: Tid,
)
    requires
        a.inv(),
        0 <= c < a.cpus.len(),
        0 <= target < a.cpus.len(),
        a.endpoints.contains_key(ep),
        a.endpoints[ep].receivers.len() > 0,
        a.threads[a.endpoints[ep].receivers[0]].wants_cap,
    ensures
        ({
            let r = a.endpoints[ep].receivers[0];
            let words = seq![msg[0], NO_CAP, msg[1], 0u64, 0u64];
            &&& a.sent(c, ep, msg).threads[r].mailbox == words
            &&& a.death_delivered(c, corpse, ep, msg).threads[r].mailbox == words
            &&& a.notified(c, target, ep).threads[r].mailbox == seq![1u64, NO_CAP, 0u64, 0u64, 0u64]
        }),
{
    rendezvous::lemma_meets(a, ep);
}

/// **A call and a receive meet in either order.** With nothing at the endpoint, one thread calls and
/// another receives with a capability. Whoever is first, the server has the two words and, between
/// them, the slot of the one capability that names the caller; that slot was empty, no other slot
/// changed, and the caller is blocked.
pub proof fn law_a_call_and_a_receive_meet_in_either_order(
    a: MView,
    c: int,
    d: int,
    ep: u64,
    msg: Seq<u64>,
)
    requires
        a.inv(),
        0 <= c < a.cpus.len(),
        0 <= d < a.cpus.len(),
        a.may_block(c),
        a.may_block(d),
        a.current(d) != a.current(c),
        a.endpoints.contains_key(ep),
        a.endpoints[ep].senders.len() == 0,
        a.endpoints[ep].receivers.len() == 0,
        a.endpoints[ep].pending == 0,
        msg.len() == 2,
    ensures
        ({
            let caller = a.current(c);
            let server = a.current(d);
            let before = a.threads[server].cspace;
            let slot = crate::cap::free_slot(before, 0);
            let word = if slot < CSPACE_SLOTS {
                slot as u64
            } else {
                NO_CAP
            };
            let after = if slot < CSPACE_SLOTS {
                before.update(slot, Some(crate::cap::reply_to(caller)))
            } else {
                before
            };
            let one = a.received_cap(d, ep).called(c, ep, msg);
            let other = a.called(c, ep, msg);
            &&& slot < CSPACE_SLOTS ==> before[slot] is None
            &&& one.threads[server].mailbox == seq![msg[0], word, msg[1], 0u64, 0u64]
            &&& one.threads[server].cspace == after
            &&& one.awake(server)
            &&& one.threads[caller].state == State::Blocked
            &&& other.recv_cap_result(d, ep) == Some(seq![msg[0], word, msg[1]])
            &&& other.received_cap(d, ep).threads[server].cspace == after
            &&& other.received_cap(d, ep).threads[caller].state == State::Blocked
            &&& !other.received_cap(d, ep).threads[caller].wake_pending
        }),
{
    reveal(MView::inv);
    let caller = a.current(c);
    let server = a.current(d);
    let before = a.threads[server].cspace;
    crate::cap::lemma_free_slot(before, 0);
    let b = a.received_cap(d, ep);
    assert(b.endpoints[ep].receivers[0] == server);
    let m = b.with_ep(ep, b.endpoints[ep].after_send(caller));
    let h = m.handed(server, msg[0], crate::cap::reply_to(caller), msg[1]);
    lemma_woken_is_awake(h, c, server);
    let w = h.woken(c, server);
    let one = b.called(c, ep, msg);
    assert(one == w.with_thread(caller, TView { state: State::Blocked, ..w.threads[caller] }));
    rendezvous::lemma_plain_stays(w, caller, one.threads[caller], server);
    let e = a.called(c, ep, msg);
    assert(e.endpoints[ep].senders[0] == caller);
}

/// **A reply reaches its caller and nobody else.** The caller has the two words and, if it was
/// blocked, is awake; every other thread is as it was. A name that no longer resolves changes
/// nothing.
pub proof fn law_a_reply_reaches_only_its_caller(
    a: MView,
    c: int,
    caller: Tid,
    msg: Seq<u64>,
    other: Tid,
)
    requires
        0 <= c < a.cpus.len(),
        other != caller,
    ensures
        ({
            let b = a.replied(c, caller, msg);
            &&& !a.threads.contains_key(caller) ==> b == a
            &&& a.threads.contains_key(caller) ==> {
                &&& b.threads[caller].mailbox == seq![msg[0], msg[1], 0u64, 0u64, 0u64]
                &&& a.threads[caller].state == State::Blocked ==> b.awake(caller)
            }
            &&& b.threads.contains_key(other) <==> a.threads.contains_key(other)
            &&& a.threads.contains_key(other) ==> b.threads[other] == a.threads[other]
        }),
{
    if a.threads.contains_key(caller) {
        let m = a.with_thread(
            caller,
            TView { mailbox: seq![msg[0], msg[1], 0u64, 0u64, 0u64], ..a.threads[caller] },
        );
        if a.threads[caller].state == State::Blocked {
            lemma_woken_is_awake(m, c, caller);
        }
    }
}

/// **A corpse's message outlives its delivery.** A supervisor that takes it, with or without asking
/// for a capability, leaves the corpse dead and its message with it.
pub proof fn law_a_corpse_keeps_its_message(a: MView, c: int, ep: u64)
    requires
        a.inv(),
        0 <= c < a.cpus.len(),
        a.may_block(c),
        a.endpoints.contains_key(ep),
        a.endpoints[ep].on_recv() is FromSender,
        a.threads[a.endpoints[ep].senders[0]].state == State::Dead,
    ensures
        ({
            let s = a.endpoints[ep].senders[0];
            let b = a.received(c, ep).threads[s];
            let e = a.received_cap(c, ep).threads[s];
            &&& b.state == State::Dead && b.fault_msg == a.threads[s].fault_msg
            &&& b.mailbox == a.threads[s].mailbox
            &&& e.state == State::Dead && e.fault_msg == a.threads[s].fault_msg
            &&& e.mailbox == a.threads[s].mailbox
        }),
{
    rendezvous::lemma_meets(a, ep);
}

/// **A revoked endpoint is an error, from its revocation on.** A thread that was blocked on it is
/// marked, and still marked when a core goes to it; and whoever uses the name afterwards is marked
/// at once, receives zeroes, and does not block.
pub proof fn law_a_revoked_endpoint_is_an_error(
    a: MView,
    c: int,
    d: int,
    ep: u64,
    tid: Tid,
    msg: Seq<u64>,
)
    requires
        a.inv(),
        0 <= c < a.cpus.len(),
        0 <= d < a.cpus.len(),
        a.endpoints.contains_key(ep),
    ensures
        ({
            let b = a.torn_down(c, ep);
            let me = b.current(d);
            &&& a.endpoints[ep].waiters().contains(tid) ==> b.threads[tid].ipc_aborted
            &&& a.endpoints[ep].waiters().contains(tid) && b.can_schedule(d)
                ==> b.scheduled(d).threads[tid].ipc_aborted
            &&& !b.send_blocks(ep)
            &&& b.sent(d, ep, msg) == b.aborted(me)
            &&& b.received(d, ep) == b.aborted(me)
            &&& b.recv_result(ep) == Some(crate::thread::no_words())
            &&& b.received_cap(d, ep) == b.aborted(me)
            &&& b.called(d, ep, msg) == b.aborted(me)
            &&& b.threads.contains_key(me) ==> b.aborted(me).threads[me].ipc_aborted
        }),
{
    let b = a.torn_down(c, ep);
    if a.endpoints[ep].waiters().contains(tid) {
        law_nobody_waits_for_what_is_gone(a, c, ep, tid);
        if b.can_schedule(d) {
            crate::model::reap::lemma_tear_down(a, c, ep);
            if b.buried(d).next_thread(d) is Some {
                switch::lemma_next_is_off_core(b, d);
            }
        }
    }
}

/// Every thread of `a` but `x` is in `b` with the capabilities it had.
pub open spec fn same_caps_but(a: MView, b: MView, x: Option<Tid>) -> bool {
    forall|t: Tid| #[trigger]
        a.threads.contains_key(t) && x != Some(t) ==> b.threads.contains_key(t)
            && b.threads[t].cspace == a.threads[t].cspace
}

/// Sending a capability.
pub proof fn lemma_homes_of_a_sender(a: MView, c: int, ep: u64, data: u64, cap: Cap)
    requires
        a.inv(),
        a.may_block(c),
    ensures
        a.settled(a.sent_cap(c, ep, data, cap)),
{
    if a.endpoints.contains_key(ep) {
        rendezvous::lemma_meets(a, ep);
    }
}

/// Meeting at an endpoint.
proof fn lemma_homes_at_an_endpoint(a: MView, c: int, target: int, ep: u64, msg: Seq<u64>)
    requires
        a.inv(),
        a.may_block(c),
    ensures
        a.settled(a.sent(c, ep, msg)),
        a.settled(a.received(c, ep)),
        a.settled(a.notified(c, target, ep)),
{
    if a.endpoints.contains_key(ep) {
        rendezvous::lemma_meets(a, ep);
    }
}

/// Receiving a capability.
proof fn lemma_homes_of_a_receiver(a: MView, c: int, ep: u64)
    requires
        a.inv(),
        a.may_block(c),
    ensures
        a.settled(a.received_cap(c, ep)),
{
    if a.endpoints.contains_key(ep) {
        rendezvous::lemma_meets(a, ep);
        let me = a.current(c);
        if let crate::ipc::Recv::FromSender(s) = a.endpoints[ep].on_recv() {
            let m = a.with_ep(ep, a.endpoints[ep].after_recv(me));
            let m1 = m.with_thread(s, TView { outgoing_cap: None, ..m.threads[s] });
            assert(a.settled(m1));
            if let Some(k) = a.threads[s].carried() {
                let m2 = m1.with_thread(
                    me,
                    TView {
                        cspace: crate::cap::with_inserted(m1.threads[me].cspace, k),
                        ..m1.threads[me]
                    },
                );
                assert(a.settled(m2));
                assert(a.settled(m2.woken(c, s)));
            } else {
                assert(a.settled(m1.woken(c, s)));
            }
        }
    }
}

/// Calling.
proof fn lemma_homes_of_a_caller(a: MView, c: int, ep: u64, msg: Seq<u64>)
    requires
        a.inv(),
        a.may_block(c),
    ensures
        a.settled(a.called(c, ep, msg)),
{
    if a.endpoints.contains_key(ep) {
        rendezvous::lemma_meets(a, ep);
        let me = a.current(c);
        if let crate::ipc::Send::Rendezvous(r) = a.endpoints[ep].on_send() {
            let m = a.with_ep(ep, a.endpoints[ep].after_send(me));
            let h = m.handed(r, msg[0], crate::cap::reply_to(me), msg[1]);
            assert(a.settled(h));
            let w = h.woken(c, r);
            assert(a.settled(w));
        }
    }
}

/// Dying, and leaving a core.
proof fn lemma_homes_on_the_way_out(a: MView, c: int, event: u64, pc: u64, addr: u64)
    requires
        a.inv(),
        0 <= c < a.cpus.len(),
    ensures
        a.may_block(c) ==> a.settled(a.departed(c, event, pc, addr)),
        a.can_schedule(c) ==> a.settled(a.scheduled(c)),
        a.settled(a.switch_finished(c)),
{
    if let Some(e) = a.threads[a.current(c)].fault_ep {
        if a.endpoints.contains_key(e) {
            rendezvous::lemma_meets(a, e);
        }
    }
    if a.can_schedule(c) && a.buried(c).next_thread(c) is Some {
        switch::lemma_next_is_off_core(a, c);
    }
}

/// **A thread lives where it was built.** Nothing that happens to a thread moves it to another page
/// or to another region, so the region it was built out of is the one its page lies in.
pub proof fn law_a_thread_stays_where_it_lives(
    a: MView,
    c: int,
    target: int,
    ep: u64,
    caller: Tid,
    msg: Seq<u64>,
    cap: Cap,
)
    requires
        a.inv(),
        0 <= c < a.cpus.len(),
        0 <= target < a.cpus.len(),
        a.may_block(c),
    ensures
        a.settled(a.sent(c, ep, msg)),
        a.settled(a.received(c, ep)),
        a.settled(a.sent_cap(c, ep, msg[0], cap)),
        a.settled(a.received_cap(c, ep)),
        a.settled(a.called(c, ep, msg)),
        a.settled(a.replied(c, caller, msg)),
        a.settled(a.departed(c, msg[0], msg[1], msg[2])),
        a.settled(a.notified(c, target, ep)),
        a.can_schedule(c) ==> a.settled(a.scheduled(c)),
        a.settled(a.switch_finished(c)),
{
    lemma_homes_at_an_endpoint(a, c, target, ep, msg);
    lemma_homes_of_a_sender(a, c, ep, msg[0], cap);
    lemma_homes_of_a_receiver(a, c, ep);
    lemma_homes_of_a_caller(a, c, ep, msg);
    lemma_homes_on_the_way_out(a, c, msg[0], msg[1], msg[2]);
}

/// Sending words.
proof fn lemma_sent_caps(a: MView, c: int, ep: u64, msg: Seq<u64>)
    requires
        a.inv(),
        a.may_block(c),
    ensures
        same_caps_but(a, a.sent(c, ep, msg), None),
{
    if a.endpoints.contains_key(ep) {
        rendezvous::lemma_meets(a, ep);
    }
}

/// Receiving words.
proof fn lemma_received_caps(a: MView, c: int, ep: u64)
    requires
        a.inv(),
        a.may_block(c),
    ensures
        same_caps_but(a, a.received(c, ep), None),
{
    if a.endpoints.contains_key(ep) {
        rendezvous::lemma_meets(a, ep);
    }
}

/// Dying.
proof fn lemma_departed_caps(a: MView, c: int, event: u64, pc: u64, addr: u64)
    requires
        a.inv(),
        a.may_block(c),
    ensures
        same_caps_but(a, a.departed(c, event, pc, addr), None),
{
    if let Some(e) = a.threads[a.current(c)].fault_ep {
        if a.endpoints.contains_key(e) {
            rendezvous::lemma_meets(a, e);
        }
    }
}

/// An interrupt.
proof fn lemma_notified_caps(a: MView, here: int, target: int, ep: u64)
    requires
        a.inv(),
    ensures
        same_caps_but(a, a.notified(here, target, ep), None),
{
    if a.endpoints.contains_key(ep) {
        rendezvous::lemma_meets(a, ep);
    }
}

/// A scheduling decision.
proof fn lemma_scheduled_caps(a: MView, c: int)
    requires
        a.inv(),
        0 <= c < a.cpus.len(),
        a.can_schedule(c),
    ensures
        same_caps_but(a, a.scheduled(c), None),
{
    if a.buried(c).next_thread(c) is Some {
        switch::lemma_next_is_off_core(a, c);
    }
}

/// **Words carry no authority.** Sending and receiving plain words, replying, dying, an interrupt
/// and a scheduling decision leave everybody's capabilities as they were.
pub proof fn law_words_carry_no_authority(
    a: MView,
    c: int,
    target: int,
    ep: u64,
    caller: Tid,
    msg: Seq<u64>,
)
    requires
        a.inv(),
        0 <= c < a.cpus.len(),
        0 <= target < a.cpus.len(),
        a.may_block(c),
    ensures
        same_caps_but(a, a.sent(c, ep, msg), None),
        same_caps_but(a, a.received(c, ep), None),
        same_caps_but(a, a.replied(c, caller, msg), None),
        same_caps_but(a, a.departed(c, msg[0], msg[1], msg[2]), None),
        same_caps_but(a, a.notified(c, target, ep), None),
        a.can_schedule(c) ==> same_caps_but(a, a.scheduled(c), None),
{
    lemma_sent_caps(a, c, ep, msg);
    lemma_received_caps(a, c, ep);
    lemma_departed_caps(a, c, msg[0], msg[1], msg[2]);
    lemma_notified_caps(a, c, target, ep);
    if a.can_schedule(c) {
        lemma_scheduled_caps(a, c);
    }
}

/// Sending a capability.
proof fn lemma_sent_cap_caps(a: MView, c: int, ep: u64, data: u64, cap: Cap)
    requires
        a.inv(),
        a.may_block(c),
        a.endpoints.contains_key(ep),
    ensures
        a.endpoints[ep].receivers.len() == 0 ==> same_caps_but(a, a.sent_cap(c, ep, data, cap), None),
        a.endpoints[ep].receivers.len() > 0 ==> {
            let r = a.endpoints[ep].receivers[0];
            &&& same_caps_but(a, a.sent_cap(c, ep, data, cap), Some(r))
            &&& a.sent_cap(c, ep, data, cap).threads[r].cspace == crate::cap::with_inserted(
                a.threads[r].cspace,
                cap,
            )
        },
{
    rendezvous::lemma_meets(a, ep);
}

/// Calling.
proof fn lemma_called_caps(a: MView, c: int, ep: u64, msg: Seq<u64>)
    requires
        a.inv(),
        a.may_block(c),
        a.endpoints.contains_key(ep),
    ensures
        a.endpoints[ep].receivers.len() == 0 ==> same_caps_but(a, a.called(c, ep, msg), None),
        a.endpoints[ep].receivers.len() > 0 ==> {
            let r = a.endpoints[ep].receivers[0];
            &&& same_caps_but(a, a.called(c, ep, msg), Some(r))
            &&& a.called(c, ep, msg).threads[r].cspace == crate::cap::with_inserted(
                a.threads[r].cspace,
                crate::cap::reply_to(a.current(c)),
            )
        },
{
    rendezvous::lemma_meets(a, ep);
    if a.endpoints[ep].receivers.len() > 0 {
        let r = a.endpoints[ep].receivers[0];
        assert(r != a.current(c));
        let m = a.with_ep(ep, a.endpoints[ep].after_send(a.current(c)));
        let h = m.handed(r, msg[0], crate::cap::reply_to(a.current(c)), msg[1]);
        let w = h.woken(c, r);
        assert(same_caps_but(a, w, Some(r)));
    }
}

/// Receiving a capability.
proof fn lemma_received_cap_caps(a: MView, c: int, ep: u64)
    requires
        a.inv(),
        a.may_block(c),
        a.endpoints.contains_key(ep),
    ensures
        ({
            let me = a.current(c);
            let b = a.received_cap(c, ep);
            &&& same_caps_but(a, b, Some(me))
            &&& b.threads[me].cspace == (match a.endpoints[ep].on_recv() {
                crate::ipc::Recv::FromSender(s) => match a.threads[s].carried() {
                    Some(k) => crate::cap::with_inserted(a.threads[me].cspace, k),
                    None => a.threads[me].cspace,
                },
                _ => a.threads[me].cspace,
            })
        }),
{
    rendezvous::lemma_meets(a, ep);
    let me = a.current(c);
    if let crate::ipc::Recv::FromSender(s) = a.endpoints[ep].on_recv() {
        let m = a.with_ep(ep, a.endpoints[ep].after_recv(me));
        let m1 = m.with_thread(s, TView { outgoing_cap: None, ..m.threads[s] });
        assert(s != me);
        if let Some(k) = a.threads[s].carried() {
            let m2 = m1.with_thread(
                me,
                TView {
                    cspace: crate::cap::with_inserted(m1.threads[me].cspace, k),
                    ..m1.threads[me]
                },
            );
            assert(same_caps_but(a, m2, Some(me)));
            assert(m2.woken(c, s).threads[me] == m2.threads[me]);
        } else {
            assert(m1.woken(c, s).threads[me] == m1.threads[me]);
        }
    }
}

/// **A capability goes where it is sent and nowhere else.** Of all tables, only the receiver's can
/// change, and it gains exactly what was sent to it, in a slot that was empty: the capability of a
/// send, or, from a call, the one that names the caller.
pub proof fn law_a_capability_goes_where_it_is_sent(
    a: MView,
    c: int,
    ep: u64,
    data: u64,
    cap: Cap,
    msg: Seq<u64>,
)
    requires
        a.inv(),
        0 <= c < a.cpus.len(),
        a.may_block(c),
        a.endpoints.contains_key(ep),
        msg.len() == 2,
    ensures
        a.endpoints[ep].receivers.len() == 0 ==> same_caps_but(a, a.sent_cap(c, ep, data, cap), None)
            && same_caps_but(a, a.called(c, ep, msg), None),
        a.endpoints[ep].receivers.len() > 0 ==> {
            let r = a.endpoints[ep].receivers[0];
            &&& same_caps_but(a, a.sent_cap(c, ep, data, cap), Some(r))
            &&& a.sent_cap(c, ep, data, cap).threads[r].cspace == crate::cap::with_inserted(
                a.threads[r].cspace,
                cap,
            )
            &&& same_caps_but(a, a.called(c, ep, msg), Some(r))
            &&& a.called(c, ep, msg).threads[r].cspace == crate::cap::with_inserted(
                a.threads[r].cspace,
                crate::cap::reply_to(a.current(c)),
            )
        },
        ({
            let me = a.current(c);
            let b = a.received_cap(c, ep);
            &&& same_caps_but(a, b, Some(me))
            &&& b.threads[me].cspace == (match a.endpoints[ep].on_recv() {
                crate::ipc::Recv::FromSender(s) => match a.threads[s].carried() {
                    Some(k) => crate::cap::with_inserted(a.threads[me].cspace, k),
                    None => a.threads[me].cspace,
                },
                _ => a.threads[me].cspace,
            })
        }),
{
    lemma_sent_cap_caps(a, c, ep, data, cap);
    lemma_called_caps(a, c, ep, msg);
    lemma_received_cap_caps(a, c, ep);
}

} // verus!
