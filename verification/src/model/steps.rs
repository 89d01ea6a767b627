//! The small steps every operation is made of, and why each of them keeps the discipline.
use vstd::prelude::*;

use crate::cap::{Tid, CSPACE_SLOTS};
use crate::cpu::{CpuView, NO_TID};
use crate::model;
use crate::model::{MView, Place};
use crate::thread::{State, TView};

verus! {

impl MView {
    /// Core `c` wakes `tid`. Only a blocked thread wakes. One whose context is not saved yet has
    /// its wake noted; any other joins `c`'s run queue.
    pub open spec fn woken(self, c: int, tid: Tid) -> MView {
        if self.threads.contains_key(tid) && self.threads[tid].state == State::Blocked {
            let t = self.threads[tid];
            if t.on_cpu {
                self.with_thread(tid, TView { wake_pending: true, ..t })
            } else {
                self.with_thread(tid, TView { state: State::Ready, ..t }).pushed_run(c, tid)
            }
        } else {
            self
        }
    }

    pub open spec fn pushed_run(self, c: int, tid: Tid) -> MView {
        self.with_cpu(c, CpuView { runq: self.cpus[c].runq.push(tid), ..self.cpus[c] })
    }

    pub open spec fn pushed_inbox(self, c: int, tid: Tid) -> MView {
        self.with_cpu(c, CpuView { inbox: self.cpus[c].inbox.push(tid), ..self.cpus[c] })
    }

    /// Core `here` hands `tid` to core `target`: onto the run queue if it is its own, into the
    /// inbox if it is not.
    pub open spec fn placed(self, here: int, target: int, tid: Tid) -> MView {
        if here == target {
            self.pushed_run(target, tid)
        } else {
            self.pushed_inbox(target, tid)
        }
    }
}

/// The cores' view of who runs where did not change.
pub open spec fn same_cores(a: MView, b: MView) -> bool {
    &&& a.cpus.len() == b.cpus.len()
    &&& forall|c: int|
        0 <= c < a.cpus.len() ==> {
            &&& (#[trigger] b.cpus[c]).current == a.cpus[c].current
            &&& b.cpus[c].switched_from == a.cpus[c].switched_from
            &&& b.cpus[c].idle == a.cpus[c].idle
        }
}

/// With the cores unchanged and one thread changed in nothing that concerns the cores, what holds
/// of the cores and of the idle threads still holds.
pub proof fn lemma_cores_kept(a: MView, b: MView, tid: Tid)
    requires
        a.cores_ok(),
        a.idles_ok(),
        a.threads_ok(),
        same_cores(a, b),
        a.threads.contains_key(tid),
        b.threads.contains_key(tid),
        b.threads == a.threads.insert(tid, b.threads[tid]),
        b.threads[tid].id == tid,
        b.threads[tid].on_cpu == a.threads[tid].on_cpu,
        a.is_idle(tid) ==> !b.threads[tid].killed && (b.threads[tid].state == State::Ready
            || b.threads[tid].state == State::Running),
    ensures
        b.cores_ok(),
        b.idles_ok(),
{
    assert forall|c: int, t: Tid| #[trigger] b.holds_core(c, t) <==> a.holds_core(c, t) by {
        if 0 <= c < a.cpus.len() {
            assert(b.cpus[c].current == a.cpus[c].current);
        }
    }
    assert forall|t: Tid| #[trigger] b.threads.contains_key(t) implies (b.threads[t].on_cpu
        <==> exists|c: int| #[trigger] b.holds_core(c, t)) by {
        assert(a.threads.contains_key(t));
        if a.threads[t].on_cpu {
            let c = choose|c: int| #[trigger] a.holds_core(c, t);
            assert(b.holds_core(c, t));
        }
        if exists|c: int| #[trigger] b.holds_core(c, t) {
            let c = choose|c: int| #[trigger] b.holds_core(c, t);
            assert(a.holds_core(c, t));
        }
    }
    assert forall|c: int, d: int, t: Tid|
        #![trigger b.holds_core(c, t), b.holds_core(d, t)]
        t != NO_TID && b.holds_core(c, t) && b.holds_core(d, t) implies c == d by {
        assert(a.holds_core(c, t) && a.holds_core(d, t));
    }
    assert forall|c: int|
        0 <= c < b.cpus.len() && (#[trigger] b.cpus[c]).current != NO_TID implies b.cpus[c].current
        != b.cpus[c].switched_from by {
        assert(b.cpus[c].current == a.cpus[c].current);
    }
    assert forall|c: int| 0 <= c < b.cpus.len() && (#[trigger] b.cpus[c]).idle != NO_TID implies ({
        let t = b.threads[b.cpus[c].idle];
        &&& b.threads.contains_key(b.cpus[c].idle)
        &&& t.state == State::Ready || t.state == State::Running
        &&& !t.killed
        &&& t.on_cpu ==> b.holds_core(c, t.id)
    }) by {
        assert(a.cpus[c].idle == b.cpus[c].idle);
        if b.cpus[c].idle == tid {
            assert(a.is_idle(tid));
        }
        assert(a.threads.contains_key(b.cpus[c].idle));
        assert(b.holds_core(c, a.cpus[c].idle) <==> a.holds_core(c, a.cpus[c].idle));
    }
    assert forall|c: int, d: int|
        #![trigger b.cpus[c], b.cpus[d]]
        0 <= c < b.cpus.len() && 0 <= d < b.cpus.len() && b.cpus[c].idle == b.cpus[d].idle
            && b.cpus[c].idle != NO_TID implies c == d by {
        assert(a.cpus[c].idle == b.cpus[c].idle);
        assert(a.cpus[d].idle == b.cpus[d].idle);
    }
}

/// With every queue as it was, everybody in a queue still fitting there and nobody newly ready,
/// the queues are still in order.
pub proof fn lemma_queues_kept(a: MView, b: MView)
    requires
        a.queues_fit(),
        a.queues_apart(),
        a.ready_is_queued(),
        b.cpus.len() == a.cpus.len(),
        forall|c: int| 0 <= c < a.cpus.len() ==> (#[trigger] b.cpus[c]).idle == a.cpus[c].idle,
        forall|p: Place| #[trigger] b.queue(p) == a.queue(p),
        forall|p: Place, i: int|
            #![trigger a.queue(p)[i]]
            0 <= i < a.queue(p).len() ==> b.threads.contains_key(a.queue(p)[i]) && b.fits(
                p,
                b.threads[a.queue(p)[i]],
            ),
        forall|x: Tid| #[trigger]
            b.threads.contains_key(x) && b.threads[x].state == State::Ready ==> a.threads.contains_key(
                x,
            ) && a.threads[x].state == State::Ready || a.is_idle(x),
    ensures
        b.queues_fit(),
        b.queues_apart(),
        b.ready_is_queued(),
{
    model::lemma_idle_same(a, b);
    assert forall|p: Place, i: int|
        #![trigger b.queue(p)[i]]
        0 <= i < b.queue(p).len() implies ({
        let x = b.queue(p)[i];
        &&& b.threads.contains_key(x)
        &&& b.fits(p, b.threads[x])
        &&& !b.is_idle(x)
    }) by {
        assert(a.queue(p)[i] == b.queue(p)[i]);
    }
    assert forall|p: Place, i: int, q: Place, j: int|
        #![trigger b.queue(p)[i], b.queue(q)[j]]
        0 <= i < b.queue(p).len() && 0 <= j < b.queue(q).len() && b.queue(p)[i] == b.queue(
            q,
        )[j] implies p == q && i == j by {
        assert(a.queue(p)[i] == a.queue(q)[j]);
    }
    assert forall|x: Tid| #[trigger]
        b.threads.contains_key(x) && b.threads[x].state == State::Ready implies b.queued(x)
        || b.is_idle(x) by {
        if !a.is_idle(x) {
            assert(a.threads.contains_key(x));
            assert(a.queued(x));
            let (p, i) = choose|p: Place, i: int|
                0 <= i < a.queue(p).len() && #[trigger] a.queue(p)[i] == x;
            assert(b.queue(p)[i] == x);
        }
    }
}

/// A change to a thread that touches nothing the discipline speaks of.
pub open spec fn plain_change(a: MView, tid: Tid, t: TView) -> bool {
    let old_t = a.threads[tid];
    &&& t.id == old_t.id
    &&& t.state == old_t.state
    &&& t.on_cpu == old_t.on_cpu
    &&& t.wake_pending == old_t.wake_pending
    &&& old_t.state == State::Dead ==> t.fault_ep == old_t.fault_ep
    &&& a.is_idle(tid) ==> t.killed == old_t.killed
    &&& t.cspace.len() == CSPACE_SLOTS
    &&& t.mailbox.len() == 5
}

/// Such a change keeps the discipline.
pub proof fn lemma_plain(a: MView, tid: Tid, t: TView)
    requires
        a.inv(),
        a.threads.contains_key(tid),
        plain_change(a, tid, t),
    ensures
        a.with_thread(tid, t).inv(),
{
    reveal(MView::inv);
    let b = a.with_thread(tid, t);
    assert forall|p: Place| #[trigger] b.queue(p) == a.queue(p) by {}
    lemma_queues_kept(a, b);
    lemma_cores_kept(a, b, tid);
    assert(b.threads.dom() =~= a.threads.dom());
}

/// A thread parked on no endpoint that is not ready stands in no queue at all.
pub proof fn lemma_not_queued(a: MView, tid: Tid)
    requires
        a.inv(),
        a.threads.contains_key(tid),
        a.threads[tid].state != State::Ready,
        !a.parked(tid),
    ensures
        !a.queued(tid),
{
    reveal(MView::inv);
    if a.queued(tid) {
        let (p, i) = choose|p: Place, i: int|
            0 <= i < a.queue(p).len() && #[trigger] a.queue(p)[i] == tid;
        assert(a.fits(p, a.threads[tid]));
    }
}

/// A thread that is running, finished or unborn stands in no queue.
pub proof fn lemma_active_not_queued(a: MView, tid: Tid)
    requires
        a.inv(),
        a.threads.contains_key(tid),
        a.threads[tid].state == State::Running || a.threads[tid].state == State::Finished
            || a.threads[tid].state == State::Embryo,
    ensures
        !a.queued(tid),
        !a.parked(tid),
{
    reveal(MView::inv);
    if a.queued(tid) {
        let (p, i) = choose|p: Place, i: int|
            0 <= i < a.queue(p).len() && #[trigger] a.queue(p)[i] == tid;
        assert(a.fits(p, a.threads[tid]));
    }
    if a.parked(tid) {
        let (p, i) = choose|p: Place, i: int|
            (p is Senders || p is Receivers) && 0 <= i < a.queue(p).len() && #[trigger] a.queue(
                p,
            )[i] == tid;
        assert(a.queue(p)[i] == tid);
        assert(a.queued(tid));
    }
}

/// A change of one thread that stands in no queue, into something that need not stand in one.
pub proof fn lemma_unqueued(a: MView, tid: Tid, t: TView)
    requires
        a.inv(),
        a.threads.contains_key(tid),
        !a.queued(tid),
        t.id == tid,
        t.on_cpu == a.threads[tid].on_cpu,
        t.wake_pending ==> t.state == State::Blocked && t.on_cpu,
        t.state != State::Embryo,
        t.cspace.len() == CSPACE_SLOTS,
        t.mailbox.len() == 5,
        t.state == State::Ready ==> a.is_idle(tid),
        a.is_idle(tid) ==> !t.killed && (t.state == State::Ready || t.state == State::Running),
    ensures
        a.with_thread(tid, t).inv(),
{
    reveal(MView::inv);
    let b = a.with_thread(tid, t);
    assert forall|p: Place| #[trigger] b.queue(p) == model::moved(a, tid, None, None, p) by {}
    model::lemma_move(a, b, tid, None, None);
    lemma_cores_kept(a, b, tid);
    assert(b.threads.dom() =~= a.threads.dom());
}

/// A thread that stands in no queue becomes ready on a core's run queue.
pub proof fn lemma_ready_on_run(a: MView, c: int, tid: Tid, t: TView)
    requires
        a.inv(),
        0 <= c < a.cpus.len(),
        a.threads.contains_key(tid),
        !a.queued(tid),
        !a.is_idle(tid),
        t.id == tid,
        t.state == State::Ready,
        t.on_cpu == a.threads[tid].on_cpu,
        !t.on_cpu,
        !t.wake_pending,
        t.cspace.len() == CSPACE_SLOTS,
        t.mailbox.len() == 5,
    ensures
        a.with_thread(tid, t).pushed_run(c, tid).inv(),
{
    reveal(MView::inv);
    let b = a.with_thread(tid, t).pushed_run(c, tid);
    assert forall|p: Place| #[trigger]
        b.queue(p) == model::moved(a, tid, None, Some(Place::Run(c)), p) by {}
    model::lemma_move(a, b, tid, None, Some(Place::Run(c)));
    lemma_cores_kept(a, b, tid);
    assert(b.threads.dom() =~= a.threads.dom());
}

/// A thread that stands in no queue becomes ready in a core's inbox.
pub proof fn lemma_ready_in_inbox(a: MView, c: int, tid: Tid, t: TView)
    requires
        a.inv(),
        0 <= c < a.cpus.len(),
        a.threads.contains_key(tid),
        !a.queued(tid),
        !a.is_idle(tid),
        t.id == tid,
        t.state == State::Ready,
        t.on_cpu == a.threads[tid].on_cpu,
        !t.on_cpu,
        !t.wake_pending,
        t.cspace.len() == CSPACE_SLOTS,
        t.mailbox.len() == 5,
    ensures
        a.with_thread(tid, t).pushed_inbox(c, tid).inv(),
{
    reveal(MView::inv);
    let b = a.with_thread(tid, t).pushed_inbox(c, tid);
    assert forall|p: Place| #[trigger]
        b.queue(p) == model::moved(a, tid, None, Some(Place::Inbox(c)), p) by {}
    model::lemma_move(a, b, tid, None, Some(Place::Inbox(c)));
    lemma_cores_kept(a, b, tid);
    assert(b.threads.dom() =~= a.threads.dom());
}

/// A blocked thread is nobody's idle thread.
pub proof fn lemma_blocked_not_idle(a: MView, tid: Tid)
    requires
        a.inv(),
        a.threads.contains_key(tid),
        a.threads[tid].state != State::Ready,
        a.threads[tid].state != State::Running,
    ensures
        !a.is_idle(tid),
{
    reveal(MView::inv);
    if a.is_idle(tid) {
        let c = choose|c: int| 0 <= c < a.cpus.len() && (#[trigger] a.cpus[c]).idle == tid;
        assert(a.cpus[c].idle != NO_TID);
    }
}

/// Waking keeps the discipline, as long as the thread is off the endpoint's queue first.
pub proof fn lemma_wake(a: MView, c: int, tid: Tid)
    requires
        a.inv(),
        0 <= c < a.cpus.len(),
        !a.parked(tid),
    ensures
        a.woken(c, tid).inv(),
{
    reveal(MView::inv);
    if a.threads.contains_key(tid) && a.threads[tid].state == State::Blocked {
        let t = a.threads[tid];
        lemma_not_queued(a, tid);
        lemma_blocked_not_idle(a, tid);
        if t.on_cpu {
            lemma_unqueued(a, tid, TView { wake_pending: true, ..t });
        } else {
            lemma_ready_on_run(a, c, tid, TView { state: State::Ready, ..t });
        }
    }
}


/// What the discipline says of one thread on its own.
pub proof fn lemma_plain_threads(a: MView, tid: Tid)
    requires
        a.inv(),
        a.threads.contains_key(tid),
    ensures
        a.threads[tid].id == tid,
        tid != NO_TID,
        a.threads[tid].cspace.len() == CSPACE_SLOTS,
        a.threads[tid].mailbox.len() == 5,
        a.threads[tid].wake_pending ==> a.threads[tid].state == State::Blocked
            && a.threads[tid].on_cpu,
        a.threads[tid].state == State::Embryo ==> !a.threads[tid].on_cpu,
{
    reveal(MView::inv);
}

} // verus!
