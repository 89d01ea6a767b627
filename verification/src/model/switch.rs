//! Choosing the next thread, and leaving the last one.
use vstd::prelude::*;

use crate::cap::{Tid, CSPACE_SLOTS};
use crate::cpu::{CpuView, NO_TID};
use crate::model;
use crate::model::steps;
use crate::model::{MView, Place};
use crate::thread::{State, TView};

verus! {

impl MView {
    /// A torn-down thread that is still running becomes a corpse before anything else is decided.
    pub open spec fn buried(self, c: int) -> MView {
        let cur = self.cpus[c].current;
        if self.threads.contains_key(cur) && self.threads[cur].killed && self.threads[cur].state
            == State::Running {
            self.with_thread(cur, TView { state: State::Finished, ..self.threads[cur] })
        } else {
            self
        }
    }

    /// Can the thread on core `c` carry on?
    pub open spec fn carries_on(self, c: int) -> bool {
        let cur = self.cpus[c].current;
        self.threads.contains_key(cur) && self.threads[cur].state == State::Running
    }

    /// Whom core `c` goes to: the first on its run queue, or nobody (the thread it runs carries
    /// on), or its idle thread.
    pub open spec fn next_thread(self, c: int) -> Option<Tid> {
        if self.cpus[c].runq.len() > 0 {
            Some(self.cpus[c].runq[0])
        } else if self.carries_on(c) {
            None
        } else {
            Some(self.cpus[c].idle)
        }
    }

    /// Core `c` goes to `next`, taking it off the head of the run queue if it stands there.
    pub open spec fn dispatched(self, c: int, next: Tid) -> MView {
        let cpu = self.cpus[c];
        let t = self.threads[next];
        let m = self.with_thread(next, TView { state: State::Running, on_cpu: true, ..t });
        m.with_cpu(
            c,
            CpuView {
                runq: if cpu.runq.len() > 0 {
                    cpu.runq.skip(1)
                } else {
                    cpu.runq
                },
                current: next,
                switched_from: cpu.current,
                ..cpu
            },
        )
    }

    /// The machine after core `c` made up its mind: a torn-down thread is a corpse, the next thread
    /// runs, and the last one, if it could have carried on and is not the idle thread, is at the
    /// back of the run queue.
    pub open spec fn scheduled(self, c: int) -> MView {
        let a = self.buried(c);
        let cur = a.cpus[c].current;
        match a.next_thread(c) {
            None => a,
            Some(next) => {
                let b = a.dispatched(c, next);
                if a.carries_on(c) && cur != a.cpus[c].idle {
                    b.with_thread(cur, TView { state: State::Ready, ..b.threads[cur] }).pushed_run(
                        c,
                        cur,
                    )
                } else {
                    b
                }
            },
        }
    }

    /// Is there something for core `c` to run?
    pub open spec fn can_schedule(self, c: int) -> bool {
        let cpu = self.cpus[c];
        &&& self.threads.contains_key(cpu.current)
        &&& cpu.switched_from == NO_TID
        &&& cpu.runq.len() > 0 || self.buried(c).carries_on(c) || (cpu.idle != NO_TID
            && cpu.current != cpu.idle)
    }

    /// The machine without thread `tid`. Its slot in a spawning budget, if it held one, is free
    /// again.
    pub open spec fn removed(self, tid: Tid) -> MView {
        MView {
            threads: self.threads.remove(tid),
            quotas: returned(self.quotas, self.threads[tid].quota),
            ..self
        }
    }

    /// Core `c` has arrived in its new thread, so the one it left is off its stack: a finished
    /// thread is collected, any other may be run again, and a wake that came too early is
    /// completed.
    pub open spec fn switch_finished(self, c: int) -> MView {
        let prev = self.cpus[c].switched_from;
        let m = self.with_cpu(c, CpuView { switched_from: NO_TID, ..self.cpus[c] });
        if prev == NO_TID || !self.threads.contains_key(prev) {
            m
        } else {
            let t = self.threads[prev];
            if t.state == State::Finished {
                m.removed(prev)
            } else if t.wake_pending {
                m.with_thread(
                    prev,
                    TView { on_cpu: false, wake_pending: false, state: State::Ready, ..t },
                ).pushed_run(c, prev)
            } else {
                m.with_thread(prev, TView { on_cpu: false, ..t })
            }
        }
    }
}

/// A spawning budget after a slot came back to it. The count wraps, as an atomic counter does.
pub open spec fn returned(quotas: Seq<u32>, quota: Option<usize>) -> Seq<u32> {
    match quota {
        Some(q) => if q < quotas.len() {
            quotas.update(
                q as int,
                if quotas[q as int] == u32::MAX {
                    0
                } else {
                    (quotas[q as int] + 1) as u32
                },
            )
        } else {
            quotas
        },
        None => quotas,
    }
}

/// Burying keeps the discipline.
pub proof fn lemma_bury(a: MView, c: int)
    requires
        a.inv(),
        0 <= c < a.cpus.len(),
    ensures
        a.buried(c).inv(),
        a.buried(c).cpus == a.cpus,
{
    reveal(MView::inv);
    let cur = a.cpus[c].current;
    if a.threads.contains_key(cur) && a.threads[cur].killed && a.threads[cur].state
        == State::Running {
        steps::lemma_active_not_queued(a, cur);
        if a.is_idle(cur) {
            let d = choose|d: int| 0 <= d < a.cpus.len() && (#[trigger] a.cpus[d]).idle == cur;
            assert(a.cpus[d].idle != NO_TID);
            assert(false);
        }
        steps::lemma_unqueued(a, cur, TView { state: State::Finished, ..a.threads[cur] });
    }
}

/// The thread a core goes to has its context saved, so no other core is in it.
pub proof fn lemma_next_is_off_core(a: MView, c: int)
    requires
        a.inv(),
        0 <= c < a.cpus.len(),
        a.can_schedule(c),
        a.buried(c).next_thread(c) is Some,
    ensures
        ({
            let b = a.buried(c);
            let next = b.next_thread(c)->0;
            &&& b.threads.contains_key(next)
            &&& !b.threads[next].on_cpu
            &&& next != b.cpus[c].current
            &&& b.threads[next].state == State::Ready || b.threads[next].state == State::Running
            &&& b.cpus[c].runq.len() == 0 ==> !b.queued(next)
        }),
{
    reveal(MView::inv);
    let b = a.buried(c);
    lemma_bury(a, c);
    let next = b.next_thread(c)->0;
    let cur = b.cpus[c].current;
    assert(b.holds_core(c, cur));
    assert(b.threads.contains_key(cur));
    assert(b.threads[cur].on_cpu);
    if b.cpus[c].runq.len() > 0 {
        assert(b.queue(Place::Run(c))[0] == next);
    } else {
        assert(b.cpus[c].idle == next);
        assert(b.threads.contains_key(next));
        if b.threads[next].on_cpu {
            assert(b.holds_core(c, next));
            assert(false);
        }
        assert(b.is_idle(next));
        if b.queued(next) {
            let (p, i) = choose|p: Place, i: int|
                0 <= i < b.queue(p).len() && #[trigger] b.queue(p)[i] == next;
            assert(false);
        }
    }
}

/// Scheduling keeps the discipline.
pub proof fn lemma_schedule(m: MView, c: int)
    requires
        m.inv(),
        0 <= c < m.cpus.len(),
        m.can_schedule(c),
    ensures
        m.scheduled(c).inv(),
{
    reveal(MView::inv);
    let a = m.buried(c);
    lemma_bury(m, c);
    if a.next_thread(c) is Some {
        let next = a.next_thread(c)->0;
        let cur = a.cpus[c].current;
        lemma_next_is_off_core(m, c);
        let b = a.dispatched(c, next);
        let from = if a.cpus[c].runq.len() > 0 {
            Some(Place::Run(c))
        } else {
            None
        };
        assert forall|p: Place| #[trigger] b.queue(p) == model::moved(a, next, from, None, p) by {
            if p is Run && 0 <= p->Run_0 < a.cpus.len() && p->Run_0 != c {
                assert(b.cpus[p->Run_0] == a.cpus[p->Run_0]);
            }
        }
        assert forall|p: Place, i: int|
            #![trigger a.queue(p)[i]]
            0 <= i < a.queue(p).len() && a.queue(p)[i] != next implies b.fits(
            p,
            a.threads[a.queue(p)[i]],
        ) by {
            assert(a.fits(p, a.threads[a.queue(p)[i]]));
        }
        model::lemma_move(a, b, next, from, None);
        model::lemma_idle_same(a, b);
        assert(b.threads.dom() =~= a.threads.dom());
        // The cores: `c` holds `next` and `cur` now, the others hold what they held.
        assert forall|d: int, t: Tid| #[trigger] b.holds_core(d, t) <==> (d == c && (t == next || t
            == cur)) || (d != c && a.holds_core(d, t)) by {
            if 0 <= d < a.cpus.len() && d != c {
                assert(b.cpus[d] == a.cpus[d]);
            }
        }
        assert forall|d: int| d != c implies !a.holds_core(d, next) by {
            if a.holds_core(d, next) {
                assert(a.threads[next].on_cpu);
            }
        }
        assert forall|d: int, t: Tid| #[trigger] b.holds_core(d, t) implies t == next
            || a.holds_core(d, t) by {}
        assert(b.cores_ok()) by {
            assert forall|t: Tid| #[trigger] b.threads.contains_key(t) implies (b.threads[t].on_cpu
                <==> exists|d: int| #[trigger] b.holds_core(d, t)) by {
                assert(a.threads.contains_key(t));
                if t == next {
                    assert(b.holds_core(c, next));
                } else {
                    if a.threads[t].on_cpu {
                        let d = choose|d: int| #[trigger] a.holds_core(d, t);
                        assert(b.holds_core(d, t));
                    }
                    if exists|d: int| #[trigger] b.holds_core(d, t) {
                        let d = choose|d: int| #[trigger] b.holds_core(d, t);
                        assert(a.holds_core(d, t));
                    }
                }
            }
            assert forall|d: int, e: int, t: Tid|
                #![trigger b.holds_core(d, t), b.holds_core(e, t)]
                t != NO_TID && b.holds_core(d, t) && b.holds_core(e, t) implies d == e by {
                if t != next {
                    assert(a.holds_core(d, t) && a.holds_core(e, t));
                }
            }
            assert forall|d: int|
                0 <= d < b.cpus.len() && (#[trigger] b.cpus[d]).current
                    != NO_TID implies b.cpus[d].current != b.cpus[d].switched_from by {
                if d != c {
                    assert(b.cpus[d] == a.cpus[d]);
                }
            }
        }
        assert(b.idles_ok()) by {
            assert forall|d: int|
                0 <= d < b.cpus.len() && (#[trigger] b.cpus[d]).idle != NO_TID implies ({
                let t = b.threads[b.cpus[d].idle];
                &&& b.threads.contains_key(b.cpus[d].idle)
                &&& t.state == State::Ready || t.state == State::Running
                &&& !t.killed
                &&& t.on_cpu ==> b.holds_core(d, t.id)
            }) by {
                assert(a.cpus[d].idle == b.cpus[d].idle);
                let i = a.cpus[d].idle;
                assert(a.threads.contains_key(i));
                if i == next {
                    if d != c {
                        // `next` is `d`'s idle thread, so it is neither queued nor `c`'s own.
                        assert(a.is_idle(next));
                        assert(a.cpus[c].runq.len() == 0 || a.queue(Place::Run(c))[0] == next);
                        assert(false);
                    }
                } else if a.threads[i].on_cpu {
                    assert(a.holds_core(d, i));
                    assert(b.holds_core(d, i));
                }
            }
            assert forall|d: int, e: int|
                #![trigger b.cpus[d], b.cpus[e]]
                0 <= d < b.cpus.len() && 0 <= e < b.cpus.len() && b.cpus[d].idle == b.cpus[e].idle
                    && b.cpus[d].idle != NO_TID implies d == e by {
                assert(a.cpus[d].idle == b.cpus[d].idle);
                assert(a.cpus[e].idle == b.cpus[e].idle);
            }
        }
        assert(b.threads_ok()) by {
            assert forall|t: Tid| #[trigger] b.threads.contains_key(t) implies ({
                let x = b.threads[t];
                &&& x.id == t
                &&& t != NO_TID
                &&& x.wake_pending ==> x.state == State::Blocked && x.on_cpu
                &&& x.cspace.len() == CSPACE_SLOTS
                &&& x.mailbox.len() == 5
            }) by {
                assert(a.threads.contains_key(t));
            }
        }
        assert(b.inv());
        if a.carries_on(c) && cur != a.cpus[c].idle {
            let t = TView { state: State::Ready, ..b.threads[cur] };
            let f = b.with_thread(cur, t).pushed_run(c, cur);
            assert(b.threads[cur].state == State::Running);
            steps::lemma_active_not_queued(b, cur);
            assert(a.holds_core(c, cur));
            if b.is_idle(cur) {
                let d = choose|d: int| 0 <= d < b.cpus.len() && (#[trigger] b.cpus[d]).idle == cur;
                assert(b.cpus[d].idle != NO_TID);
                assert(b.threads[cur].on_cpu);
                assert(b.holds_core(d, cur) && b.holds_core(c, cur));
                assert(false);
            }
            assert forall|p: Place| #[trigger]
                f.queue(p) == model::moved(b, cur, None, Some(Place::Run(c)), p) by {
                if p is Run && 0 <= p->Run_0 < b.cpus.len() && p->Run_0 != c {
                    assert(f.cpus[p->Run_0] == b.cpus[p->Run_0]);
                }
            }
            assert forall|p: Place, i: int|
                #![trigger b.queue(p)[i]]
                0 <= i < b.queue(p).len() && b.queue(p)[i] != cur implies f.fits(
                p,
                b.threads[b.queue(p)[i]],
            ) by {
                assert(b.fits(p, b.threads[b.queue(p)[i]]));
            }
            model::lemma_move(b, f, cur, None, Some(Place::Run(c)));
            steps::lemma_cores_kept(b, f, cur);
            assert(f.threads.dom() =~= b.threads.dom());
        }
    }
}


/// Removing a thread that stands in no queue and is nobody's idle thread keeps the discipline.
pub proof fn lemma_remove(a: MView, tid: Tid)
    requires
        a.inv(),
        a.threads.contains_key(tid),
        !a.queued(tid),
        !a.is_idle(tid),
    ensures
        a.removed(tid).inv(),
{
    reveal(MView::inv);
    let b = a.removed(tid);
    assert forall|p: Place| #[trigger] b.queue(p) == a.queue(p) by {}
    assert forall|p: Place, i: int|
        #![trigger a.queue(p)[i]]
        0 <= i < a.queue(p).len() implies b.threads.contains_key(a.queue(p)[i]) && b.fits(
        p,
        b.threads[a.queue(p)[i]],
    ) by {
        assert(a.queue(p)[i] != tid);
    }
    steps::lemma_queues_kept(a, b);
    assert forall|c: int, t: Tid| #[trigger] b.holds_core(c, t) <==> a.holds_core(c, t) by {}
    assert(b.cores_ok()) by {
        assert forall|t: Tid| #[trigger] b.threads.contains_key(t) implies (b.threads[t].on_cpu
            <==> exists|c: int| #[trigger] b.holds_core(c, t)) by {
            assert(a.threads.contains_key(t));
            if a.threads[t].on_cpu {
                let c = choose|c: int| #[trigger] a.holds_core(c, t);
                assert(b.holds_core(c, t));
            }
            if exists|c: int| #[trigger] b.holds_core(c, t) {
                let c = choose|c: int| #[trigger] b.holds_core(c, t);
                assert(a.holds_core(c, t));
            }
        }
        assert forall|c: int, d: int, t: Tid|
            #![trigger b.holds_core(c, t), b.holds_core(d, t)]
            t != NO_TID && b.holds_core(c, t) && b.holds_core(d, t) implies c == d by {
            assert(a.holds_core(c, t) && a.holds_core(d, t));
        }
    }
    assert(b.idles_ok()) by {
        assert forall|c: int|
            0 <= c < b.cpus.len() && (#[trigger] b.cpus[c]).idle != NO_TID implies ({
            let t = b.threads[b.cpus[c].idle];
            &&& b.threads.contains_key(b.cpus[c].idle)
            &&& t.state == State::Ready || t.state == State::Running
            &&& !t.killed
            &&& t.on_cpu ==> b.holds_core(c, t.id)
        }) by {
            let i = a.cpus[c].idle;
            assert(i != tid) by {
                if i == tid {
                    assert(a.is_idle(tid));
                }
            }
            assert(a.threads.contains_key(i));
            assert(b.holds_core(c, i) <==> a.holds_core(c, i));
        }
    }
    assert forall|t: Tid| #[trigger] b.threads.contains_key(t) implies ({
        let x = b.threads[t];
        &&& x.id == t
        &&& t != NO_TID
        &&& x.wake_pending ==> x.state == State::Blocked && x.on_cpu
        &&& x.cspace.len() == CSPACE_SLOTS
        &&& x.mailbox.len() == 5
    }) by {
        assert(a.threads.contains_key(t));
    }
    if !b.running {
        assert(b.threads.dom() =~= Set::<Tid>::empty());
    }
}

/// The moment a core lets go of the thread it left: nothing else changed yet.
proof fn lemma_let_go(a: MView, c: int)
    requires
        a.inv(),
        0 <= c < a.cpus.len(),
        a.cpus[c].switched_from != NO_TID,
        a.threads.contains_key(a.cpus[c].switched_from),
    ensures
        ({
            let prev = a.cpus[c].switched_from;
            let t = a.threads[prev];
            let b = a.with_cpu(c, CpuView { switched_from: NO_TID, ..a.cpus[c] }).with_thread(
                prev,
                TView { on_cpu: false, ..t },
            );
            &&& t.on_cpu
            &&& !t.wake_pending ==> b.inv()
            &&& t.wake_pending ==> {
                let b2 = a.with_cpu(c, CpuView { switched_from: NO_TID, ..a.cpus[c] }).with_thread(
                    prev,
                    TView { on_cpu: false, wake_pending: false, ..t },
                );
                &&& b2.inv()
                &&& !b2.is_idle(prev)
                &&& !a.parked(prev)
                &&& !b2.queued(prev)
            }
        }),
{
    reveal(MView::inv);
    let prev = a.cpus[c].switched_from;
    let t = a.threads[prev];
    assert(a.holds_core(c, prev));
    let b = a.with_cpu(c, CpuView { switched_from: NO_TID, ..a.cpus[c] }).with_thread(
        prev,
        TView { on_cpu: false, wake_pending: false, ..t },
    );
    assert forall|p: Place| #[trigger] b.queue(p) == a.queue(p) by {
        match p {
            Place::Run(d) => {
                if 0 <= d < a.cpus.len() && d != c {
                    assert(b.cpus[d] == a.cpus[d]);
                }
            },
            Place::Inbox(d) => {
                if 0 <= d < a.cpus.len() && d != c {
                    assert(b.cpus[d] == a.cpus[d]);
                }
            },
            _ => {},
        }
    }
    assert forall|p: Place, i: int|
        #![trigger a.queue(p)[i]]
        0 <= i < a.queue(p).len() implies b.threads.contains_key(a.queue(p)[i]) && b.fits(
        p,
        b.threads[a.queue(p)[i]],
    ) by {
        let x = a.queue(p)[i];
        assert(a.fits(p, a.threads[x]));
        if p is Run && p->Run_0 != c && 0 <= p->Run_0 < a.cpus.len() {
            assert(b.cpus[p->Run_0] == a.cpus[p->Run_0]);
        }
    }
    assert forall|d: int| 0 <= d < a.cpus.len() implies (#[trigger] b.cpus[d]).idle
        == a.cpus[d].idle && b.cpus[d].current == a.cpus[d].current by {}
    steps::lemma_queues_kept(a, b);
    assert forall|d: int, x: Tid| #[trigger]
        b.holds_core(d, x) && x != NO_TID <==> a.holds_core(d, x) && x != NO_TID && x
            != prev by {
        if 0 <= d < a.cpus.len() {
            if d != c {
                assert(b.cpus[d] == a.cpus[d]);
            }
            assert(a.cpus[c].current != NO_TID ==> a.cpus[c].current != prev);
            if x == prev && a.holds_core(d, x) {
                assert(d == c);
            }
        }
    }
    assert(b.cores_ok()) by {
        assert forall|x: Tid| #[trigger] b.threads.contains_key(x) implies (b.threads[x].on_cpu
            <==> exists|d: int| #[trigger] b.holds_core(d, x)) by {
            assert(a.threads.contains_key(x));
            if x != prev && a.threads[x].on_cpu {
                let d = choose|d: int| #[trigger] a.holds_core(d, x);
                assert(b.holds_core(d, x));
            }
            if exists|d: int| #[trigger] b.holds_core(d, x) {
                let d = choose|d: int| #[trigger] b.holds_core(d, x);
                assert(a.holds_core(d, x));
            }
        }
        assert forall|d: int, e: int, x: Tid|
            #![trigger b.holds_core(d, x), b.holds_core(e, x)]
            x != NO_TID && b.holds_core(d, x) && b.holds_core(e, x) implies d == e by {
            assert(a.holds_core(d, x) && a.holds_core(e, x));
        }
        assert forall|d: int|
            0 <= d < b.cpus.len() && (#[trigger] b.cpus[d]).current
                != NO_TID implies b.cpus[d].current != b.cpus[d].switched_from by {
            if d != c {
                assert(b.cpus[d] == a.cpus[d]);
            }
        }
    }
    assert(b.idles_ok()) by {
        assert forall|d: int|
            0 <= d < b.cpus.len() && (#[trigger] b.cpus[d]).idle != NO_TID implies ({
            let x = b.threads[b.cpus[d].idle];
            &&& b.threads.contains_key(b.cpus[d].idle)
            &&& x.state == State::Ready || x.state == State::Running
            &&& !x.killed
            &&& x.on_cpu ==> b.holds_core(d, x.id)
        }) by {
            let i = a.cpus[d].idle;
            assert(b.cpus[d].idle == i);
            assert(a.threads.contains_key(i));
            if i != prev && a.threads[i].on_cpu {
                assert(a.holds_core(d, i));
                assert(b.holds_core(d, i));
            }
        }
        assert forall|d: int, e: int|
            #![trigger b.cpus[d], b.cpus[e]]
            0 <= d < b.cpus.len() && 0 <= e < b.cpus.len() && b.cpus[d].idle == b.cpus[e].idle
                && b.cpus[d].idle != NO_TID implies d == e by {
            assert(a.cpus[d].idle == b.cpus[d].idle);
            assert(a.cpus[e].idle == b.cpus[e].idle);
        }
    }
    assert(b.threads_ok()) by {
        assert forall|x: Tid| #[trigger] b.threads.contains_key(x) implies ({
            let y = b.threads[x];
            &&& y.id == x
            &&& x != NO_TID
            &&& y.wake_pending ==> y.state == State::Blocked && y.on_cpu
            &&& y.cspace.len() == CSPACE_SLOTS
            &&& y.mailbox.len() == 5
        }) by {
            assert(a.threads.contains_key(x));
        }
    }
    assert(b.threads.dom() =~= a.threads.dom());
    if t.wake_pending {
        steps::lemma_blocked_not_idle(a, prev);
        model::lemma_idle_same(a, b);
        if a.queued(prev) {
            let (p, i) = choose|p: Place, i: int|
                0 <= i < a.queue(p).len() && #[trigger] a.queue(p)[i] == prev;
            assert(a.fits(p, a.threads[prev]));
        }
        if a.parked(prev) {
            let (p, i) = choose|p: Place, i: int|
                (p is Senders || p is Receivers) && 0 <= i < a.queue(p).len()
                    && #[trigger] a.queue(p)[i] == prev;
            assert(a.queue(p)[i] == prev);
            assert(a.queued(prev));
        }
        if b.queued(prev) {
            let (p, i) = choose|p: Place, i: int|
                0 <= i < b.queue(p).len() && #[trigger] b.queue(p)[i] == prev;
            assert(a.queue(p)[i] == prev);
        }
    } else {
        assert(b.threads =~= a.threads.insert(prev, TView { on_cpu: false, ..t }));
        assert(b =~= a.with_cpu(c, CpuView { switched_from: NO_TID, ..a.cpus[c] }).with_thread(
            prev,
            TView { on_cpu: false, ..t },
        ));
    }
}

/// A core with nothing to let go of, or with a name that resolves no more, just forgets it.
proof fn lemma_forget(a: MView, c: int)
    requires
        a.inv(),
        0 <= c < a.cpus.len(),
        a.cpus[c].switched_from == NO_TID || !a.threads.contains_key(a.cpus[c].switched_from),
    ensures
        a.with_cpu(c, CpuView { switched_from: NO_TID, ..a.cpus[c] }).inv(),
{
    reveal(MView::inv);
    let prev = a.cpus[c].switched_from;
    let b = a.with_cpu(c, CpuView { switched_from: NO_TID, ..a.cpus[c] });
    assert forall|d: int| 0 <= d < a.cpus.len() && d != c implies #[trigger] b.cpus[d]
        == a.cpus[d] by {}
    assert forall|p: Place| #[trigger] b.queue(p) == a.queue(p) by {
        match p {
            Place::Run(d) => {
                if 0 <= d < a.cpus.len() && d != c {
                    assert(b.cpus[d] == a.cpus[d]);
                }
            },
            Place::Inbox(d) => {
                if 0 <= d < a.cpus.len() && d != c {
                    assert(b.cpus[d] == a.cpus[d]);
                }
            },
            _ => {},
        }
    }
    assert forall|p: Place, i: int|
        #![trigger a.queue(p)[i]]
        0 <= i < a.queue(p).len() implies b.threads.contains_key(a.queue(p)[i]) && b.fits(
        p,
        b.threads[a.queue(p)[i]],
    ) by {
        let x = a.queue(p)[i];
        assert(a.fits(p, a.threads[x]));
        if p is Run && p->Run_0 != c && 0 <= p->Run_0 < a.cpus.len() {
            assert(b.cpus[p->Run_0] == a.cpus[p->Run_0]);
        }
    }
    steps::lemma_queues_kept(a, b);
    assert forall|d: int, x: Tid| #[trigger] b.holds_core(d, x) && x != NO_TID implies a.holds_core(
        d,
        x,
    ) by {
        if 0 <= d < a.cpus.len() && d != c {
            assert(b.cpus[d] == a.cpus[d]);
        }
    }
    assert forall|d: int, x: Tid| #[trigger] a.holds_core(d, x) && a.threads.contains_key(
        x,
    ) implies b.holds_core(d, x) by {
        if 0 <= d < a.cpus.len() && d != c {
            assert(b.cpus[d] == a.cpus[d]);
        }
    }
    assert(b.cores_ok()) by {
        assert forall|x: Tid| #[trigger] b.threads.contains_key(x) implies (b.threads[x].on_cpu
            <==> exists|d: int| #[trigger] b.holds_core(d, x)) by {
            assert(a.threads.contains_key(x));
            if a.threads[x].on_cpu {
                let d = choose|d: int| #[trigger] a.holds_core(d, x);
                assert(b.holds_core(d, x));
            }
            if exists|d: int| #[trigger] b.holds_core(d, x) {
                let d = choose|d: int| #[trigger] b.holds_core(d, x);
                assert(a.holds_core(d, x));
            }
        }
        assert forall|d: int, e: int, x: Tid|
            #![trigger b.holds_core(d, x), b.holds_core(e, x)]
            x != NO_TID && b.holds_core(d, x) && b.holds_core(e, x) implies d == e by {
            assert(a.holds_core(d, x) && a.holds_core(e, x));
        }
        assert forall|d: int|
            0 <= d < b.cpus.len() && (#[trigger] b.cpus[d]).current
                != NO_TID implies b.cpus[d].current != b.cpus[d].switched_from by {
            if d != c {
                assert(b.cpus[d] == a.cpus[d]);
            }
        }
    }
    assert(b.idles_ok()) by {
        assert forall|d: int|
            0 <= d < b.cpus.len() && (#[trigger] b.cpus[d]).idle != NO_TID implies ({
            let x = b.threads[b.cpus[d].idle];
            &&& b.threads.contains_key(b.cpus[d].idle)
            &&& x.state == State::Ready || x.state == State::Running
            &&& !x.killed
            &&& x.on_cpu ==> b.holds_core(d, x.id)
        }) by {
            let i = a.cpus[d].idle;
            assert(b.cpus[d].idle == i);
            assert(a.threads.contains_key(i));
            if a.threads[i].on_cpu {
                assert(a.holds_core(d, i));
                assert(b.holds_core(d, i));
            }
        }
        assert forall|d: int, e: int|
            #![trigger b.cpus[d], b.cpus[e]]
            0 <= d < b.cpus.len() && 0 <= e < b.cpus.len() && b.cpus[d].idle == b.cpus[e].idle
                && b.cpus[d].idle != NO_TID implies d == e by {
            assert(a.cpus[d].idle == b.cpus[d].idle);
            assert(a.cpus[e].idle == b.cpus[e].idle);
        }
    }
}

/// Finishing a switch keeps the discipline.
pub proof fn lemma_finish_switch(a: MView, c: int)
    requires
        a.inv(),
        0 <= c < a.cpus.len(),
    ensures
        a.switch_finished(c).inv(),
{
    reveal(MView::inv);
    let prev = a.cpus[c].switched_from;
    if prev == NO_TID || !a.threads.contains_key(prev) {
        lemma_forget(a, c);
    } else {
        let t = a.threads[prev];
        lemma_let_go(a, c);
        let cpu = CpuView { switched_from: NO_TID, ..a.cpus[c] };
        if t.state == State::Finished {
            let b = a.with_cpu(c, cpu).with_thread(prev, TView { on_cpu: false, ..t });
            steps::lemma_active_not_queued(b, prev);
            steps::lemma_blocked_not_idle(b, prev);
            lemma_remove(b, prev);
            assert(b.removed(prev).threads =~= a.threads.remove(prev));
            assert(a.switch_finished(c) =~= b.removed(prev));
        } else if t.wake_pending {
            let b = a.with_cpu(c, cpu).with_thread(
                prev,
                TView { on_cpu: false, wake_pending: false, ..t },
            );
            let t2 = TView { on_cpu: false, wake_pending: false, state: State::Ready, ..t };
            steps::lemma_ready_on_run(b, c, prev, t2);
            assert(b.with_thread(prev, t2).threads =~= a.threads.insert(prev, t2));
            assert(a.switch_finished(c) =~= b.with_thread(prev, t2).pushed_run(c, prev));
        }
    }
}

} // verus!
