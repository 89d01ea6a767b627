//! New threads, and threads on their way from core to core.
use vstd::prelude::*;

use crate::cap::{Tid, CSPACE_SLOTS};
use crate::cpu::{CpuView, NO_TID};
use crate::ipc::EpView;
use crate::model;
use crate::model::steps;
use crate::model::{MView, Place};
use crate::thread::{State, TView};

verus! {

impl MView {
    /// Nothing in the machine refers to `tid`: no core runs it, left it or idles in it.
    pub open spec fn unknown(self, tid: Tid) -> bool {
        &&& tid != NO_TID
        &&& !self.threads.contains_key(tid)
        &&& forall|c: int|
            0 <= c < self.cpus.len() ==> (#[trigger] self.cpus[c]).current != tid
                && self.cpus[c].switched_from != tid && self.cpus[c].idle != tid
    }

    /// Everything in core `c`'s inbox moves to the back of its run queue, in order, and a
    /// scheduling decision is asked for if there was anything.
    pub open spec fn drained(self, c: int) -> MView {
        let cpu = self.cpus[c];
        if cpu.inbox.len() > 0 {
            self.with_cpu(
                c,
                CpuView {
                    runq: cpu.runq + cpu.inbox,
                    inbox: Seq::empty(),
                    need_resched: true,
                    ..cpu
                },
            )
        } else {
            self
        }
    }

    /// Core `c` answers a request for work, if there is one: the request is taken, and the first
    /// thread of the run queue, if there is one, goes to the inbox of the core that asked.
    pub open spec fn steal_served(self, c: int) -> MView {
        let cpu = self.cpus[c];
        let m = self.with_cpu(c, CpuView { steal_request: 0, ..cpu });
        if cpu.steal_request == 0 || cpu.runq.len() == 0 {
            m
        } else {
            m.with_cpu(c, CpuView { runq: cpu.runq.skip(1), ..m.cpus[c] }).pushed_inbox(
                cpu.steal_request - 1,
                cpu.runq[0],
            )
        }
    }

    /// The core the answer goes to.
    pub open spec fn thief(self, c: int) -> Option<int> {
        let cpu = self.cpus[c];
        if cpu.steal_request == 0 || cpu.runq.len() == 0 {
            None
        } else {
            Some(cpu.steal_request - 1)
        }
    }

    /// Is `v` the online core other than `me` with the longest run queue, and the first such? It
    /// must have something on it.
    pub open spec fn is_victim(self, me: int, v: int) -> bool {
        &&& 0 <= v < self.online
        &&& v != me
        &&& self.cpus[v].runq.len() > 0
        &&& forall|c: int|
            0 <= c < self.online && c != me ==> (#[trigger] self.cpus[c]).runq.len()
                <= self.cpus[v].runq.len()
        &&& forall|c: int|
            0 <= c < v && c != me ==> (#[trigger] self.cpus[c]).runq.len()
                < self.cpus[v].runq.len()
    }

    /// Core `me` asks `v` for work, unless somebody else's request is waiting there.
    pub open spec fn steal_asked(self, me: int, v: int) -> MView {
        if self.cpus[v].steal_request == 0 {
            self.with_cpu(v, CpuView { steal_request: (me + 1) as u32, ..self.cpus[v] })
        } else {
            self
        }
    }

    /// The lighter of the two cores that `a` and `b` sample, the first on a tie.
    pub open spec fn lighter(self, here: int, a: u64, b: u64) -> int {
        if self.online <= 1 {
            here
        } else {
            let i = a as int % self.online as int;
            let j = b as int % self.online as int;
            if self.cpus[i].runnable() <= self.cpus[j].runnable() {
                i
            } else {
                j
            }
        }
    }

    /// Is `t` the least loaded online core? `here` wins ties, then the lowest number does.
    pub open spec fn is_lightest(self, here: int, t: int) -> bool {
        let load = |c: int| self.cpus[c].runnable();
        &&& t == here || 0 <= t < self.online
        &&& load(t) <= load(here)
        &&& forall|c: int| 0 <= c < self.online ==> load(t) <= (#[trigger] self.cpus[c]).runnable()
        &&& load(t) == load(here) ==> t == here
        &&& t != here ==> forall|c: int|
            0 <= c < t ==> load(t) < (#[trigger] self.cpus[c]).runnable()
    }

    /// The least loaded online core, as seen from core `here`. There is just one.
    pub open spec fn lightest(self, here: int) -> int {
        choose|t: int| self.is_lightest(here, t)
    }

    /// A new thread `t` under the name `tid`, handed by core `here` to core `target`.
    pub open spec fn spawned(self, here: int, target: int, tid: Tid, t: TView) -> MView {
        self.with_thread(tid, TView { id: tid, ..t }).placed(here, target, tid)
    }

    /// The machine coming up: the boot thread runs on core `c` and `idle` is what it falls back on.
    pub open spec fn brought_up(self, c: int, boot: Tid, b: TView, idle: Tid, i: TView) -> MView {
        MView { running: true, ..self }.with_thread(boot, TView { id: boot, ..b }).with_thread(
            idle,
            TView { id: idle, ..i },
        ).with_cpu(c, CpuView { current: boot, idle, ..self.cpus[c] })
    }

    /// Core `c` joins: the thread `t` it already runs is its idle thread.
    pub open spec fn adopted(self, c: int, tid: Tid, t: TView) -> MView {
        self.with_thread(tid, TView { id: tid, ..t }).with_cpu(
            c,
            CpuView { current: tid, idle: tid, ..self.cpus[c] },
        )
    }
}

/// There is only one least loaded core.
pub proof fn lemma_lightest(a: MView, here: int, t: int)
    requires
        a.is_lightest(here, t),
    ensures
        a.lightest(here) == t,
{
    let u = a.lightest(here);
    assert(a.is_lightest(here, u));
    if t != u {
        assert(t != here && u != here);
        assert(a.cpus[t].runnable() <= a.cpus[u].runnable());
        assert(a.cpus[u].runnable() <= a.cpus[t].runnable());
        if t < u {
            assert(a.cpus[u].runnable() < a.cpus[t].runnable());
        } else {
            assert(a.cpus[t].runnable() < a.cpus[u].runnable());
        }
    }
}

/// A new thread, put nowhere yet. It may not be ready: a ready thread has to stand somewhere.
pub proof fn lemma_insert(a: MView, tid: Tid, t: TView)
    requires
        a.inv(),
        a.running,
        a.unknown(tid),
        t.id == tid,
        t.state != State::Ready,
        !t.on_cpu,
        !t.wake_pending,
        t.cspace.len() == CSPACE_SLOTS,
        t.mailbox.len() == 5,
    ensures
        a.with_thread(tid, t).inv(),
        !a.with_thread(tid, t).queued(tid),
        !a.with_thread(tid, t).is_idle(tid),
{
    reveal(MView::inv);
    let b = a.with_thread(tid, t);
    assert forall|p: Place| #[trigger] b.queue(p) == a.queue(p) by {}
    assert forall|p: Place, i: int|
        #![trigger a.queue(p)[i]]
        0 <= i < a.queue(p).len() implies b.threads.contains_key(a.queue(p)[i]) && b.fits(
        p,
        b.threads[a.queue(p)[i]],
    ) by {
        assert(a.threads.contains_key(a.queue(p)[i]));
        assert(a.fits(p, a.threads[a.queue(p)[i]]));
    }
    steps::lemma_queues_kept(a, b);
    assert forall|c: int, x: Tid| #[trigger] b.holds_core(c, x) <==> a.holds_core(c, x) by {}
    assert(b.cores_ok()) by {
        assert forall|x: Tid| #[trigger] b.threads.contains_key(x) implies (b.threads[x].on_cpu
            <==> exists|c: int| #[trigger] b.holds_core(c, x)) by {
            if x == tid {
                assert forall|c: int| !b.holds_core(c, tid) by {
                    if 0 <= c < a.cpus.len() {
                        assert(a.cpus[c].current != tid);
                    }
                }
            } else {
                assert(a.threads.contains_key(x));
                if a.threads[x].on_cpu {
                    let c = choose|c: int| #[trigger] a.holds_core(c, x);
                    assert(b.holds_core(c, x));
                }
                if exists|c: int| #[trigger] b.holds_core(c, x) {
                    let c = choose|c: int| #[trigger] b.holds_core(c, x);
                    assert(a.holds_core(c, x));
                }
            }
        }
        assert forall|c: int, d: int, x: Tid|
            #![trigger b.holds_core(c, x), b.holds_core(d, x)]
            x != NO_TID && b.holds_core(c, x) && b.holds_core(d, x) implies c == d by {
            assert(a.holds_core(c, x) && a.holds_core(d, x));
        }
    }
    assert(b.idles_ok()) by {
        assert forall|c: int|
            0 <= c < b.cpus.len() && (#[trigger] b.cpus[c]).idle != NO_TID implies ({
            let x = b.threads[b.cpus[c].idle];
            &&& b.threads.contains_key(b.cpus[c].idle)
            &&& x.state == State::Ready || x.state == State::Running
            &&& !x.killed
            &&& x.on_cpu ==> b.holds_core(c, x.id)
        }) by {
            assert(a.cpus[c].idle != tid);
            assert(a.threads.contains_key(a.cpus[c].idle));
            assert(b.holds_core(c, a.cpus[c].idle) <==> a.holds_core(c, a.cpus[c].idle));
        }
    }
    assert(b.threads_ok()) by {
        assert forall|x: Tid| #[trigger] b.threads.contains_key(x) implies ({
            let y = b.threads[x];
            &&& y.id == x
            &&& x != NO_TID
            &&& y.wake_pending ==> y.state == State::Blocked && y.on_cpu
            &&& y.cspace.len() == CSPACE_SLOTS
            &&& y.mailbox.len() == 5
        }) by {
            if x != tid {
                assert(a.threads.contains_key(x));
            }
        }
    }
    if b.queued(tid) {
        let (p, i) = choose|p: Place, i: int|
            0 <= i < b.queue(p).len() && #[trigger] b.queue(p)[i] == tid;
        assert(a.queue(p)[i] == tid);
        assert(a.threads.contains_key(tid));
    }
    if b.is_idle(tid) {
        let c = choose|c: int| 0 <= c < b.cpus.len() && (#[trigger] b.cpus[c]).idle == tid;
        assert(a.cpus[c].idle == tid);
    }
}

/// Spawning keeps the discipline.
pub proof fn lemma_spawn(a: MView, here: int, target: int, tid: Tid, t: TView)
    requires
        a.inv(),
        a.running,
        a.unknown(tid),
        0 <= target < a.cpus.len(),
        t.state == State::Ready,
        !t.on_cpu,
        !t.wake_pending,
        t.cspace.len() == CSPACE_SLOTS,
        t.mailbox.len() == 5,
    ensures
        a.spawned(here, target, tid, t).inv(),
{
    reveal(MView::inv);
    let t1 = TView { id: tid, ..t };
    let unborn = TView { state: State::Embryo, ..t1 };
    lemma_insert(a, tid, unborn);
    let m = a.with_thread(tid, unborn);
    if here == target {
        steps::lemma_ready_on_run(m, target, tid, t1);
    } else {
        steps::lemma_ready_in_inbox(m, target, tid, t1);
    }
    assert(m.with_thread(tid, t1).threads =~= a.threads.insert(tid, t1));
    assert(a.spawned(here, target, tid, t) =~= m.with_thread(tid, t1).placed(here, target, tid));
}

/// An unborn thread becomes ready and is handed to a core.
pub proof fn lemma_start(a: MView, here: int, target: int, tid: Tid, t: TView)
    requires
        a.inv(),
        0 <= target < a.cpus.len(),
        a.threads.contains_key(tid),
        a.threads[tid].state == State::Embryo,
        t.id == tid,
        t.state == State::Ready,
        t.on_cpu == a.threads[tid].on_cpu,
        !t.on_cpu,
        !t.wake_pending,
        t.cspace.len() == CSPACE_SLOTS,
        t.mailbox.len() == 5,
    ensures
        a.with_thread(tid, t).placed(here, target, tid).inv(),
{
    reveal(MView::inv);
    steps::lemma_active_not_queued(a, tid);
    steps::lemma_blocked_not_idle(a, tid);
    if here == target {
        steps::lemma_ready_on_run(a, target, tid, t);
    } else {
        steps::lemma_ready_in_inbox(a, target, tid, t);
    }
}

/// The machine with the head of `from` at the tail of `to` instead: nobody changes but in place.
pub proof fn lemma_transfer(a: MView, b: MView, tid: Tid, from: Place, to: Place)
    requires
        a.inv(),
        from != to,
        from is Run || from is Inbox,
        match to {
            Place::Run(c) => 0 <= c < a.cpus.len(),
            Place::Inbox(c) => 0 <= c < a.cpus.len(),
            _ => false,
        },
        a.queue(from).len() > 0,
        a.queue(from)[0] == tid,
        !a.threads[tid].on_cpu,
        b == (MView { cpus: b.cpus, ..a }),
        steps::same_cores(a, b),
        forall|p: Place| #[trigger] b.queue(p) == model::moved(a, tid, Some(from), Some(to), p),
    ensures
        b.inv(),
{
    reveal(MView::inv);
    assert(a.threads.contains_key(tid));
    assert(b.threads =~= a.threads.insert(tid, b.threads[tid]));
    assert(a.fits(from, a.threads[tid]));
    assert forall|p: Place, i: int|
        #![trigger a.queue(p)[i]]
        0 <= i < a.queue(p).len() && a.queue(p)[i] != tid implies b.fits(
        p,
        a.threads[a.queue(p)[i]],
    ) by {
        assert(a.fits(p, a.threads[a.queue(p)[i]]));
        if p is Run && 0 <= p->Run_0 < a.cpus.len() {
            assert(b.cpus[p->Run_0].switched_from == a.cpus[p->Run_0].switched_from);
        }
    }
    model::lemma_move(a, b, tid, Some(from), Some(to));
    if a.is_idle(tid) {
        let c = choose|c: int| 0 <= c < a.cpus.len() && (#[trigger] a.cpus[c]).idle == tid;
        assert(false);
    }
    steps::lemma_cores_kept(a, b, tid);
}

/// A thread on a core's run queue has its context saved, unless the core is just leaving it.
pub proof fn lemma_queued_is_off_core(a: MView, c: int)
    requires
        a.inv(),
        0 <= c < a.cpus.len(),
    ensures
        a.cpus[c].runq.len() > 0 && a.cpus[c].switched_from == NO_TID ==> a.threads.contains_key(
            a.cpus[c].runq[0],
        ) && !a.threads[a.cpus[c].runq[0]].on_cpu,
        a.cpus[c].inbox.len() > 0 ==> a.threads.contains_key(a.cpus[c].inbox[0])
            && !a.threads[a.cpus[c].inbox[0]].on_cpu,
{
    reveal(MView::inv);
    if a.cpus[c].runq.len() > 0 {
        let tid = a.queue(Place::Run(c))[0];
        assert(a.fits(Place::Run(c), a.threads[tid]));
    }
    if a.cpus[c].inbox.len() > 0 {
        let tid = a.queue(Place::Inbox(c))[0];
        assert(a.fits(Place::Inbox(c), a.threads[tid]));
    }
}

/// A change to a core that touches nothing the discipline speaks of.
pub proof fn lemma_plain_cpu(a: MView, c: int, cpu: CpuView)
    requires
        a.inv(),
        0 <= c < a.cpus.len(),
        cpu.current == a.cpus[c].current,
        cpu.idle == a.cpus[c].idle,
        cpu.switched_from == a.cpus[c].switched_from,
        cpu.runq == a.cpus[c].runq,
        cpu.inbox == a.cpus[c].inbox,
    ensures
        a.with_cpu(c, cpu).inv(),
{
    reveal(MView::inv);
    let b = a.with_cpu(c, cpu);
    assert forall|d: int| 0 <= d < a.cpus.len() implies (#[trigger] b.cpus[d]).current
        == a.cpus[d].current && b.cpus[d].switched_from == a.cpus[d].switched_from
        && b.cpus[d].idle == a.cpus[d].idle && b.cpus[d].runq == a.cpus[d].runq && b.cpus[d].inbox
        == a.cpus[d].inbox by {}
    assert forall|p: Place| #[trigger] b.queue(p) == a.queue(p) by {
        match p {
            Place::Run(d) => {
                if 0 <= d < a.cpus.len() {
                    assert(b.cpus[d].runq == a.cpus[d].runq);
                }
            },
            Place::Inbox(d) => {
                if 0 <= d < a.cpus.len() {
                    assert(b.cpus[d].inbox == a.cpus[d].inbox);
                }
            },
            _ => {},
        }
    }
    assert forall|p: Place, i: int|
        #![trigger a.queue(p)[i]]
        0 <= i < a.queue(p).len() implies b.threads.contains_key(a.queue(p)[i]) && b.fits(
        p,
        b.threads[a.queue(p)[i]],
    ) by {
        assert(a.fits(p, a.threads[a.queue(p)[i]]));
        if p is Run && 0 <= p->Run_0 < a.cpus.len() {
            assert(b.cpus[p->Run_0].switched_from == a.cpus[p->Run_0].switched_from);
        }
    }
    steps::lemma_queues_kept(a, b);
    lemma_cores_same(a, b);
}

/// With the threads unchanged and the cores' references unchanged, what holds of the cores still
/// holds.
proof fn lemma_cores_same(a: MView, b: MView)
    requires
        a.cores_ok(),
        a.idles_ok(),
        steps::same_cores(a, b),
        b.threads == a.threads,
    ensures
        b.cores_ok(),
        b.idles_ok(),
{
    assert forall|c: int, t: Tid| #[trigger] b.holds_core(c, t) <==> a.holds_core(c, t) by {
        if 0 <= c < a.cpus.len() {
            assert(b.cpus[c].current == a.cpus[c].current);
        }
    }
    assert forall|t: Tid| #[trigger] b.threads.contains_key(t) implies (b.threads[t].on_cpu
        <==> exists|c: int| #[trigger] b.holds_core(c, t)) by {
        if a.threads[t].on_cpu {
            let c = choose|c: int| #[trigger] a.holds_core(c, t);
            assert(b.holds_core(c, t));
        }
        if exists|c: int| #[trigger] b.holds_core(c, t) {
            let c = choose|c: int| #[trigger] b.holds_core(c, t);
            assert(a.holds_core(c, t));
        }
    }
    assert forall|c: int, d: int, t: Tid|
        #![trigger b.holds_core(c, t), b.holds_core(d, t)]
        t != NO_TID && b.holds_core(c, t) && b.holds_core(d, t) implies c == d by {
        assert(a.holds_core(c, t) && a.holds_core(d, t));
    }
    assert forall|c: int|
        0 <= c < b.cpus.len() && (#[trigger] b.cpus[c]).current != NO_TID implies b.cpus[c].current
        != b.cpus[c].switched_from by {
        assert(b.cpus[c].current == a.cpus[c].current);
    }
    assert forall|c: int| 0 <= c < b.cpus.len() && (#[trigger] b.cpus[c]).idle != NO_TID implies ({
        let t = b.threads[b.cpus[c].idle];
        &&& b.threads.contains_key(b.cpus[c].idle)
        &&& t.state == State::Ready || t.state == State::Running
        &&& !t.killed
        &&& t.on_cpu ==> b.holds_core(c, t.id)
    }) by {
        assert(a.cpus[c].idle == b.cpus[c].idle);
        let i = b.threads[b.cpus[c].idle].id;
        assert(b.holds_core(c, i) <==> a.holds_core(c, i));
    }
    assert forall|c: int, d: int|
        #![trigger b.cpus[c], b.cpus[d]]
        0 <= c < b.cpus.len() && 0 <= d < b.cpus.len() && b.cpus[c].idle == b.cpus[d].idle
            && b.cpus[c].idle != NO_TID implies c == d by {
        assert(a.cpus[c].idle == b.cpus[c].idle);
        assert(a.cpus[d].idle == b.cpus[d].idle);
    }
}

/// Serving a request for work keeps the discipline.
pub proof fn lemma_serve_steal(a: MView, c: int)
    requires
        a.inv(),
        0 <= c < a.cpus.len(),
        a.cpus[c].switched_from == NO_TID,
        a.cpus[c].steal_request <= a.cpus.len(),
    ensures
        a.steal_served(c).inv(),
{
    reveal(MView::inv);
    let cpu = a.cpus[c];
    let m = a.with_cpu(c, CpuView { steal_request: 0, ..cpu });
    lemma_plain_cpu(a, c, CpuView { steal_request: 0, ..cpu });
    if cpu.steal_request != 0 && cpu.runq.len() > 0 {
        let d = cpu.steal_request - 1;
        let tid = cpu.runq[0];
        let b = a.steal_served(c);
        lemma_queued_is_off_core(m, c);
        assert forall|p: Place| #[trigger]
            b.queue(p) == model::moved(m, tid, Some(Place::Run(c)), Some(Place::Inbox(d)), p) by {
            match p {
                Place::Run(x) => {},
                Place::Inbox(x) => {},
                _ => {},
            }
        }
        assert(steps::same_cores(m, b));
        lemma_transfer(m, b, tid, Place::Run(c), Place::Inbox(d));
    }
}

/// One step of draining an inbox.
pub proof fn lemma_drain_step(a: MView, c: int)
    requires
        a.inv(),
        0 <= c < a.cpus.len(),
        a.cpus[c].inbox.len() > 0,
    ensures
        a.with_cpu(
            c,
            CpuView {
                runq: a.cpus[c].runq.push(a.cpus[c].inbox[0]),
                inbox: a.cpus[c].inbox.skip(1),
                ..a.cpus[c]
            },
        ).inv(),
{
    reveal(MView::inv);
    let cpu = a.cpus[c];
    let tid = cpu.inbox[0];
    let b = a.with_cpu(
        c,
        CpuView { runq: cpu.runq.push(tid), inbox: cpu.inbox.skip(1), ..cpu },
    );
    lemma_queued_is_off_core(a, c);
    assert forall|p: Place| #[trigger]
        b.queue(p) == model::moved(a, tid, Some(Place::Inbox(c)), Some(Place::Run(c)), p) by {
        match p {
            Place::Run(x) => {},
            Place::Inbox(x) => {},
            _ => {},
        }
    }
    assert(steps::same_cores(a, b));
    lemma_transfer(a, b, tid, Place::Inbox(c), Place::Run(c));
}

/// Draining an inbox keeps the discipline.
pub proof fn lemma_drain(a: MView, c: int)
    requires
        a.inv(),
        0 <= c < a.cpus.len(),
    ensures
        a.drained(c).inv(),
    decreases a.cpus[c].inbox.len(),
{
    reveal(MView::inv);
    let cpu = a.cpus[c];
    if cpu.inbox.len() > 0 {
        let step = CpuView {
            runq: cpu.runq.push(cpu.inbox[0]),
            inbox: cpu.inbox.skip(1),
            ..cpu
        };
        let b = a.with_cpu(c, step);
        lemma_drain_step(a, c);
        lemma_drain(b, c);
        assert(step.runq + step.inbox =~= cpu.runq + cpu.inbox);
        let done = CpuView {
            runq: cpu.runq + cpu.inbox,
            inbox: Seq::empty(),
            need_resched: true,
            ..cpu
        };
        if step.inbox.len() == 0 {
            assert(step.inbox =~= Seq::<Tid>::empty());
            assert(cpu.runq + cpu.inbox =~= step.runq);
            lemma_plain_cpu(b, c, done);
            assert(b.with_cpu(c, done) =~= a.drained(c));
        } else {
            assert(b.drained(c) =~= a.drained(c));
        }
    }
}

/// Bringing the machine up establishes the discipline.
pub proof fn lemma_bring_up(a: MView, c: int, boot: Tid, b: TView, idle: Tid, i: TView)
    requires
        a.inv(),
        !a.running,
        0 <= c < a.cpus.len(),
        forall|d: int|
            0 <= d < a.cpus.len() ==> (#[trigger] a.cpus[d]).current == NO_TID
                && a.cpus[d].switched_from == NO_TID && a.cpus[d].idle == NO_TID,
        boot != idle,
        boot != NO_TID,
        idle != NO_TID,
        b.state == State::Running,
        b.on_cpu,
        !b.wake_pending,
        b.cspace.len() == CSPACE_SLOTS,
        b.mailbox.len() == 5,
        i.state == State::Ready,
        !i.on_cpu,
        !i.wake_pending,
        !i.killed,
        i.cspace.len() == CSPACE_SLOTS,
        i.mailbox.len() == 5,
    ensures
        a.brought_up(c, boot, b, idle, i).inv(),
{
    reveal(MView::inv);
    let m = a.brought_up(c, boot, b, idle, i);
    assert forall|t: Tid| !a.threads.contains_key(t) by {
        assert(!a.threads.dom().contains(t));
    }
    assert forall|p: Place| #[trigger] m.queue(p).len() == 0 by {
        if a.queue(p).len() > 0 {
            assert(a.threads.contains_key(a.queue(p)[0]));
        }
        match p {
            Place::Run(x) => {},
            Place::Inbox(x) => {},
            _ => {},
        }
        assert(m.queue(p) == a.queue(p));
    }
    assert forall|d: int, t: Tid| #[trigger]
        m.holds_core(d, t) && t != NO_TID <==> d == c && t == boot by {
        if 0 <= d < a.cpus.len() && d != c {
            assert(m.cpus[d] == a.cpus[d]);
        }
    }
    assert(m.cpus[c].idle == idle);
    assert(m.is_idle(idle));
    assert(m.cores_ok()) by {
        assert(m.holds_core(c, boot));
        assert forall|d: int| 0 <= d < m.cpus.len() && (#[trigger] m.cpus[d]).current
            != NO_TID implies m.cpus[d].current != m.cpus[d].switched_from by {
            if d != c {
                assert(m.cpus[d] == a.cpus[d]);
            }
        }
    }
    assert(m.idles_ok()) by {
        assert forall|d: int| 0 <= d < m.cpus.len() && d != c implies (#[trigger] m.cpus[d]).idle
            == NO_TID by {
            assert(m.cpus[d] == a.cpus[d]);
        }
    }
    assert(m.endpoints == a.endpoints);
}

/// A core joining keeps the discipline.
pub proof fn lemma_adopt(a: MView, c: int, tid: Tid, t: TView)
    requires
        a.inv(),
        a.running,
        a.unknown(tid),
        0 <= c < a.cpus.len(),
        a.cpus[c].current == NO_TID,
        a.cpus[c].idle == NO_TID,
        a.cpus[c].switched_from == NO_TID,
        t.state == State::Running,
        t.on_cpu,
        !t.wake_pending,
        !t.killed,
        t.cspace.len() == CSPACE_SLOTS,
        t.mailbox.len() == 5,
    ensures
        a.adopted(c, tid, t).inv(),
{
    reveal(MView::inv);
    let m = a.adopted(c, tid, t);
    assert forall|d: int| 0 <= d < a.cpus.len() && d != c implies #[trigger] m.cpus[d]
        == a.cpus[d] by {}
    assert forall|p: Place| #[trigger] m.queue(p) == a.queue(p) by {
        match p {
            Place::Run(x) => {
                if 0 <= x < a.cpus.len() && x != c {
                    assert(m.cpus[x] == a.cpus[x]);
                }
            },
            Place::Inbox(x) => {
                if 0 <= x < a.cpus.len() && x != c {
                    assert(m.cpus[x] == a.cpus[x]);
                }
            },
            _ => {},
        }
    }
    assert forall|x: Tid| x != NO_TID implies (#[trigger] m.is_idle(x) <==> a.is_idle(x) || x
        == tid) by {
        if a.is_idle(x) {
            let d = choose|d: int| 0 <= d < a.cpus.len() && (#[trigger] a.cpus[d]).idle == x;
            assert(m.cpus[d].idle == x);
        }
        if m.is_idle(x) {
            let d = choose|d: int| 0 <= d < m.cpus.len() && (#[trigger] m.cpus[d]).idle == x;
            assert(d == c || a.cpus[d].idle == x);
        }
        assert(m.cpus[c].idle == tid);
    }
    assert(m.queues_fit()) by {
        assert forall|p: Place, i: int|
            #![trigger m.queue(p)[i]]
            0 <= i < m.queue(p).len() implies ({
            let x = m.queue(p)[i];
            &&& m.threads.contains_key(x)
            &&& m.fits(p, m.threads[x])
            &&& !m.is_idle(x)
        }) by {
            let x = a.queue(p)[i];
            assert(a.threads.contains_key(x));
            assert(a.fits(p, a.threads[x]));
            assert(x != NO_TID);
            if p is Run && 0 <= p->Run_0 < a.cpus.len() && p->Run_0 != c {
                assert(m.cpus[p->Run_0] == a.cpus[p->Run_0]);
            }
        }
    }
    assert(m.queues_apart()) by {
        assert forall|p: Place, i: int, q: Place, j: int|
            #![trigger m.queue(p)[i], m.queue(q)[j]]
            0 <= i < m.queue(p).len() && 0 <= j < m.queue(q).len() && m.queue(p)[i] == m.queue(
                q,
            )[j] implies p == q && i == j by {
            assert(a.queue(p)[i] == a.queue(q)[j]);
        }
    }
    assert(m.ready_is_queued()) by {
        assert forall|x: Tid| #[trigger]
            m.threads.contains_key(x) && m.threads[x].state == State::Ready implies m.queued(x)
            || m.is_idle(x) by {
            assert(a.threads.contains_key(x));
            if a.queued(x) {
                let (p, i) = choose|p: Place, i: int|
                    0 <= i < a.queue(p).len() && #[trigger] a.queue(p)[i] == x;
                assert(m.queue(p)[i] == x);
            }
            assert(x != NO_TID);
        }
    }
    assert forall|d: int, x: Tid| #[trigger]
        m.holds_core(d, x) && x != NO_TID <==> (d == c && x == tid) || (a.holds_core(d, x) && x
            != NO_TID) by {
        if 0 <= d < a.cpus.len() && d != c {
            assert(m.cpus[d] == a.cpus[d]);
        }
    }
    assert forall|d: int| !a.holds_core(d, tid) by {
        if 0 <= d < a.cpus.len() {
            assert(a.cpus[d].current != tid);
        }
    }
    assert(m.cores_ok()) by {
        assert(m.holds_core(c, tid));
        assert forall|x: Tid| #[trigger] m.threads.contains_key(x) implies (m.threads[x].on_cpu
            <==> exists|d: int| #[trigger] m.holds_core(d, x)) by {
            if x != tid {
                assert(a.threads.contains_key(x));
                if a.threads[x].on_cpu {
                    let d = choose|d: int| #[trigger] a.holds_core(d, x);
                    assert(m.holds_core(d, x));
                }
                if exists|d: int| #[trigger] m.holds_core(d, x) {
                    let d = choose|d: int| #[trigger] m.holds_core(d, x);
                    assert(a.holds_core(d, x));
                }
            }
        }
        assert forall|d: int, e: int, x: Tid|
            #![trigger m.holds_core(d, x), m.holds_core(e, x)]
            x != NO_TID && m.holds_core(d, x) && m.holds_core(e, x) implies d == e by {
            if x != tid {
                assert(a.holds_core(d, x) && a.holds_core(e, x));
            }
        }
        assert forall|d: int| 0 <= d < m.cpus.len() && (#[trigger] m.cpus[d]).current
            != NO_TID implies m.cpus[d].current != m.cpus[d].switched_from by {
            if d != c {
                assert(m.cpus[d] == a.cpus[d]);
            }
        }
    }
    assert(m.idles_ok()) by {
        assert forall|d: int| 0 <= d < m.cpus.len() && (#[trigger] m.cpus[d]).idle
            != NO_TID implies ({
            let x = m.threads[m.cpus[d].idle];
            &&& m.threads.contains_key(m.cpus[d].idle)
            &&& x.state == State::Ready || x.state == State::Running
            &&& !x.killed
            &&& x.on_cpu ==> m.holds_core(d, x.id)
        }) by {
            if d != c {
                let i = a.cpus[d].idle;
                assert(m.cpus[d].idle == i);
                assert(i != tid);
                assert(a.threads.contains_key(i));
                if a.threads[i].on_cpu {
                    assert(a.holds_core(d, i));
                    assert(m.holds_core(d, i));
                }
            } else {
                assert(m.holds_core(c, tid));
            }
        }
        assert forall|d: int, e: int|
            #![trigger m.cpus[d], m.cpus[e]]
            0 <= d < m.cpus.len() && 0 <= e < m.cpus.len() && m.cpus[d].idle == m.cpus[e].idle
                && m.cpus[d].idle != NO_TID implies d == e by {
            if d != c {
                assert(m.cpus[d] == a.cpus[d]);
                assert(a.cpus[d].idle != tid);
            }
            if e != c {
                assert(m.cpus[e] == a.cpus[e]);
                assert(a.cpus[e].idle != tid);
            }
        }
    }
    assert(m.threads_ok()) by {
        assert forall|x: Tid| #[trigger] m.threads.contains_key(x) implies ({
            let y = m.threads[x];
            &&& y.id == x
            &&& x != NO_TID
            &&& y.wake_pending ==> y.state == State::Blocked && y.on_cpu
            &&& y.cspace.len() == CSPACE_SLOTS
            &&& y.mailbox.len() == 5
        }) by {
            if x != tid {
                assert(a.threads.contains_key(x));
            }
        }
    }
}


/// A machine that is not up has no threads and no endpoints.
pub proof fn lemma_down_is_empty(a: MView)
    requires
        a.inv(),
        !a.running,
    ensures
        a.threads == Map::<Tid, TView>::empty(),
        a.endpoints == Map::<u64, EpView>::empty(),
        a.ep_pages == Map::<u64, u64>::empty(),
{
    reveal(MView::inv);
    assert(a.threads =~= Map::<Tid, TView>::empty());
    assert(a.endpoints =~= Map::<u64, EpView>::empty());
    assert(a.ep_pages =~= Map::<u64, u64>::empty());
}


impl MView {
    /// One slot fewer in budget `q`.
    pub open spec fn taken_slot(self, q: int) -> MView {
        MView { quotas: self.quotas.update(q, (self.quotas[q] - 1) as u32), ..self }
    }
}

/// What stands beside the threads, the endpoints and the cores says nothing about the discipline.
proof fn lemma_apart(a: MView, b: MView)
    requires
        a.inv(),
        b.running == a.running,
        b.threads == a.threads,
        b.endpoints == a.endpoints,
        b.ep_pages == a.ep_pages,
        b.cpus == a.cpus,
    ensures
        b.inv(),
{
    reveal(MView::inv);
    assert forall|p: Place| #[trigger] b.queue(p) == a.queue(p) by {}
    assert forall|p: Place, i: int|
        #![trigger a.queue(p)[i]]
        0 <= i < a.queue(p).len() implies b.threads.contains_key(a.queue(p)[i]) && b.fits(
        p,
        b.threads[a.queue(p)[i]],
    ) by {
        assert(a.fits(p, a.threads[a.queue(p)[i]]));
    }
    steps::lemma_queues_kept(a, b);
    lemma_cores_same(a, b);
}

/// The spawning budgets say nothing about the discipline.
pub proof fn lemma_quotas(a: MView, quotas: Seq<u32>)
    requires
        a.inv(),
    ensures
        (MView { quotas, ..a }).inv(),
{
    lemma_apart(a, MView { quotas, ..a });
}

/// Neither do the interrupt routes and the preemption count.
pub proof fn lemma_beside(a: MView, irq_routes: Seq<u64>, preemptions: u64)
    requires
        a.inv(),
    ensures
        (MView { irq_routes, ..a }).inv(),
        (MView { preemptions, ..a }).inv(),
{
    lemma_apart(a, MView { irq_routes, ..a });
    lemma_apart(a, MView { preemptions, ..a });
}

/// Nor which region the kernel's endpoints come from.
pub proof fn lemma_chunks(a: MView, region: Option<u64>, chunks: nat)
    requires
        a.inv(),
    ensures
        (MView { kernel_ep_region: region, kernel_ep_chunks: chunks, ..a }).inv(),
{
    lemma_apart(a, MView { kernel_ep_region: region, kernel_ep_chunks: chunks, ..a });
}

} // verus!
