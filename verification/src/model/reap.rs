//! Taking a region's objects down, so that its memory can be used again.
use vstd::prelude::*;

use crate::cap::Tid;
use crate::cpu::NO_TID;
use crate::ipc;
use crate::ipc::EpView;
use crate::model;
use crate::model::rendezvous;
use crate::model::steps;
use crate::model::switch;
use crate::model::{MView, Place};
use crate::thread::{State, TView};

verus! {

/// An endpoint nobody waits on.
pub open spec fn quiet(pending: u64) -> EpView {
    EpView { senders: Seq::empty(), receivers: Seq::empty(), pending }
}

/// Those of the threads `names` that live in `[base, end)`, in order.
pub open spec fn residents(threads: Map<Tid, TView>, names: Seq<Tid>, base: int, end: int) -> Seq<
    Tid,
>
    decreases names.len(),
{
    if names.len() == 0 {
        Seq::empty()
    } else {
        let rest = residents(threads, names.drop_last(), base, end);
        if threads[names.last()].resides(base, end) {
            rest.push(names.last())
        } else {
            rest
        }
    }
}

/// Those of the objects `names` whose page lies in `[base, end)`, in order.
pub open spec fn located(pages: Map<u64, u64>, names: Seq<u64>, base: int, end: int) -> Seq<u64>
    decreases names.len(),
{
    if names.len() == 0 {
        Seq::empty()
    } else {
        let rest = located(pages, names.drop_last(), base, end);
        if base <= pages[names.last()] < end {
            rest.push(names.last())
        } else {
            rest
        }
    }
}

/// Picking keeps each name once, and picks just those that live there.
pub proof fn lemma_residents(threads: Map<Tid, TView>, names: Seq<Tid>, base: int, end: int)
    requires
        names.no_duplicates(),
    ensures
        residents(threads, names, base, end).no_duplicates(),
        forall|t: Tid| #[trigger]
            residents(threads, names, base, end).contains(t) <==> names.contains(t)
                && threads[t].resides(base, end),
    decreases names.len(),
{
    if names.len() > 0 {
        let front = names.drop_last();
        let rest = residents(threads, front, base, end);
        let all = residents(threads, names, base, end);
        lemma_residents(threads, front, base, end);
        assert forall|t: Tid| names.contains(t) <==> front.contains(t) || t == names.last() by {
            if names.contains(t) {
                let i = choose|i: int| 0 <= i < names.len() && names[i] == t;
                if i < front.len() {
                    assert(front[i] == t);
                }
            }
            if front.contains(t) {
                let i = choose|i: int| 0 <= i < front.len() && front[i] == t;
                assert(names[i] == t);
            }
        }
        assert(!front.contains(names.last()));
        assert(!rest.contains(names.last()));
        assert forall|t: Tid| #[trigger] all.contains(t) <==> names.contains(t)
            && threads[t].resides(base, end) by {
            if all.len() > rest.len() {
                assert forall|x: Tid| rest.push(names.last()).contains(x) <==> rest.contains(x) || x
                    == names.last() by {
                    if rest.contains(x) {
                        let i = choose|i: int| 0 <= i < rest.len() && rest[i] == x;
                        assert(rest.push(names.last())[i] == x);
                    }
                    assert(rest.push(names.last())[rest.len() as int] == names.last());
                }
            }
            assert(rest.contains(t) <==> front.contains(t) && threads[t].resides(base, end));
        }
    }
}

/// The same of pages.
pub proof fn lemma_located(pages: Map<u64, u64>, names: Seq<u64>, base: int, end: int)
    requires
        names.no_duplicates(),
    ensures
        located(pages, names, base, end).no_duplicates(),
        forall|e: u64| #[trigger]
            located(pages, names, base, end).contains(e) <==> names.contains(e) && base <= pages[e]
                < end,
    decreases names.len(),
{
    if names.len() > 0 {
        let front = names.drop_last();
        let rest = located(pages, front, base, end);
        let all = located(pages, names, base, end);
        lemma_located(pages, front, base, end);
        assert forall|t: u64| names.contains(t) <==> front.contains(t) || t == names.last() by {
            if names.contains(t) {
                let i = choose|i: int| 0 <= i < names.len() && names[i] == t;
                if i < front.len() {
                    assert(front[i] == t);
                }
            }
            if front.contains(t) {
                let i = choose|i: int| 0 <= i < front.len() && front[i] == t;
                assert(names[i] == t);
            }
        }
        assert(!front.contains(names.last()));
        assert(!rest.contains(names.last()));
        assert forall|t: u64| #[trigger] all.contains(t) <==> names.contains(t) && base <= pages[t]
            < end by {
            if all.len() > rest.len() {
                assert forall|x: u64| rest.push(names.last()).contains(x) <==> rest.contains(x) || x
                    == names.last() by {
                    if rest.contains(x) {
                        let i = choose|i: int| 0 <= i < rest.len() && rest[i] == x;
                        assert(rest.push(names.last())[i] == x);
                    }
                    assert(rest.push(names.last())[rest.len() as int] == names.last());
                }
            }
            assert(rest.contains(t) <==> front.contains(t) && base <= pages[t] < end);
        }
    }
}

impl MView {
    /// No core's idle thread lives in `[base, end)`: those are the kernel's own.
    pub open spec fn idles_outside(self, base: int, end: int) -> bool {
        forall|t: Tid| #[trigger]
            self.is_idle(t) && t != NO_TID ==> !self.threads[t].resides(base, end)
    }

    /// Does a thread live in `[base, end)` that could still run?
    pub open spec fn has_live(self, base: int, end: int) -> bool {
        exists|t: Tid| #[trigger]
            self.threads.contains_key(t) && self.threads[t].resides(base, end)
                && self.threads[t].is_live()
    }

    /// Every thread in `[base, end)` that could still run is marked to be torn down.
    pub open spec fn condemned(self, base: int, end: int) -> MView {
        MView {
            threads: Map::new(
                |t: Tid| self.threads.contains_key(t),
                |t: Tid|
                    if self.threads[t].resides(base, end) && self.threads[t].is_live() {
                        TView { killed: true, ..self.threads[t] }
                    } else {
                        self.threads[t]
                    },
            ),
            ..self
        }
    }

    /// A corpse leaves the endpoint it may be parked on with its message.
    pub open spec fn unparked(self, tid: Tid) -> MView {
        let t = self.threads[tid];
        match t.fault_ep {
            Some(e) => if t.state == State::Dead && self.endpoints.contains_key(e) {
                self.with_ep(e, self.endpoints[e].without_sender(tid))
            } else {
                self
            },
            None => self,
        }
    }

    /// Each of the threads is gone, and off its supervisor's endpoint first.
    pub open spec fn collected(self, tids: Seq<Tid>) -> MView
        decreases tids.len(),
    {
        if tids.len() == 0 {
            self
        } else {
            let m = self.collected(tids.drop_last());
            m.unparked(tids.last()).removed(tids.last())
        }
    }

    /// Each of the threads has its rendezvous called off and wakes.
    pub open spec fn called_off(self, c: int, tids: Seq<Tid>) -> MView
        decreases tids.len(),
    {
        if tids.len() == 0 {
            self
        } else {
            self.called_off(c, tids.drop_last()).aborted(tids.last()).woken(c, tids.last())
        }
    }

    /// The registry without endpoint `e`.
    pub open spec fn unregistered(self, e: u64) -> MView {
        MView {
            endpoints: self.endpoints.remove(e),
            ep_pages: self.ep_pages.remove(e),
            ..self
        }
    }

    /// Endpoint `e` is gone, and whoever waited on it wakes on core `c` with an error.
    pub open spec fn torn_down(self, c: int, e: u64) -> MView {
        let ep = self.endpoints[e];
        self.with_ep(e, quiet(ep.pending)).called_off(c, ep.waiters()).unregistered(e)
    }

    /// Each of the endpoints is gone.
    pub open spec fn torn_down_all(self, c: int, eps: Seq<u64>) -> MView
        decreases eps.len(),
    {
        if eps.len() == 0 {
            self
        } else {
            self.torn_down_all(c, eps.drop_last()).torn_down(c, eps.last())
        }
    }

    /// The threads and then the endpoints are gone.
    pub open spec fn reaped(self, c: int, tids: Seq<Tid>, eps: Seq<u64>) -> MView {
        self.collected(tids).torn_down_all(c, eps)
    }

    /// A new endpoint `e` in page `page`.
    pub open spec fn registered(self, e: u64, page: u64) -> MView {
        MView {
            endpoints: self.endpoints.insert(e, quiet(0)),
            ep_pages: self.ep_pages.insert(e, page),
            ..self
        }
    }
}

/// Off the sender queue with it, wherever it stands there.
proof fn lemma_unpark(a: MView, tid: Tid)
    requires
        a.inv(),
        a.threads.contains_key(tid),
        !a.threads[tid].is_live(),
    ensures
        a.unparked(tid).inv(),
        !a.unparked(tid).queued(tid),
        !a.unparked(tid).is_idle(tid),
        a.unparked(tid).threads == a.threads,
{
    reveal(MView::inv);
    let t = a.threads[tid];
    let b = a.unparked(tid);
    steps::lemma_blocked_not_idle(a, tid);
    // It can stand nowhere but among the senders of its own supervision endpoint.
    assert forall|p: Place, i: int|
        0 <= i < a.queue(p).len() && #[trigger] a.queue(p)[i] == tid implies t.state == State::Dead
        && t.fault_ep is Some && p == Place::Senders(t.fault_ep->0) by {
        assert(a.fits(p, t));
    }
    if t.state == State::Dead && t.fault_ep is Some && a.endpoints.contains_key(t.fault_ep->0) {
        let e = t.fault_ep->0;
        let s = a.endpoints[e].senders;
        let s2 = ipc::without(s, tid);
        let here = Place::Senders(e);
        ipc::lemma_without(s, tid);
        assert(a.queue(here) == s);
        assert forall|i: int, j: int| 0 <= i < s.len() && 0 <= j < s.len() && i != j implies s[i]
            != s[j] by {
            assert(a.queue(here)[i] == s[i] && a.queue(here)[j] == s[j]);
        }
        assert(s.no_duplicates());
        assert forall|p: Place| p != here implies #[trigger] b.queue(p) == a.queue(p) by {}
        assert(b.queue(here) == s2);
        // Every entry of a queue of `b` is an entry of the same queue of `a`, and not `tid`.
        assert forall|p: Place, i: int| 0 <= i < b.queue(p).len() implies exists|k: int|
            0 <= k < a.queue(p).len() && a.queue(p)[k] == #[trigger] b.queue(p)[i] by {
            if p == here {
                assert(s2.contains(s2[i]));
                assert(s.contains(s2[i]));
                let k = choose|k: int| 0 <= k < s.len() && s[k] == s2[i];
                assert(a.queue(p)[k] == b.queue(p)[i]);
            } else {
                assert(a.queue(p)[i] == b.queue(p)[i]);
            }
        }
        assert forall|x: Tid| b.is_idle(x) <==> a.is_idle(x) by {
            model::lemma_idle_same(a, b);
        }
        assert(b.queues_fit()) by {
            assert forall|p: Place, i: int|
                #![trigger b.queue(p)[i]]
                0 <= i < b.queue(p).len() implies ({
                let x = b.queue(p)[i];
                &&& b.threads.contains_key(x)
                &&& b.fits(p, b.threads[x])
                &&& !b.is_idle(x)
            }) by {
                let k = choose|k: int|
                    0 <= k < a.queue(p).len() && a.queue(p)[k] == b.queue(p)[i];
                assert(a.fits(p, a.threads[a.queue(p)[k]]));
            }
        }
        assert(b.queues_apart()) by {
            assert forall|p: Place, i: int, q: Place, j: int|
                #![trigger b.queue(p)[i], b.queue(q)[j]]
                0 <= i < b.queue(p).len() && 0 <= j < b.queue(q).len() && b.queue(p)[i]
                    == b.queue(q)[j] implies p == q && i == j by {
                let k = choose|k: int|
                    0 <= k < a.queue(p).len() && a.queue(p)[k] == b.queue(p)[i];
                let l = choose|l: int|
                    0 <= l < a.queue(q).len() && a.queue(q)[l] == b.queue(q)[j];
                assert(a.queue(p)[k] == a.queue(q)[l]);
                assert(p == q);
                if p == here {
                    assert(s2[i] == s2[j]);
                } else {
                    assert(a.queue(p)[i] == a.queue(q)[j]);
                }
            }
        }
        assert(b.ready_is_queued()) by {
            assert forall|x: Tid| #[trigger]
                b.threads.contains_key(x) && b.threads[x].state == State::Ready implies b.queued(x)
                || b.is_idle(x) by {
                assert(a.threads.contains_key(x));
                if !a.is_idle(x) {
                    assert(a.queued(x));
                    let (p, i) = choose|p: Place, i: int|
                        0 <= i < a.queue(p).len() && #[trigger] a.queue(p)[i] == x;
                    assert(a.fits(p, a.threads[x]));
                    assert(p != here);
                    assert(b.queue(p)[i] == x);
                }
            }
        }
        rendezvous::lemma_ep_frame(a, b);
        assert(b.ep_pages.dom() =~= b.endpoints.dom());
        if b.queued(tid) {
            let (p, i) = choose|p: Place, i: int|
                0 <= i < b.queue(p).len() && #[trigger] b.queue(p)[i] == tid;
            if p == here {
                assert(s2.contains(tid));
            } else {
                assert(a.queue(p)[i] == tid);
            }
        }
    } else {
        if b.queued(tid) {
            let (p, i) = choose|p: Place, i: int|
                0 <= i < b.queue(p).len() && #[trigger] b.queue(p)[i] == tid;
            assert(a.queue(p)[i] == tid);
        }
    }
}

/// Collecting one thread that cannot run any more keeps the discipline.
pub proof fn lemma_collect_one(a: MView, tid: Tid)
    requires
        a.inv(),
        a.threads.contains_key(tid),
        !a.threads[tid].is_live(),
    ensures
        a.unparked(tid).removed(tid).inv(),
{
    lemma_unpark(a, tid);
    switch::lemma_remove(a.unparked(tid), tid);
}

/// Both queues of an endpoint are emptied. Whoever stood there stands nowhere.
pub proof fn lemma_empty_ep(a: MView, e: u64)
    requires
        a.inv(),
        a.endpoints.contains_key(e),
    ensures
        ({
            let b = a.with_ep(e, quiet(a.endpoints[e].pending));
            &&& b.inv()
            &&& forall|i: int|
                0 <= i < a.endpoints[e].waiters().len() ==> !b.parked(
                    #[trigger] a.endpoints[e].waiters()[i],
                )
        }),
{
    reveal(MView::inv);
    let ep = a.endpoints[e];
    let b = a.with_ep(e, quiet(ep.pending));
    let s = Place::Senders(e);
    let r = Place::Receivers(e);
    assert forall|p: Place| p != s && p != r implies #[trigger] b.queue(p) == a.queue(p) by {}
    assert(b.queue(s).len() == 0);
    assert(b.queue(r).len() == 0);
    model::lemma_idle_same(a, b);
    assert(b.queues_fit()) by {
        assert forall|p: Place, i: int|
            #![trigger b.queue(p)[i]]
            0 <= i < b.queue(p).len() implies ({
            let x = b.queue(p)[i];
            &&& b.threads.contains_key(x)
            &&& b.fits(p, b.threads[x])
            &&& !b.is_idle(x)
        }) by {
            assert(a.queue(p)[i] == b.queue(p)[i]);
            assert(a.fits(p, a.threads[a.queue(p)[i]]));
        }
    }
    assert(b.queues_apart()) by {
        assert forall|p: Place, i: int, q: Place, j: int|
            #![trigger b.queue(p)[i], b.queue(q)[j]]
            0 <= i < b.queue(p).len() && 0 <= j < b.queue(q).len() && b.queue(p)[i] == b.queue(
                q,
            )[j] implies p == q && i == j by {
            assert(a.queue(p)[i] == a.queue(q)[j]);
        }
    }
    assert(b.ready_is_queued()) by {
        assert forall|x: Tid| #[trigger]
            b.threads.contains_key(x) && b.threads[x].state == State::Ready implies b.queued(x)
            || b.is_idle(x) by {
            assert(a.threads.contains_key(x));
            if !a.is_idle(x) {
                assert(a.queued(x));
                let (p, i) = choose|p: Place, i: int|
                    0 <= i < a.queue(p).len() && #[trigger] a.queue(p)[i] == x;
                assert(a.fits(p, a.threads[x]));
                assert(b.queue(p)[i] == x);
            }
        }
    }
    rendezvous::lemma_ep_frame(a, b);
    assert(b.ep_pages.dom() =~= b.endpoints.dom());
    let w = ep.waiters();
    assert forall|i: int| 0 <= i < w.len() implies !b.parked(#[trigger] w[i]) by {
        let x = w[i];
        let n = ep.senders.len() as int;
        let (p0, k) = if i < n {
            (s, i)
        } else {
            (r, i - n)
        };
        assert(a.queue(p0)[k] == x);
        if b.parked(x) {
            let (p, j) = choose|p: Place, j: int|
                (p is Senders || p is Receivers) && 0 <= j < b.queue(p).len()
                    && #[trigger] b.queue(p)[j] == x;
            assert(a.queue(p)[j] == x);
            assert(p == p0);
        }
    }
}

/// Waking and aborting park nobody and touch no endpoint.
pub proof fn lemma_call_off(a: MView, c: int, tids: Seq<Tid>)
    requires
        a.inv(),
        0 <= c < a.cpus.len(),
        forall|i: int| 0 <= i < tids.len() ==> !a.parked(#[trigger] tids[i]),
    ensures
        a.called_off(c, tids).inv(),
        a.called_off(c, tids).endpoints == a.endpoints,
        a.called_off(c, tids).ep_pages == a.ep_pages,
        a.called_off(c, tids).cpus.len() == a.cpus.len(),
        a.called_off(c, tids).threads.dom() == a.threads.dom(),
        a.called_off(c, tids).running == a.running,
        forall|t: Tid| #[trigger]
            a.threads.contains_key(t) ==> a.called_off(c, tids).threads[t].page
                == a.threads[t].page,
    decreases tids.len(),
{
    if tids.len() > 0 {
        let rest = tids.drop_last();
        let x = tids.last();
        assert forall|i: int| 0 <= i < rest.len() implies !a.parked(#[trigger] rest[i]) by {
            assert(rest[i] == tids[i]);
        }
        lemma_call_off(a, c, rest);
        let b = a.called_off(c, rest);
        assert(tids[tids.len() - 1] == x);
        assert(!b.parked(x)) by {
            if b.parked(x) {
                let (p, i) = choose|p: Place, i: int|
                    (p is Senders || p is Receivers) && 0 <= i < b.queue(p).len()
                        && #[trigger] b.queue(p)[i] == x;
                assert(a.queue(p) == b.queue(p));
                assert(a.queue(p)[i] == x);
                assert(a.parked(x));
            }
        }
        rendezvous::lemma_abort(b, x);
        let d = b.aborted(x);
        assert(!d.parked(x)) by {
            if d.parked(x) {
                let (p, i) = choose|p: Place, i: int|
                    (p is Senders || p is Receivers) && 0 <= i < d.queue(p).len()
                        && #[trigger] d.queue(p)[i] == x;
                assert(b.queue(p) == d.queue(p));
                assert(b.queue(p)[i] == x);
                assert(b.parked(x));
            }
        }
        steps::lemma_wake(d, c, x);
        assert(d.threads.dom() =~= b.threads.dom());
        assert(d.woken(c, x).threads.dom() =~= d.threads.dom());
    }
}

/// Dropping an endpoint nobody waits on keeps the discipline.
proof fn lemma_unregister(a: MView, e: u64)
    requires
        a.inv(),
        a.endpoints.contains_key(e),
        a.endpoints[e].senders.len() == 0,
        a.endpoints[e].receivers.len() == 0,
    ensures
        a.unregistered(e).inv(),
{
    reveal(MView::inv);
    let b = a.unregistered(e);
    assert forall|p: Place| #[trigger] b.queue(p) == a.queue(p) by {
        match p {
            Place::Senders(x) => {
                if x == e {
                    assert(a.queue(p) =~= Seq::<Tid>::empty());
                }
            },
            Place::Receivers(x) => {
                if x == e {
                    assert(a.queue(p) =~= Seq::<Tid>::empty());
                }
            },
            _ => {},
        }
    }
    lemma_registry_frame(a, b);
    assert(b.ep_pages.dom() =~= b.endpoints.dom());
    assert forall|x: u64| #[trigger] b.endpoints.contains_key(x) implies b.endpoints[x].one_sided() by {
        assert(a.endpoints.contains_key(x));
    }
    if !b.running {
        assert(b.endpoints.dom() =~= Set::<u64>::empty());
    }
}

/// With every queue as it was, which endpoints there are does not matter.
proof fn lemma_registry_frame(a: MView, b: MView)
    requires
        a.inv(),
        b == (MView { endpoints: b.endpoints, ep_pages: b.ep_pages, ..a }),
        forall|p: Place| #[trigger] b.queue(p) == a.queue(p),
    ensures
        b.queues_fit(),
        b.queues_apart(),
        b.ready_is_queued(),
        b.cores_ok(),
        b.idles_ok(),
        b.threads_ok(),
{
    reveal(MView::inv);
    assert forall|p: Place, i: int|
        #![trigger a.queue(p)[i]]
        0 <= i < a.queue(p).len() implies b.threads.contains_key(a.queue(p)[i]) && b.fits(
        p,
        b.threads[a.queue(p)[i]],
    ) by {
        assert(a.fits(p, a.threads[a.queue(p)[i]]));
    }
    steps::lemma_queues_kept(a, b);
    let mid = MView { endpoints: b.endpoints, ..a };
    rendezvous::lemma_ep_frame(a, mid);
    assert forall|c: int, t: Tid| #[trigger] b.holds_core(c, t) <==> mid.holds_core(c, t) by {}
    assert(b.cores_ok()) by {
        assert forall|t: Tid| #[trigger] b.threads.contains_key(t) implies (b.threads[t].on_cpu
            <==> exists|c: int| #[trigger] b.holds_core(c, t)) by {
            assert(mid.threads.contains_key(t));
            if mid.threads[t].on_cpu {
                let c = choose|c: int| #[trigger] mid.holds_core(c, t);
                assert(b.holds_core(c, t));
            }
            if exists|c: int| #[trigger] b.holds_core(c, t) {
                let c = choose|c: int| #[trigger] b.holds_core(c, t);
                assert(mid.holds_core(c, t));
            }
        }
        assert forall|c: int, d: int, t: Tid|
            #![trigger b.holds_core(c, t), b.holds_core(d, t)]
            t != NO_TID && b.holds_core(c, t) && b.holds_core(d, t) implies c == d by {
            assert(mid.holds_core(c, t) && mid.holds_core(d, t));
        }
    }
    assert(b.idles_ok()) by {
        assert forall|c: int|
            0 <= c < b.cpus.len() && (#[trigger] b.cpus[c]).idle != NO_TID implies ({
            let t = b.threads[b.cpus[c].idle];
            &&& b.threads.contains_key(b.cpus[c].idle)
            &&& t.state == State::Ready || t.state == State::Running
            &&& !t.killed
            &&& t.on_cpu ==> b.holds_core(c, t.id)
        }) by {
            let i = b.threads[b.cpus[c].idle].id;
            assert(b.holds_core(c, i) <==> mid.holds_core(c, i));
        }
    }
}

/// A new endpoint keeps the discipline.
pub proof fn lemma_register(a: MView, e: u64, page: u64)
    requires
        a.inv(),
        a.running,
        !a.endpoints.contains_key(e),
    ensures
        a.registered(e, page).inv(),
{
    reveal(MView::inv);
    let b = a.registered(e, page);
    assert forall|p: Place| #[trigger] b.queue(p) == a.queue(p) by {
        match p {
            Place::Senders(x) => {
                if x == e {
                    assert(b.queue(p) =~= Seq::<Tid>::empty());
                }
            },
            Place::Receivers(x) => {
                if x == e {
                    assert(b.queue(p) =~= Seq::<Tid>::empty());
                }
            },
            _ => {},
        }
    }
    lemma_registry_frame(a, b);
    assert(b.ep_pages.dom() =~= b.endpoints.dom());
    assert forall|x: u64| #[trigger] b.endpoints.contains_key(x) implies b.endpoints[x].one_sided() by {
        if x != e {
            assert(a.endpoints.contains_key(x));
        }
    }
}

/// Tearing one endpoint down keeps the discipline, and every thread.
pub proof fn lemma_tear_down(a: MView, c: int, e: u64)
    requires
        a.inv(),
        0 <= c < a.cpus.len(),
        a.endpoints.contains_key(e),
    ensures
        a.torn_down(c, e).inv(),
        a.torn_down(c, e).threads.dom() == a.threads.dom(),
        a.torn_down(c, e).endpoints == a.endpoints.remove(e),
        a.torn_down(c, e).ep_pages == a.ep_pages.remove(e),
        a.torn_down(c, e).cpus.len() == a.cpus.len(),
        a.torn_down(c, e).running == a.running,
        forall|t: Tid| #[trigger]
            a.threads.contains_key(t) ==> a.torn_down(c, e).threads[t].page == a.threads[t].page,
        a.with_ep(e, quiet(a.endpoints[e].pending)).called_off(
            c,
            a.endpoints[e].waiters(),
        ).endpoints.contains_key(e),
{
    let ep = a.endpoints[e];
    let b = a.with_ep(e, quiet(ep.pending));
    lemma_empty_ep(a, e);
    lemma_call_off(b, c, ep.waiters());
    let d = b.called_off(c, ep.waiters());
    assert(d.endpoints[e].senders.len() == 0);
    lemma_unregister(d, e);
    assert(d.endpoints.remove(e) =~= a.endpoints.remove(e));
    assert(d.ep_pages.remove(e) =~= a.ep_pages.remove(e));
}

/// Marking threads to be torn down keeps the discipline, as long as none of them is an idle thread.
pub proof fn lemma_condemn_one(a: MView, tid: Tid)
    requires
        a.inv(),
        a.threads.contains_key(tid),
        !a.is_idle(tid),
    ensures
        a.with_thread(tid, TView { killed: true, ..a.threads[tid] }).inv(),
{
    steps::lemma_plain_threads(a, tid);
    steps::lemma_plain(a, tid, TView { killed: true, ..a.threads[tid] });
}

/// There are threads only once the scheduler is up.
pub proof fn lemma_running(a: MView, tid: Tid)
    requires
        a.inv(),
    ensures
        a.threads.contains_key(tid) ==> a.running,
{
    reveal(MView::inv);
}

} // verus!
