//! What becomes of everybody when something ends: a capability is taken back, a thread is collected, an
//! endpoint is torn down.
use vstd::prelude::*;

use crate::cap::{Object, Tid};
use crate::cpu::CpuView;
use crate::model::reap;
use crate::model::MView;
use crate::thread::{State, TView};

verus! {

/// Nothing but the threads changed, and nobody came or went.
pub open spec fn only_threads(a: MView, b: MView) -> bool {
    &&& b == (MView { threads: b.threads, ..a })
    &&& forall|t: Tid| #[trigger] b.threads.contains_key(t) <==> a.threads.contains_key(t)
}

/// **What taking the capabilities to an object back does.** A slot is empty afterwards exactly if it
/// was before or held one of them; the table of the one who keeps its own is as it was; and nothing
/// else changes, in any thread.
pub proof fn law_what_taking_capabilities_back_does(
    a: MView,
    object: Object,
    keeper: Option<Tid>,
    t: Tid,
    i: int,
)
    requires
        a.threads.contains_key(t),
        0 <= i < a.threads[t].cspace.len(),
    ensures
        ({
            let b = a.without_caps(object, keeper);
            let (was, is) = (a.threads[t], b.threads[t]);
            let named = was.cspace[i] is Some && (was.cspace[i]->0).object == object;
            &&& only_threads(a, b)
            &&& keeper == Some(t) ==> is == was
            &&& is == (TView { cspace: is.cspace, ..was })
            &&& is.cspace.len() == was.cspace.len()
            &&& keeper != Some(t) && named ==> is.cspace[i] is None
            &&& !named ==> is.cspace[i] == was.cspace[i]
        }),
{
}

/// **What taking the capabilities to a range of pages back does**: no table holds one afterwards and no
/// message takes one along, and nothing else changes, in any thread.
pub proof fn law_what_taking_pages_back_does(a: MView, base: int, end: int, t: Tid, i: int)
    requires
        a.threads.contains_key(t),
        0 <= i < a.threads[t].cspace.len(),
    ensures
        ({
            let b = a.without_frames(base, end);
            let (was, is) = (a.threads[t], b.threads[t]);
            let held = was.cspace[i] is Some && (was.cspace[i]->0).object is Frame && base <= (
            was.cspace[i]->0).object->Frame_0 < end;
            let sent = was.outgoing_cap is Some && (was.outgoing_cap->0).object is Frame && base <= (
            was.outgoing_cap->0).object->Frame_0 < end;
            &&& only_threads(a, b)
            &&& is == (TView { cspace: is.cspace, outgoing_cap: is.outgoing_cap, ..was })
            &&& is.cspace.len() == was.cspace.len()
            &&& is.cspace[i] == (if held {
                None
            } else {
                was.cspace[i]
            })
            &&& is.outgoing_cap == (if sent {
                None
            } else {
                was.outgoing_cap
            })
        }),
{
}

/// **Who is marked to go**: who lives in the range and could still run. The mark is all that changes.
pub proof fn law_what_condemning_does(a: MView, base: int, end: int, t: Tid)
    requires
        a.threads.contains_key(t),
    ensures
        ({
            let b = a.condemned(base, end);
            let (was, is) = (a.threads[t], b.threads[t]);
            &&& only_threads(a, b)
            &&& is == (TView { killed: is.killed, ..was })
            &&& is.killed <==> was.killed || (base <= was.page < end && (was.state == State::Ready
                || was.state == State::Running || was.state == State::Blocked))
        }),
{
}

/// **What registering an endpoint does.** It is there, on its page, and nobody and nothing waits on
/// it; nothing else changes.
pub proof fn law_what_registering_does(a: MView, e: u64, page: u64, other: u64)
    requires
        other != e,
    ensures
        ({
            let b = a.registered(e, page);
            &&& b == (MView { endpoints: b.endpoints, ep_pages: b.ep_pages, ..a })
            &&& b.endpoints.contains_key(e)
            &&& b.ep_pages.contains_key(e) && b.ep_pages[e] == page
            &&& b.endpoints[e].senders.len() == 0
            &&& b.endpoints[e].receivers.len() == 0
            &&& b.endpoints[e].pending == 0
            &&& b.endpoints.contains_key(other) <==> a.endpoints.contains_key(other)
            &&& b.endpoints[other] == a.endpoints[other]
            &&& b.ep_pages.contains_key(other) <==> a.ep_pages.contains_key(other)
            &&& b.ep_pages[other] == a.ep_pages[other]
        }),
{
}

/// Has `t` stood with its message among the senders of `e` since it died?
pub open spec fn corpse_of(a: MView, t: Tid, e: u64) -> bool {
    a.threads[t].state == State::Dead && a.threads[t].fault_ep == Some(e)
}

/// **What collecting threads does.** They are gone and everybody else is as before; each of them that
/// had died has left its supervisor's queue, and nobody else has left any queue; no core and no
/// registration changes.
pub proof fn law_what_collecting_does(a: MView, tids: Seq<Tid>, t: Tid, e: u64)
    requires
        tids.no_duplicates(),
        forall|i: int| 0 <= i < tids.len() ==> a.threads.contains_key(#[trigger] tids[i]),
    ensures
        ({
            let b = a.collected(tids);
            &&& b == (MView {
                threads: b.threads,
                endpoints: b.endpoints,
                quotas: b.quotas,
                ..a
            })
            &&& b.quotas.len() == a.quotas.len()
            &&& b.threads.contains_key(t) <==> a.threads.contains_key(t) && !tids.contains(t)
            &&& b.threads.contains_key(t) ==> b.threads[t] == a.threads[t]
            &&& b.endpoints.contains_key(e) <==> a.endpoints.contains_key(e)
            &&& a.endpoints.contains_key(e) ==> {
                &&& b.endpoints[e].receivers == a.endpoints[e].receivers
                &&& b.endpoints[e].pending == a.endpoints[e].pending
                &&& b.endpoints[e].senders.contains(t) <==> a.endpoints[e].senders.contains(t) && !(
                tids.contains(t) && corpse_of(a, t, e))
            }
        }),
    decreases tids.len(),
{
    if tids.len() > 0 {
        let rest = tids.drop_last();
        let x = tids.last();
        assert forall|i: int| 0 <= i < rest.len() implies a.threads.contains_key(
            #[trigger] rest[i],
        ) by {
            assert(rest[i] == tids[i]);
        }
        law_what_collecting_does(a, rest, t, e);
        law_what_collecting_does(a, rest, x, e);
        assert(tids[tids.len() - 1] == x);
        assert(!rest.contains(x));
        assert(tids.contains(t) <==> rest.contains(t) || t == x) by {
            if rest.contains(t) {
                let i = choose|i: int| 0 <= i < rest.len() && rest[i] == t;
                assert(tids[i] == t);
            }
            if tids.contains(t) && t != x {
                let i = choose|i: int| 0 <= i < tids.len() && tids[i] == t;
                assert(rest[i] == t);
            }
        }
        let m = a.collected(rest);
        crate::ipc::law_who_is_left(m.endpoints[e].senders, x, t);
    } else {
        assert(!tids.contains(t));
    }
}

/// **What a collected thread gives back to its budget**: one, if it held one of a budget that there is,
/// and no other budget changes.
pub proof fn law_what_a_budget_gets_back(a: MView, tid: Tid, q: int)
    requires
        0 <= q < a.quotas.len(),
        a.quotas[q] < u32::MAX,
    ensures
        a.removed(tid).quotas.len() == a.quotas.len(),
        a.removed(tid).quotas[q] == a.quotas[q] + (if a.threads[tid].quota is Some
            && a.threads[tid].quota->0 == q {
            1int
        } else {
            0
        }),
        !a.removed(tid).threads.contains_key(tid),
{
}

/// Could `t` be put on a run queue: does it wait, off every core?
pub open spec fn waits_off_core(a: MView, t: Tid) -> bool {
    a.threads.contains_key(t) && a.threads[t].state == State::Blocked && !a.threads[t].on_cpu
}

/// **What calling rendezvous off does.** Each of the threads is told so. One that waits will run again:
/// at the back of the core's run queue, in the order of the list, or, while a core is on it, once that
/// core has let go of it. A corpse stays one. Nobody else, and no other core, notices anything.
pub proof fn law_what_calling_off_does(a: MView, c: int, tids: Seq<Tid>, t: Tid)
    requires
        0 <= c < a.cpus.len(),
        tids.no_duplicates(),
    ensures
        ({
            let b = a.called_off(c, tids);
            let (was, is) = (a.threads[t], b.threads[t]);
            &&& b == (MView { threads: b.threads, cpus: b.cpus, ..a })
            &&& b.threads.contains_key(t) <==> a.threads.contains_key(t)
            &&& !tids.contains(t) && a.threads.contains_key(t) ==> is == was
            &&& tids.contains(t) && a.threads.contains_key(t) ==> {
                &&& is.ipc_aborted
                &&& is == (TView {
                    ipc_aborted: true,
                    state: is.state,
                    wake_pending: is.wake_pending,
                    ..was
                })
                &&& is.state == (if waits_off_core(a, t) {
                    State::Ready
                } else {
                    was.state
                })
                &&& is.wake_pending <==> was.wake_pending || (was.state == State::Blocked
                    && was.on_cpu)
            }
            &&& b.cpus == a.cpus.update(
                c,
                CpuView {
                    runq: a.cpus[c].runq + tids.filter(|x: Tid| waits_off_core(a, x)),
                    ..a.cpus[c]
                },
            )
        }),
    decreases tids.len(),
{
    reveal(Seq::filter);
    let p = |x: Tid| waits_off_core(a, x);
    let b = a.called_off(c, tids);
    if tids.len() > 0 {
        let rest = tids.drop_last();
        let x = tids.last();
        law_what_calling_off_does(a, c, rest, t);
        law_what_calling_off_does(a, c, rest, x);
        assert(tids[tids.len() - 1] == x);
        assert(!rest.contains(x));
        assert(tids.contains(t) <==> rest.contains(t) || t == x) by {
            if rest.contains(t) {
                let i = choose|i: int| 0 <= i < rest.len() && rest[i] == t;
                assert(tids[i] == t);
            }
            if tids.contains(t) && t != x {
                let i = choose|i: int| 0 <= i < tids.len() && tids[i] == t;
                assert(rest[i] == t);
            }
        }
        if p(x) {
            assert(tids.filter(p) =~= rest.filter(p).push(x));
            assert(a.cpus[c].runq + tids.filter(p) =~= (a.cpus[c].runq + rest.filter(p)).push(x));
        } else {
            assert(tids.filter(p) =~= rest.filter(p));
        }
        assert(b.cpus =~= a.cpus.update(
            c,
            CpuView { runq: a.cpus[c].runq + tids.filter(p), ..a.cpus[c] },
        ));
    } else {
        assert(a.cpus[c].runq + tids.filter(p) =~= a.cpus[c].runq);
        assert(b.cpus =~= a.cpus.update(
            c,
            CpuView { runq: a.cpus[c].runq + tids.filter(p), ..a.cpus[c] },
        ));
        assert(!tids.contains(t));
    }
}

/// **What tearing an endpoint down does.** It is gone, with its page, and no other endpoint changes.
/// Whoever waited on it is told so and will run again, on the core that tore it down; nobody else, and
/// no other core, notices anything.
pub proof fn law_what_tearing_down_does(a: MView, c: int, e: u64, t: Tid, other: u64, d: int)
    requires
        a.inv(),
        0 <= c < a.cpus.len(),
        a.endpoints.contains_key(e),
        a.threads.contains_key(t),
        other != e,
        0 <= d < a.cpus.len(),
    ensures
        ({
            let b = a.torn_down(c, e);
            let (was, is) = (a.threads[t], b.threads[t]);
            let waited = a.endpoints[e].senders.contains(t) || a.endpoints[e].receivers.contains(t);
            &&& b == (MView {
                threads: b.threads,
                endpoints: b.endpoints,
                ep_pages: b.ep_pages,
                cpus: b.cpus,
                ..a
            })
            &&& !b.endpoints.contains_key(e) && !b.ep_pages.contains_key(e)
            &&& b.endpoints.contains_key(other) <==> a.endpoints.contains_key(other)
            &&& b.endpoints.contains_key(other) ==> b.endpoints[other] == a.endpoints[other]
            &&& b.ep_pages.contains_key(other) <==> a.ep_pages.contains_key(other)
            &&& b.ep_pages.contains_key(other) ==> b.ep_pages[other] == a.ep_pages[other]
            &&& b.threads.contains_key(t)
            &&& !waited ==> is == was
            &&& waited ==> is.ipc_aborted && is.mailbox == was.mailbox && is.cspace == was.cspace
            &&& waited && was.state == State::Blocked && was.on_cpu ==> is.wake_pending
            &&& waited && was.state == State::Blocked && !was.on_cpu ==> {
                &&& is.state == State::Ready
                &&& b.cpus[c].runq.contains(t)
            }
            &&& was.state == State::Dead ==> is.state == State::Dead
            &&& b.cpus.len() == a.cpus.len()
            &&& d != c ==> b.cpus[d] == a.cpus[d]
            &&& b.cpus[c] == (CpuView { runq: b.cpus[c].runq, ..a.cpus[c] })
            &&& b.cpus[c].runq.len() >= a.cpus[c].runq.len()
            &&& b.cpus[c].runq.take(a.cpus[c].runq.len() as int) == a.cpus[c].runq
        }),
{
    let ep = a.endpoints[e];
    let w = ep.waiters();
    let m = a.with_ep(e, reap::quiet(ep.pending));
    let p = |x: Tid| waits_off_core(m, x);
    assert(w.no_duplicates()) by {
        reveal(MView::inv);
        let (s, r) = (crate::model::Place::Senders(e), crate::model::Place::Receivers(e));
        assert forall|i: int, j: int| 0 <= i < w.len() && 0 <= j < w.len() && i != j implies w[i]
            != w[j] by {
            let n = ep.senders.len();
            let (pi, ii) = if i < n {
                (s, i)
            } else {
                (r, i - n)
            };
            let (pj, jj) = if j < n {
                (s, j)
            } else {
                (r, j - n)
            };
            assert(a.queue(pi)[ii] == w[i]);
            assert(a.queue(pj)[jj] == w[j]);
        }
    }
    law_what_calling_off_does(m, c, w, t);
    assert(w.contains(t) <==> ep.senders.contains(t) || ep.receivers.contains(t)) by {
        if ep.senders.contains(t) {
            let i = choose|i: int| 0 <= i < ep.senders.len() && ep.senders[i] == t;
            assert(w[i] == t);
        }
        if ep.receivers.contains(t) {
            let i = choose|i: int| 0 <= i < ep.receivers.len() && ep.receivers[i] == t;
            assert(w[ep.senders.len() + i] == t);
        }
        if w.contains(t) {
            let i = choose|i: int| 0 <= i < w.len() && w[i] == t;
            if i < ep.senders.len() {
                assert(ep.senders[i] == t);
            } else {
                assert(ep.receivers[i - ep.senders.len()] == t);
            }
        }
    }
    let b = a.torn_down(c, e);
    let runq = a.cpus[c].runq;
    assert(b.cpus[c].runq == runq + w.filter(p));
    assert(b.cpus[c].runq.take(runq.len() as int) =~= runq);
    if w.contains(t) && p(t) {
        let i = choose|i: int| 0 <= i < w.len() && w[i] == t;
        w.lemma_filter_contains(p, i);
        let k = choose|k: int| 0 <= k < w.filter(p).len() && w.filter(p)[k] == t;
        assert(b.cpus[c].runq[runq.len() + k] == t);
    }
}

} // verus!
