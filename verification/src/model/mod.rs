//! The machine as the contracts see it: threads, endpoints and cores as plain mathematical values,
//! what each operation does to them, and the discipline every operation keeps.
//!
//! Everything here is specification and proof. [`crate::machine`] holds the executable state and
//! [`crate::sched`] the executable operations; each of those says that its effect is one of the
//! functions below.
use vstd::prelude::*;

use crate::cap::{Cap, Object, Tid, CSPACE_SLOTS};
use crate::cpu::{CpuView, NO_TID};
use crate::ipc::EpView;
use crate::thread::{State, TView};

pub mod delivery;
pub mod endings;
pub mod laws;
pub mod place;
pub mod reap;
pub mod rendezvous;
pub mod steps;
pub mod switch;
pub mod turns;

verus! {

/// The whole machine.
#[verifier::ext_equal]
pub struct MView {
    /// Has the scheduler been brought up?
    pub running: bool,
    pub threads: Map<Tid, TView>,
    pub endpoints: Map<u64, EpView>,
    /// The physical page each endpoint lives in.
    pub ep_pages: Map<u64, u64>,
    pub cpus: Seq<CpuView>,
    /// How many cores are online.
    pub online: nat,
    /// Where each interrupt goes: an endpoint's name plus one, or 0 for nowhere.
    pub irq_routes: Seq<u64>,
    /// How often a core was taken away from a thread.
    pub preemptions: u64,
    /// The region the kernel's own endpoints are carved out of at present.
    pub kernel_ep_region: Option<u64>,
    /// How many such regions have been carved.
    pub kernel_ep_chunks: nat,
    /// What is left of each spawning budget.
    pub quotas: Seq<u32>,
}

/// A queue a thread can stand in.
pub enum Place {
    /// The run queue of a core.
    Run(int),
    /// The inbox of a core.
    Inbox(int),
    /// The senders of an endpoint.
    Senders(u64),
    /// The receivers of an endpoint.
    Receivers(u64),
}

impl MView {
    /// The threads standing in a queue, the next one first.
    pub open spec fn queue(self, p: Place) -> Seq<Tid> {
        match p {
            Place::Run(c) => if 0 <= c < self.cpus.len() {
                self.cpus[c].runq
            } else {
                Seq::empty()
            },
            Place::Inbox(c) => if 0 <= c < self.cpus.len() {
                self.cpus[c].inbox
            } else {
                Seq::empty()
            },
            Place::Senders(e) => if self.endpoints.contains_key(e) {
                self.endpoints[e].senders
            } else {
                Seq::empty()
            },
            Place::Receivers(e) => if self.endpoints.contains_key(e) {
                self.endpoints[e].receivers
            } else {
                Seq::empty()
            },
        }
    }

    /// Does `tid` stand in some queue?
    pub open spec fn queued(self, tid: Tid) -> bool {
        exists|p: Place, i: int|
            0 <= i < self.queue(p).len() && #[trigger] self.queue(p)[i] == tid
    }

    /// Does `tid` stand in some endpoint's queue?
    pub open spec fn parked(self, tid: Tid) -> bool {
        exists|p: Place, i: int|
            (p is Senders || p is Receivers) && 0 <= i < self.queue(p).len()
                && #[trigger] self.queue(p)[i] == tid
    }

    /// Is `tid` some core's idle thread?
    pub open spec fn is_idle(self, tid: Tid) -> bool {
        exists|c: int| 0 <= c < self.cpus.len() && (#[trigger] self.cpus[c]).idle == tid
    }

    /// May a thread like `t` stand in queue `p`?
    ///
    /// Only a ready thread waits for a core, and only one whose context is saved can be taken by
    /// another core: the one exception stands on the queue of the very core that is leaving it.
    /// Only a blocked thread, or a corpse holding its death message, waits on an endpoint.
    pub open spec fn fits(self, p: Place, t: TView) -> bool {
        match p {
            Place::Run(c) => t.state == State::Ready && (t.on_cpu ==> self.cpus[c].switched_from
                == t.id),
            Place::Inbox(_) => t.state == State::Ready && !t.on_cpu,
            Place::Senders(e) => (t.state == State::Blocked && !t.wake_pending) || (t.state
                == State::Dead && t.fault_ep == Some(e)),
            Place::Receivers(_) => t.state == State::Blocked && !t.wake_pending,
        }
    }

    /// Everybody in a queue is alive, fits there, and is not an idle thread.
    pub open spec fn queues_fit(self) -> bool {
        forall|p: Place, i: int|
            #![trigger self.queue(p)[i]]
            0 <= i < self.queue(p).len() ==> {
                let tid = self.queue(p)[i];
                &&& self.threads.contains_key(tid)
                &&& self.fits(p, self.threads[tid])
                &&& !self.is_idle(tid)
            }
    }

    /// Nobody stands in two queues, nor twice in one.
    pub open spec fn queues_apart(self) -> bool {
        forall|p: Place, i: int, q: Place, j: int|
            #![trigger self.queue(p)[i], self.queue(q)[j]]
            0 <= i < self.queue(p).len() && 0 <= j < self.queue(q).len() && self.queue(p)[i]
                == self.queue(q)[j] ==> p == q && i == j
    }

    /// No thread that could run is forgotten.
    pub open spec fn ready_is_queued(self) -> bool {
        forall|tid: Tid| #[trigger]
            self.threads.contains_key(tid) && self.threads[tid].state == State::Ready ==> self.queued(
                tid,
            ) || self.is_idle(tid)
    }

    /// What holds of each thread on its own.
    pub open spec fn threads_ok(self) -> bool {
        forall|tid: Tid| #[trigger]
            self.threads.contains_key(tid) ==> {
                let t = self.threads[tid];
                &&& t.id == tid
                &&& tid != NO_TID
                &&& t.wake_pending ==> t.state == State::Blocked && t.on_cpu
                &&& t.state == State::Embryo ==> !t.on_cpu
                &&& t.cspace.len() == CSPACE_SLOTS
                &&& t.mailbox.len() == 5
            }
    }

    /// Is `tid` on core `c`: running there, or just left by it?
    pub open spec fn holds_core(self, c: int, tid: Tid) -> bool {
        0 <= c < self.cpus.len() && (self.cpus[c].current == tid || self.cpus[c].switched_from
            == tid)
    }

    /// A thread is marked as being on a core exactly while a core runs it or is leaving it.
    pub open spec fn cores_ok(self) -> bool {
        &&& forall|tid: Tid| #[trigger]
            self.threads.contains_key(tid) ==> (self.threads[tid].on_cpu <==> exists|c: int| #[trigger]
                self.holds_core(c, tid))
        &&& forall|c: int, d: int, tid: Tid|
            #![trigger self.holds_core(c, tid), self.holds_core(d, tid)]
            tid != NO_TID && self.holds_core(c, tid) && self.holds_core(d, tid) ==> c == d
        &&& forall|c: int|
            0 <= c < self.cpus.len() && (#[trigger] self.cpus[c]).current != NO_TID
                ==> self.cpus[c].current != self.cpus[c].switched_from
    }

    /// A core's idle thread is alive, can run, is not to be torn down, and is nobody else's.
    pub open spec fn idles_ok(self) -> bool {
        &&& forall|c: int|
            0 <= c < self.cpus.len() && (#[trigger] self.cpus[c]).idle != NO_TID ==> {
                let t = self.threads[self.cpus[c].idle];
                &&& self.threads.contains_key(self.cpus[c].idle)
                &&& t.state == State::Ready || t.state == State::Running
                &&& !t.killed
                &&& t.on_cpu ==> self.holds_core(c, t.id)
            }
        &&& forall|c: int, d: int|
            #![trigger self.cpus[c], self.cpus[d]]
            0 <= c < self.cpus.len() && 0 <= d < self.cpus.len() && self.cpus[c].idle
                == self.cpus[d].idle && self.cpus[c].idle != NO_TID ==> c == d
    }

    /// Every endpoint is one-sided and has a page.
    pub open spec fn endpoints_ok(self) -> bool {
        &&& self.ep_pages.dom() == self.endpoints.dom()
        &&& forall|e: u64| #[trigger]
            self.endpoints.contains_key(e) ==> self.endpoints[e].one_sided()
    }

    /// **The discipline.** Every operation of the scheduler keeps it.
    #[verifier::opaque]
    pub open spec fn inv(self) -> bool {
        &&& self.queues_fit()
        &&& self.queues_apart()
        &&& self.ready_is_queued()
        &&& self.threads_ok()
        &&& self.cores_ok()
        &&& self.idles_ok()
        &&& self.endpoints_ok()
        &&& !self.running ==> self.threads.dom() == Set::<Tid>::empty() && self.endpoints.dom()
            == Set::<u64>::empty()
    }

    pub open spec fn with_thread(self, tid: Tid, t: TView) -> MView {
        MView { threads: self.threads.insert(tid, t), ..self }
    }

    pub open spec fn with_cpu(self, c: int, cpu: CpuView) -> MView {
        MView { cpus: self.cpus.update(c, cpu), ..self }
    }

    pub open spec fn with_ep(self, e: u64, ep: EpView) -> MView {
        MView { endpoints: self.endpoints.insert(e, ep), ..self }
    }
}

impl MView {
    /// Every capability naming `object` is gone from every table but `keeper`'s.
    pub open spec fn without_caps(self, object: Object, keeper: Option<Tid>) -> MView {
        MView {
            threads: Map::new(
                |t: Tid| self.threads.contains_key(t),
                |t: Tid|
                    if keeper == Some(t) {
                        self.threads[t]
                    } else {
                        TView {
                            cspace: crate::cap::without_object(self.threads[t].cspace, object),
                            ..self.threads[t]
                        }
                    },
            ),
            ..self
        }
    }

    /// Every thread that is in both is on the page it was on and built out of the region it was built
    /// out of, and `later` has no new thread that was built out of a region: nothing moves a thread.
    pub open spec fn settled(self, later: MView) -> bool {
        forall|t: Tid| #[trigger]
            later.threads.contains_key(t) ==> {
                &&& self.threads.contains_key(t) ==> later.threads[t].page == self.threads[t].page
                    && later.threads[t].tcb_region == self.threads[t].tcb_region
                &&& !self.threads.contains_key(t) ==> later.threads[t].tcb_region is None
            }
    }

    /// The idle threads are those they were.
    pub open spec fn same_idles(self, later: MView) -> bool {
        &&& later.cpus.len() == self.cpus.len()
        &&& forall|c: int|
            0 <= c < self.cpus.len() ==> (#[trigger] later.cpus[c]).idle == self.cpus[c].idle
    }

    /// Every capability naming a page in `[base, end)` is gone: from every table, and from every
    /// message that is on its way.
    pub open spec fn without_frames(self, base: int, end: int) -> MView {
        MView {
            threads: Map::new(
                |t: Tid| self.threads.contains_key(t),
                |t: Tid|
                    TView {
                        cspace: crate::cap::without_frames(self.threads[t].cspace, base, end),
                        outgoing_cap: if crate::cap::names_page(
                            self.threads[t].outgoing_cap,
                            base,
                            end,
                        ) {
                            None
                        } else {
                            self.threads[t].outgoing_cap
                        },
                        ..self.threads[t]
                    },
            ),
            ..self
        }
    }

    /// The running thread of core `c` with another capability table.
    pub open spec fn with_cspace(self, c: int, cspace: Seq<Option<Cap>>) -> MView {
        let me = self.cpus[c].current;
        self.with_thread(me, TView { cspace, ..self.threads[me] })
    }

    /// Is `tid` the idle thread of an online core?
    pub open spec fn idles_online(self, tid: Tid) -> bool {
        exists|c: int| 0 <= c < self.online && (#[trigger] self.cpus[c]).idle == tid
    }

    /// Is `tid` runnable, not `exclude`, and no online core's idle thread?
    pub open spec fn runs_besides(self, exclude: Tid, tid: Tid) -> bool {
        let t = self.threads[tid];
        &&& self.threads.contains_key(tid)
        &&& t.state == State::Ready || t.state == State::Running
        &&& tid != exclude
        &&& !self.idles_online(tid)
    }
}

/// What stays of a queue when `from` gives up its first thread and `tid` joins `to`.
pub open spec fn moved(a: MView, tid: Tid, from: Option<Place>, to: Option<Place>, p: Place) -> Seq<
    Tid,
> {
    let s = if from == Some(p) {
        a.queue(p).skip(1)
    } else {
        a.queue(p)
    };
    if to == Some(p) {
        s.push(tid)
    } else {
        s
    }
}

/// Who is idle depends on the cores' idle slots alone.
pub proof fn lemma_idle_same(a: MView, b: MView)
    requires
        b.cpus.len() == a.cpus.len(),
        forall|c: int| 0 <= c < a.cpus.len() ==> (#[trigger] b.cpus[c]).idle == a.cpus[c].idle,
    ensures
        forall|t: Tid| #[trigger] b.is_idle(t) <==> a.is_idle(t),
{
    assert forall|t: Tid| #[trigger] b.is_idle(t) <==> a.is_idle(t) by {
        if a.is_idle(t) {
            let c = choose|c: int| 0 <= c < a.cpus.len() && (#[trigger] a.cpus[c]).idle == t;
            assert(b.cpus[c].idle == t);
        }
        if b.is_idle(t) {
            let c = choose|c: int| 0 <= c < b.cpus.len() && (#[trigger] b.cpus[c]).idle == t;
            assert(a.cpus[c].idle == t);
        }
    }
}

/// Moving one thread from the head of a queue (or from no queue) to the tail of a queue (or to no
/// queue), while it changes to `b.threads[tid]`, keeps the queues in order.
pub proof fn lemma_move(
    a: MView,
    b: MView,
    tid: Tid,
    from: Option<Place>,
    to: Option<Place>,
)
    requires
        a.queues_fit(),
        a.queues_apart(),
        a.ready_is_queued(),
        a.threads.contains_key(tid),
        b.threads.contains_key(tid),
        b.threads == a.threads.insert(tid, b.threads[tid]),
        b.cpus.len() == a.cpus.len(),
        forall|c: int| 0 <= c < a.cpus.len() ==> (#[trigger] b.cpus[c]).idle == a.cpus[c].idle,
        match from {
            Some(p) => a.queue(p).len() > 0 && a.queue(p)[0] == tid,
            None => !a.queued(tid),
        },
        forall|p: Place| #[trigger] b.queue(p) == moved(a, tid, from, to, p),
        match to {
            Some(p) => b.fits(p, b.threads[tid]) && !a.is_idle(tid),
            None => b.threads[tid].state == State::Ready ==> a.is_idle(tid),
        },
        forall|p: Place, i: int|
            #![trigger a.queue(p)[i]]
            0 <= i < a.queue(p).len() && a.queue(p)[i] != tid ==> b.fits(
                p,
                a.threads[a.queue(p)[i]],
            ),
    ensures
        b.queues_fit(),
        b.queues_apart(),
        b.ready_is_queued(),
{
    lemma_idle_same(a, b);
    // An entry of a queue of `b` is the new one, or one of `a`'s a place further on.
    let old_index = |p: Place, i: int|
        if from == Some(p) {
            i + 1
        } else {
            i
        };
    assert forall|p: Place, i: int| 0 <= i < b.queue(p).len() implies (to == Some(p) && i
        == b.queue(p).len() - 1 && #[trigger] b.queue(p)[i] == tid) || (0 <= old_index(p, i)
        < a.queue(p).len() && b.queue(p)[i] == a.queue(p)[old_index(p, i)] && b.queue(p)[i]
        != tid) by {
        assert(b.queue(p) == moved(a, tid, from, to, p));
        if !(to == Some(p) && i == b.queue(p).len() - 1) {
            let k = old_index(p, i);
            assert(b.queue(p)[i] == a.queue(p)[k]);
            if a.queue(p)[k] == tid {
                match from {
                    Some(f) => {
                        assert(a.queue(f)[0] == tid);
                        assert(p == f && k == 0);
                    },
                    None => {
                        assert(a.queued(tid));
                    },
                }
            }
        }
    }
    assert forall|p: Place, i: int|
        #![trigger b.queue(p)[i]]
        0 <= i < b.queue(p).len() implies ({
        let t = b.queue(p)[i];
        &&& b.threads.contains_key(t)
        &&& b.fits(p, b.threads[t])
        &&& !b.is_idle(t)
    }) by {
        if b.queue(p)[i] != tid {
            let k = old_index(p, i);
            assert(a.queue(p)[k] == b.queue(p)[i]);
        }
    }
    assert forall|p: Place, i: int, q: Place, j: int|
        #![trigger b.queue(p)[i], b.queue(q)[j]]
        0 <= i < b.queue(p).len() && 0 <= j < b.queue(q).len() && b.queue(p)[i] == b.queue(
            q,
        )[j] implies p == q && i == j by {
        if b.queue(p)[i] != tid {
            let k = old_index(p, i);
            let l = old_index(q, j);
            assert(a.queue(p)[k] == b.queue(p)[i]);
            assert(a.queue(q)[l] == b.queue(q)[j]);
        }
    }
    assert forall|t: Tid| #[trigger]
        b.threads.contains_key(t) && b.threads[t].state == State::Ready implies b.queued(t)
        || b.is_idle(t) by {
        if t == tid {
            match to {
                Some(p) => {
                    let n = b.queue(p).len() - 1;
                    assert(b.queue(p) == moved(a, tid, from, to, p));
                    assert(b.queue(p)[n] == tid);
                },
                None => {},
            }
        } else {
            assert(a.threads.contains_key(t));
            if !a.is_idle(t) {
                assert(a.queued(t));
                let (p, k) = choose|p: Place, k: int|
                    0 <= k < a.queue(p).len() && #[trigger] a.queue(p)[k] == t;
                let i = if from == Some(p) {
                    k - 1
                } else {
                    k
                };
                assert(b.queue(p) == moved(a, tid, from, to, p));
                if from == Some(p) {
                    assert(a.queue(p)[0] == tid);
                    assert(k != 0);
                }
                assert(b.queue(p)[i] == t);
            }
        }
    }
}

} // verus!
