//! Taking down everything that stands on a region, so that its memory can be used again.
use vstd::prelude::*;

use crate::abi;
use crate::cap;
use crate::cap::{Reap, Tid};
use crate::cpu::{MAX_CPUS, NO_TID};
use crate::frames::FRAME_SIZE;
use crate::machine;
use crate::machine::{Machine, Remains};
use crate::model::laws;
use crate::model::reap;
use crate::model::{MView, Place};
use crate::revoke;
use crate::revoke::{Halves, Mapping, Mappings};
use crate::slots::Table;
use crate::thread::{AddressSpace, State, TView};
use crate::untyped;
use crate::untyped::{Run, Untyped};

verus! {

/// Mark every thread in `[base, end)` that could still run. Is there one?
fn condemn(m: &mut Machine, base: u64, end: u64) -> (live: bool)
    requires
        old(m).wf(),
        old(m)@.idles_outside(base as int, end as int),
    ensures
        final(m).wf(),
        old(m).same_room(*final(m)),
        old(m)@.settled(final(m)@),
        live == old(m)@.has_live(base as int, end as int),
        if live {
            final(m)@ == old(m)@.condemned(base as int, end as int)
        } else {
            *final(m) == *old(m)
        },
{
    let names = m.threads.names();
    let ghost a = old(m)@;
    let ghost marked = a.condemned(base as int, end as int);
    let mut live = false;
    let mut i: usize = 0;
    while i < names.len()
        invariant
            i <= names@.len(),
            m.wf(),
            old(m).same_room(*m),
            old(m)@.settled(m@),
            a == old(m)@,
            a.idles_outside(base as int, end as int),
            marked == a.condemned(base as int, end as int),
            names@.no_duplicates(),
            forall|t: Tid| #[trigger] names@.contains(t) <==> a.threads.contains_key(t),
            m@ == (MView { threads: m@.threads, ..a }),
            m@.threads.dom() == a.threads.dom(),
            !live ==> *m == *old(m),
            live ==> a.has_live(base as int, end as int),
            forall|j: int|
                0 <= j < i && !live ==> !(a.threads[#[trigger] names@[j]].resides(
                    base as int,
                    end as int,
                ) && a.threads[names@[j]].is_live()),
            forall|j: int| 0 <= j < i ==> m@.threads[#[trigger] names@[j]] == marked.threads[names@[j]],
            forall|j: int|
                i <= j < names@.len() ==> m@.threads[#[trigger] names@[j]] == a.threads[names@[j]],
        decreases names@.len() - i,
    {
        let tid: Tid = names[i];
        let ghost before = *m;
        assert(names@.contains(tid));
        assert(m@.threads.contains_key(tid));
        let doomed = match m.thread(tid) {
            Some(t) => base <= t.page && t.page < end && (t.state == State::Ready || t.state
                == State::Running || t.state == State::Blocked),
            None => false,
        };
        if doomed {
            proof {
                crate::model::lemma_idle_same(a, m@);
                assert(!m@.is_idle(tid)) by {
                    if m@.is_idle(tid) {
                        assert(a.is_idle(tid));
                    }
                }
                reap::lemma_condemn_one(m@, tid);
            }
            if let Some(t) = m.thread_mut(tid) {
                t.killed = true;
            }
            live = true;
            assert(m@.threads =~= before@.threads.insert(tid, marked.threads[tid]));
        }
        proof {
            assert(m@.threads[tid] == marked.threads[tid]);
            assert(m@ =~= (MView { threads: m@.threads, ..a }));
            assert(m@.threads.dom() =~= a.threads.dom());
        }
        i += 1;
    }
    proof {
        if live {
            assert forall|t: Tid| m@.threads.contains_key(t) implies m@.threads[t]
                == marked.threads[t] by {
                assert(names@.contains(t));
                let j = choose|j: int| 0 <= j < names@.len() && names@[j] == t;
                assert(m@.threads[names@[j]] == marked.threads[names@[j]]);
            }
            assert(m@.threads =~= marked.threads);
            assert(m@ =~= marked);
        } else if a.has_live(base as int, end as int) {
            let t = choose|t: Tid| #[trigger]
                a.threads.contains_key(t) && a.threads[t].resides(base as int, end as int)
                    && a.threads[t].is_live();
            assert(names@.contains(t));
            let j = choose|j: int| 0 <= j < names@.len() && names@[j] == t;
            assert(a.threads[names@[j]].is_live());
        }
    }
    live
}

/// The threads that live in `[base, end)`.
fn resident_threads(m: &Machine, base: u64, end: u64) -> (r: Vec<Tid>)
    requires
        m.wf(),
    ensures
        r@ == reap::residents(
            m@.threads,
            crate::slots::live_names(m.threads.slots@),
            base as int,
            end as int,
        ),
        r@.no_duplicates(),
        forall|t: Tid| #[trigger]
            r@.contains(t) <==> m@.threads.contains_key(t) && m@.threads[t].resides(
                base as int,
                end as int,
            ),
{
    let names = m.threads.names();
    let mut out: Vec<Tid> = Vec::new();
    let mut i: usize = 0;
    while i < names.len()
        invariant
            i <= names@.len(),
            forall|t: Tid| #[trigger] names@.contains(t) <==> m@.threads.contains_key(t),
            out@ == reap::residents(
                m@.threads,
                names@.take(i as int),
                base as int,
                end as int,
            ),
        decreases names@.len() - i,
    {
        let tid: Tid = names[i];
        assert(names@.contains(tid));
        assert(names@.take(i + 1).drop_last() =~= names@.take(i as int));
        if let Some(t) = m.thread(tid) {
            if base <= t.page && t.page < end {
                out.push(tid);
            }
        }
        i += 1;
    }
    proof {
        assert(names@.take(i as int) =~= names@);
        reap::lemma_residents(m@.threads, names@, base as int, end as int);
    }
    out
}

/// The endpoints that live in `[base, end)`.
fn resident_endpoints(m: &Machine, base: u64, end: u64) -> (r: Vec<u64>)
    requires
        m.wf(),
    ensures
        r@ == reap::located(
            m@.ep_pages,
            crate::slots::live_names(m.endpoints.slots@),
            base as int,
            end as int,
        ),
        r@.no_duplicates(),
        forall|e: u64| #[trigger]
            r@.contains(e) <==> m@.endpoints.contains_key(e) && base <= m@.ep_pages[e] < end,
{
    let names = m.endpoints.names();
    let mut out: Vec<u64> = Vec::new();
    let mut i: usize = 0;
    while i < names.len()
        invariant
            i <= names@.len(),
            forall|e: u64| #[trigger] names@.contains(e) <==> m@.endpoints.contains_key(e),
            out@ == reap::located(m@.ep_pages, names@.take(i as int), base as int, end as int),
        decreases names@.len() - i,
    {
        let e: u64 = names[i];
        assert(names@.contains(e));
        assert(names@.take(i + 1).drop_last() =~= names@.take(i as int));
        if let Some(page) = m.endpoint_page(e) {
            if base <= page && page < end {
                out.push(e);
            }
        }
        i += 1;
    }
    proof {
        assert(names@.take(i as int) =~= names@);
        reap::lemma_located(m@.ep_pages, names@, base as int, end as int);
    }
    out
}

/// What is left of each of the threads, in order.
pub open spec fn all_remains(threads: Map<Tid, TView>, tids: Seq<Tid>) -> Seq<Remains> {
    Seq::new(tids.len(), |i: int| machine::remains_of(threads[tids[i]]))
}

/// End each of the threads, none of which can run any more. A corpse parked on its supervisor's
/// endpoint leaves that endpoint first, so nobody takes a message from a thread that is gone.
fn collect(m: &mut Machine, tids: &Vec<Tid>) -> (r: Vec<Remains>)
    requires
        old(m).wf(),
        tids@.no_duplicates(),
        forall|i: int|
            0 <= i < tids@.len() ==> old(m)@.threads.contains_key(#[trigger] tids@[i])
                && !old(m)@.threads[tids@[i]].is_live(),
    ensures
        final(m).wf(),
        old(m).sheds(*final(m)),
        old(m)@.settled(final(m)@),
        final(m)@ == old(m)@.collected(tids@),
        r@ == all_remains(old(m)@.threads, tids@),
        final(m)@.running == old(m)@.running,
        final(m)@.cpus == old(m)@.cpus,
        final(m)@.ep_pages == old(m)@.ep_pages,
        final(m)@.endpoints.dom() == old(m)@.endpoints.dom(),
        forall|t: Tid| #[trigger]
            final(m)@.threads.contains_key(t) <==> old(m)@.threads.contains_key(t)
                && !tids@.contains(t),
        forall|t: Tid| #[trigger]
            final(m)@.threads.contains_key(t) ==> final(m)@.threads[t] == old(m)@.threads[t],
        forall|t: Tid|
            tids@.contains(t) ==> #[trigger] crate::slots::spent(final(m).threads.slots@, t),
{
    let ghost a = old(m)@;
    proof {
        machine::lemma_sheds_nothing(*m, *m);
    }
    let mut out: Vec<Remains> = Vec::new();
    let mut i: usize = 0;
    while i < tids.len()
        invariant
            i <= tids@.len(),
            old(m).wf(),
            m.wf(),
            old(m).sheds(*m),
            old(m)@.settled(m@),
            a == old(m)@,
            tids@.no_duplicates(),
            forall|j: int|
                0 <= j < tids@.len() ==> a.threads.contains_key(#[trigger] tids@[j])
                    && !a.threads[tids@[j]].is_live(),
            m@ == a.collected(tids@.take(i as int)),
            out@ == all_remains(a.threads, tids@.take(i as int)),
            m@.running == a.running,
            m@.cpus == a.cpus,
            m@.ep_pages == a.ep_pages,
            m@.endpoints.dom() == a.endpoints.dom(),
            forall|t: Tid| #[trigger]
                m@.threads.contains_key(t) <==> a.threads.contains_key(t) && !tids@.take(
                    i as int,
                ).contains(t),
            forall|t: Tid| #[trigger] m@.threads.contains_key(t) ==> m@.threads[t] == a.threads[t],
            forall|j: int|
                0 <= j < i ==> crate::slots::spent(m.threads.slots@, #[trigger] tids@[j]),
        decreases tids@.len() - i,
    {
        let tid: Tid = tids[i];
        let ghost before = *m;
        let ghost seen = tids@.take(i as int);
        let ghost more = tids@.take(i + 1);
        proof {
            assert(more.drop_last() =~= seen);
            assert(more.last() == tid);
            if seen.contains(tid) {
                let j = choose|j: int| 0 <= j < seen.len() && seen[j] == tid;
                assert(tids@[j] == tids@[i as int]);
            }
            assert(m@.threads.contains_key(tid));
            reap::lemma_collect_one(m@, tid);
        }
        let parked = match m.thread(tid) {
            Some(t) => if t.state == State::Dead {
                t.fault_ep
            } else {
                None
            },
            None => None,
        };
        if let Some(ep) = parked {
            if let Some(endpoint) = m.endpoint_mut(ep) {
                endpoint.remove_sender(tid);
            }
        }
        let ghost mid = *m;
        assert(mid@ == before@.unparked(tid));
        assert(mid@.endpoints.dom() =~= a.endpoints.dom());
        let left = m.remove_thread(tid);
        out.push(left);
        proof {
            machine::lemma_sheds_nothing(before, mid);
            machine::lemma_sheds_again(before, mid, *m);
            machine::lemma_sheds_again(*old(m), before, *m);
            assert(out@ =~= all_remains(a.threads, more));
            assert forall|t: Tid| more.contains(t) <==> seen.contains(t) || t == tid by {
                if more.contains(t) {
                    let j = choose|j: int| 0 <= j < more.len() && more[j] == t;
                    if j < seen.len() {
                        assert(seen[j] == t);
                    }
                }
                if seen.contains(t) {
                    let j = choose|j: int| 0 <= j < seen.len() && seen[j] == t;
                    assert(more[j] == t);
                }
                assert(more[i as int] == tid);
            }
            assert forall|j: int| 0 <= j < i + 1 implies crate::slots::spent(
                m.threads.slots@,
                #[trigger] tids@[j],
            ) by {
                if j < i {
                    assert(crate::slots::spent(before.threads.slots@, tids@[j]));
                    assert(crate::slots::spent(mid.threads.slots@, tids@[j]));
                }
            }
        }
        i += 1;
    }
    assert(tids@.take(i as int) =~= tids@);
    out
}

/// Call off each of the threads' rendezvous and wake it.
fn call_off(m: &mut Machine, cpu: usize, tids: &Vec<Tid>)
    requires
        old(m).sane(),
        cpu < MAX_CPUS,
    ensures
        super::steady(*old(m), *final(m)),
        final(m)@ == old(m)@.called_off(cpu as int, tids@),
        final(m)@.endpoints == old(m)@.endpoints,
        old(m)@.settled(final(m)@),
        old(m)@.same_idles(final(m)@),
{
    let mut i: usize = 0;
    while i < tids.len()
        invariant
            i <= tids@.len(),
            cpu < MAX_CPUS,
            super::steady(*old(m), *m),
            m@ == old(m)@.called_off(cpu as int, tids@.take(i as int)),
            m@.endpoints == old(m)@.endpoints,
            old(m)@.settled(m@),
            old(m)@.same_idles(m@),
        decreases tids@.len() - i,
    {
        assert(tids@.take(i + 1).drop_last() =~= tids@.take(i as int));
        super::rendezvous::set_ipc_aborted(m, tids[i]);
        super::wake(m, cpu, tids[i]);
        i += 1;
    }
    assert(tids@.take(i as int) =~= tids@);
}

/// End one endpoint. Whoever waited on it wakes with an error.
fn tear_down(m: &mut Machine, cpu: usize, e: u64)
    requires
        old(m).wf(),
        cpu < MAX_CPUS,
        old(m)@.endpoints.contains_key(e),
    ensures
        final(m).wf(),
        old(m).sheds(*final(m)),
        old(m)@.settled(final(m)@),
        crate::slots::spent(final(m).endpoints.slots@, e),
        old(m)@.same_idles(final(m)@),
        final(m)@ == old(m)@.torn_down(cpu as int, e),
        final(m)@.threads.dom() == old(m)@.threads.dom(),
        forall|t: Tid| #[trigger]
            final(m)@.threads.contains_key(t) ==> final(m)@.threads[t].page
                == old(m)@.threads[t].page,
        final(m)@.endpoints == old(m)@.endpoints.remove(e),
        final(m)@.ep_pages == old(m)@.ep_pages.remove(e),
{
    proof {
        reap::lemma_tear_down(old(m)@, cpu as int, e);
    }
    let waiters: Vec<Tid> = match m.endpoint_mut(e) {
        Some(endpoint) => endpoint.drain_waiters(),
        None => Vec::new(),
    };
    call_off(m, cpu, &waiters);
    let ghost mid = *m;
    m.remove_endpoint(e);
    proof {
        assert(mid@.threads.dom() == m@.threads.dom());
        assert(mid@.endpoints.dom() =~= old(m)@.endpoints.dom());
        machine::lemma_sheds_nothing(*old(m), mid);
        machine::lemma_sheds_again(*old(m), mid, *m);
    }
}

/// End each of the endpoints.
fn tear_down_all(m: &mut Machine, cpu: usize, eps: &Vec<u64>)
    requires
        old(m).wf(),
        cpu < MAX_CPUS,
        eps@.no_duplicates(),
        forall|i: int| 0 <= i < eps@.len() ==> old(m)@.endpoints.contains_key(#[trigger] eps@[i]),
    ensures
        final(m).wf(),
        old(m).sheds(*final(m)),
        old(m)@.settled(final(m)@),
        old(m)@.same_idles(final(m)@),
        final(m)@ == old(m)@.torn_down_all(cpu as int, eps@),
        final(m)@.threads.dom() == old(m)@.threads.dom(),
        forall|t: Tid| #[trigger]
            final(m)@.threads.contains_key(t) ==> final(m)@.threads[t].page
                == old(m)@.threads[t].page,
        forall|e: u64| #[trigger]
            final(m)@.endpoints.contains_key(e) <==> old(m)@.endpoints.contains_key(e)
                && !eps@.contains(e),
        forall|e: u64|
            final(m)@.endpoints.contains_key(e) ==> #[trigger] final(m)@.ep_pages[e]
                == old(m)@.ep_pages[e],
        forall|e: u64|
            eps@.contains(e) ==> #[trigger] crate::slots::spent(final(m).endpoints.slots@, e),
{
    let ghost a = old(m)@;
    proof {
        machine::lemma_sheds_nothing(*m, *m);
    }
    let mut i: usize = 0;
    while i < eps.len()
        invariant
            i <= eps@.len(),
            cpu < MAX_CPUS,
            old(m).wf(),
            m.wf(),
            old(m).sheds(*m),
            old(m)@.settled(m@),
            a == old(m)@,
            eps@.no_duplicates(),
            forall|j: int| 0 <= j < eps@.len() ==> a.endpoints.contains_key(#[trigger] eps@[j]),
            a.same_idles(m@),
            m@ == a.torn_down_all(cpu as int, eps@.take(i as int)),
            m@.threads.dom() == a.threads.dom(),
            forall|t: Tid| #[trigger]
                m@.threads.contains_key(t) ==> m@.threads[t].page == a.threads[t].page,
            forall|e: u64| #[trigger]
                m@.endpoints.contains_key(e) <==> a.endpoints.contains_key(e) && !eps@.take(
                    i as int,
                ).contains(e),
            forall|e: u64|
                m@.endpoints.contains_key(e) ==> #[trigger] m@.ep_pages[e] == a.ep_pages[e],
            forall|j: int|
                0 <= j < i ==> crate::slots::spent(m.endpoints.slots@, #[trigger] eps@[j]),
        decreases eps@.len() - i,
    {
        let e: u64 = eps[i];
        let ghost before = *m;
        let ghost seen = eps@.take(i as int);
        let ghost more = eps@.take(i + 1);
        proof {
            assert(more.drop_last() =~= seen);
            assert(more.last() == e);
            if seen.contains(e) {
                let j = choose|j: int| 0 <= j < seen.len() && seen[j] == e;
                assert(eps@[j] == eps@[i as int]);
            }
            assert(m@.endpoints.contains_key(e));
        }
        tear_down(m, cpu, e);
        proof {
            machine::lemma_sheds_again(*old(m), before, *m);
            assert forall|x: u64| more.contains(x) <==> seen.contains(x) || x == e by {
                if more.contains(x) {
                    let j = choose|j: int| 0 <= j < more.len() && more[j] == x;
                    if j < seen.len() {
                        assert(seen[j] == x);
                    }
                }
                if seen.contains(x) {
                    let j = choose|j: int| 0 <= j < seen.len() && seen[j] == x;
                    assert(more[j] == x);
                }
                assert(more[i as int] == e);
            }
            assert forall|j: int| 0 <= j < i + 1 implies crate::slots::spent(
                m.endpoints.slots@,
                #[trigger] eps@[j],
            ) by {
                if j < i {
                    assert(crate::slots::spent(before.endpoints.slots@, eps@[j]));
                }
            }
        }
        i += 1;
    }
    assert(eps@.take(i as int) =~= eps@);
}

/// The names in `m` of the threads that live in `[base, end)`.
pub open spec fn threads_in(m: Machine, base: int, end: int) -> Seq<Tid> {
    reap::residents(m@.threads, crate::slots::live_names(m.threads.slots@), base, end)
}

/// The names in `m` of the endpoints that live in `[base, end)`.
pub open spec fn endpoints_in(m: Machine, base: int, end: int) -> Seq<u64> {
    reap::located(m@.ep_pages, crate::slots::live_names(m.endpoints.slots@), base, end)
}

/// Nothing lives in `[base, end)`.
pub open spec fn cleared(m: MView, base: int, end: int) -> bool {
    &&& forall|t: Tid| #[trigger] m.threads.contains_key(t) ==> !m.threads[t].resides(base, end)
    &&& forall|e: u64| #[trigger]
        m.endpoints.contains_key(e) ==> !(base <= m.ep_pages[e] < end)
}

/// The threads and the endpoints that lived in `[base, end)` are gone, their names for good, and all
/// others are there.
pub open spec fn residents_went(m: Machine, m2: Machine, base: int, end: int) -> bool {
    &&& forall|t: Tid| #[trigger]
        m2@.threads.contains_key(t) <==> m@.threads.contains_key(t) && !m@.threads[t].resides(
            base,
            end,
        )
    &&& forall|t: Tid|
        m@.threads.contains_key(t) && m@.threads[t].resides(base, end)
            ==> #[trigger] crate::slots::spent(m2.threads.slots@, t)
    &&& forall|e: u64| #[trigger]
        m2@.endpoints.contains_key(e) <==> m@.endpoints.contains_key(e) && !(base <= m@.ep_pages[e]
            < end)
    &&& forall|e: u64|
        m@.endpoints.contains_key(e) && base <= m@.ep_pages[e] < end
            ==> #[trigger] crate::slots::spent(m2.endpoints.slots@, e)
}

/// **Take down every thread and endpoint that lives in `[base, end)`**, and hand back what is left
/// of the threads. While one of them can still run nothing is taken down; but each of those is
/// marked, and goes at the next scheduling decision about it, so an owner that tries again succeeds
/// once they are gone.
fn reap_region_objects(m: &mut Machine, cpu: usize, base: u64, end: u64) -> (r: Result<
    Vec<Remains>,
    (),
>)
    requires
        old(m).wf(),
        cpu < MAX_CPUS,
        old(m)@.idles_outside(base as int, end as int),
    ensures
        final(m).wf(),
        old(m).sheds(*final(m)),
        old(m)@.settled(final(m)@),
        old(m)@.same_idles(final(m)@),
        ({
            let (b, e) = (base as int, end as int);
            if !old(m).running {
                r is Err && *final(m) == *old(m)
            } else if old(m)@.has_live(b, e) {
                r is Err && final(m)@ == old(m)@.condemned(b, e)
            } else {
                let tids = threads_in(*old(m), b, e);
                &&& r matches Ok(left) && left@ == all_remains(old(m)@.threads, tids)
                &&& final(m)@ == old(m)@.reaped(cpu as int, tids, endpoints_in(*old(m), b, e))
                &&& cleared(final(m)@, b, e)
                &&& residents_went(*old(m), *final(m), b, e)
            }
        }),
{
    proof {
        machine::lemma_sheds_nothing(*m, *m);
    }
    if !m.running {
        return Err(());
    }
    if condemn(m, base, end) {
        proof {
            assert(m@.threads.dom() =~= old(m)@.threads.dom());
            machine::lemma_sheds_nothing(*old(m), *m);
        }
        return Err(());
    }
    let tids = resident_threads(m, base, end);
    let eps = resident_endpoints(m, base, end);
    proof {
        assert forall|i: int| 0 <= i < tids@.len() implies old(m)@.threads.contains_key(
            #[trigger] tids@[i],
        ) && !old(m)@.threads[tids@[i]].is_live() by {
            assert(tids@.contains(tids@[i]));
        }
        assert forall|i: int| 0 <= i < eps@.len() implies old(m)@.endpoints.contains_key(
            #[trigger] eps@[i],
        ) by {
            assert(eps@.contains(eps@[i]));
        }
    }
    let left = collect(m, &tids);
    let ghost mid = *m;
    tear_down_all(m, cpu, &eps);
    proof {
        machine::lemma_sheds_again(*old(m), mid, *m);
        assert forall|t: Tid| #[trigger] m@.threads.contains_key(t) implies !m@.threads[t].resides(
            base as int,
            end as int,
        ) by {
            assert(mid@.threads.contains_key(t));
            assert(!tids@.contains(t));
        }
        assert forall|t: Tid| #[trigger] m@.threads.contains_key(t) <==> old(
            m,
        )@.threads.contains_key(t) && !old(m)@.threads[t].resides(base as int, end as int) by {
            assert(m@.threads.contains_key(t) <==> mid@.threads.contains_key(t));
            assert(tids@.contains(t) <==> old(m)@.threads.contains_key(t) && old(
                m,
            )@.threads[t].resides(base as int, end as int));
        }
        assert forall|t: Tid|
            old(m)@.threads.contains_key(t) && old(m)@.threads[t].resides(
                base as int,
                end as int,
            ) implies #[trigger] crate::slots::spent(m.threads.slots@, t) by {
            assert(tids@.contains(t));
            assert(crate::slots::spent(mid.threads.slots@, t));
        }
        assert forall|e: u64| #[trigger] m@.endpoints.contains_key(e) <==> old(
            m,
        )@.endpoints.contains_key(e) && !(base <= old(m)@.ep_pages[e] < end) by {
            assert(mid@.endpoints.contains_key(e) <==> old(m)@.endpoints.contains_key(e));
            assert(eps@.contains(e) <==> old(m)@.endpoints.contains_key(e) && base <= old(
                m,
            )@.ep_pages[e] < end);
        }
        assert forall|e: u64|
            old(m)@.endpoints.contains_key(e) && base <= old(m)@.ep_pages[e]
                < end implies #[trigger] crate::slots::spent(m.endpoints.slots@, e) by {
            assert(eps@.contains(e));
        }
    }
    Ok(left)
}

/// Where each address space's root table lies.
pub open spec fn roots(spaces: Map<u64, AddressSpace>) -> Map<u64, u64> {
    Map::new(|n: u64| spaces.contains_key(n), |n: u64| spaces[n].root)
}

/// The address spaces without those whose root table lies in `[base, end)`.
pub open spec fn rooted_outside(spaces: Map<u64, AddressSpace>, base: int, end: int) -> Map<
    u64,
    AddressSpace,
> {
    Map::new(
        |n: u64| spaces.contains_key(n) && !(base <= spaces[n].root < end),
        |n: u64| spaces[n],
    )
}

/// The address spaces of `table` whose root table lies in `[base, end)`, in the order of their
/// names.
pub open spec fn rooted_in(table: Table<AddressSpace>, base: int, end: int) -> Seq<AddressSpace> {
    let names = reap::located(roots(table@), crate::slots::live_names(table.slots@), base, end);
    Seq::new(names.len(), |i: int| table@[names[i]])
}

/// Take the address spaces that no thread has been given, and whose root table lies in
/// `[base, end)`, out of the registry.
pub fn reap_aspaces_in_region(spaces: &mut Table<AddressSpace>, base: u64, end: u64) -> (r: Vec<
    AddressSpace,
>)
    requires
        old(spaces).wf(),
    ensures
        final(spaces).wf(),
        old(spaces).sheds(*final(spaces)),
        final(spaces)@ == rooted_outside(old(spaces)@, base as int, end as int),
        r@ == rooted_in(*old(spaces), base as int, end as int),
{
    let names = spaces.names();
    let ghost a = old(spaces)@;
    assert forall|j: int| 0 <= j < names@.len() implies a.contains_key(#[trigger] names@[j]) by {
        assert(names@.contains(names@[j]));
    }
    let mut out: Vec<AddressSpace> = Vec::new();
    proof {
        crate::slots::lemma_sheds_nothing(*spaces, *spaces);
    }
    let mut i: usize = 0;
    while i < names.len()
        invariant
            i <= names@.len(),
            a == old(spaces)@,
            old(spaces).wf(),
            spaces.wf(),
            old(spaces).sheds(*spaces),
            names@.no_duplicates(),
            forall|n: u64| #[trigger] names@.contains(n) <==> a.contains_key(n),
            forall|j: int|
                i <= j < names@.len() ==> spaces@.contains_key(#[trigger] names@[j])
                    && spaces@[names@[j]] == a[names@[j]],
            forall|j: int|
                0 <= j < i ==> (spaces@.contains_key(#[trigger] names@[j]) <==> !(base
                    <= a[names@[j]].root < end)),
            forall|n: u64| #[trigger]
                spaces@.contains_key(n) ==> a.contains_key(n) && spaces@[n] == a[n],
            ({
                let p = reap::located(roots(a), names@.take(i as int), base as int, end as int);
                &&& out@.len() == p.len()
                &&& forall|k: int| 0 <= k < p.len() ==> out@[k] == a[#[trigger] p[k]]
            }),
        decreases names@.len() - i,
    {
        let n: u64 = names[i];
        assert(names@.contains(n));
        assert(names@.take(i + 1).drop_last() =~= names@.take(i as int));
        let ghost before = spaces@;
        let ghost had = *spaces;
        let inside = match spaces.get(n) {
            Some(space) => base <= space.root && space.root < end,
            None => false,
        };
        if inside {
            if let Some(space) = spaces.remove(n) {
                out.push(space);
            }
            proof {
                crate::slots::lemma_sheds_again(*old(spaces), had, *spaces);
            }
            assert forall|j: int| i + 1 <= j < names@.len() implies spaces@.contains_key(
                #[trigger] names@[j],
            ) && spaces@[names@[j]] == a[names@[j]] by {
                assert(names@[j] != n);
                assert(before.contains_key(names@[j]));
            }
            assert forall|j: int| 0 <= j < i + 1 implies (spaces@.contains_key(
                #[trigger] names@[j],
            ) <==> !(base <= a[names@[j]].root < end)) by {
                if j < i {
                    assert(names@[j] != n);
                    assert(before.contains_key(names@[j]) <==> spaces@.contains_key(names@[j]));
                }
            }
        }
        i += 1;
    }
    proof {
        assert(names@.take(i as int) =~= names@);
        let kept = rooted_outside(a, base as int, end as int);
        assert forall|n: u64| spaces@.contains_key(n) <==> kept.contains_key(n) by {
            if a.contains_key(n) {
                assert(names@.contains(n));
                let j = choose|j: int| 0 <= j < names@.len() && names@[j] == n;
                assert(spaces@.contains_key(names@[j]) <==> !(base <= a[names@[j]].root < end));
            }
        }
        assert(spaces@.dom() =~= kept.dom());
        assert forall|n: u64| #[trigger] spaces@.contains_key(n) implies spaces@[n] == kept[n] by {
            assert(kept.dom().contains(n));
        }
        assert(spaces@ =~= kept);
        assert(out@ =~= rooted_in(*old(spaces), base as int, end as int));
    }
    out
}

/// What a region gives back: the threads that are gone, the address spaces that are gone, the
/// mappings that are gone, whose translations are to be forgotten, and the memory itself.
pub struct Reclaimed {
    pub threads: Vec<Remains>,
    pub spaces: Vec<AddressSpace>,
    pub unmapped: Vec<Mapping>,
    /// Address and size, for the allocator. Nothing if the region was split off another, which has
    /// the pages back then.
    pub memory: Option<(u64, u64)>,
}

/// No capability names a page of `[base, end)`, held or on its way, and no mapping of one is on
/// record.
pub open spec fn forgotten(m: MView, db: Seq<Mapping>, base: int, end: int) -> bool {
    &&& forall|t: Tid, i: int|
        #![trigger m.threads[t].cspace[i]]
        m.threads.contains_key(t) && 0 <= i < m.threads[t].cspace.len() ==> !cap::names_page(
            m.threads[t].cspace[i],
            base,
            end,
        )
    &&& forall|t: Tid| #[trigger]
        m.threads.contains_key(t) ==> !cap::names_page(m.threads[t].outgoing_cap, base, end)
    &&& forall|e: Mapping| #[trigger] db.contains(e) ==> !(base <= e.phys < end)
}

/// **Every thread that was built out of a region lives in it**, or the region is gone and its name
/// spent. Every operation keeps this.
pub open spec fn housed(m: MView, u: Untyped) -> bool {
    forall|t: Tid| #[trigger]
        m.threads.contains_key(t) ==> match m.threads[t].tcb_region {
            Some(r) => if u@.contains_key(r) {
                m.threads[t].resides(u@[r].base as int, u@[r].end())
            } else {
                crate::slots::spent(u.regions.slots@, r)
            },
            None => true,
        }
}

/// **Nothing moves a thread out of its region.** Whatever the machine does to its threads, and
/// whatever becomes of the regions, every thread that was built out of a region still lives in it,
/// as long as there is a region.
pub proof fn law_everybody_stays_housed(m: MView, u: Untyped, m2: MView, u2: Untyped)
    requires
        housed(m, u),
        m.settled(m2),
        u.stays(u2),
    ensures
        housed(m2, u2),
{
    assert forall|t: Tid| #[trigger] m2.threads.contains_key(t) implies match m2.threads[t].tcb_region {
        Some(r) => if u2@.contains_key(r) {
            m2.threads[t].resides(u2@[r].base as int, u2@[r].end())
        } else {
            crate::slots::spent(u2.regions.slots@, r)
        },
        None => true,
    } by {
        if let Some(r) = m2.threads[t].tcb_region {
            assert(m.threads.contains_key(t));
            if u@.contains_key(r) {
            } else {
                assert(crate::slots::spent(u2.regions.slots@, r));
                crate::slots::law_spent_names_do_not_resolve(u2.regions, r);
            }
        }
    }
}

/// The idle threads, being the kernel's own, live in nobody's region.
pub open spec fn idles_apart(m: MView, u: Map<u64, Run>) -> bool {
    forall|r: u64| #[trigger]
        u.contains_key(r) ==> m.idles_outside(u[r].base as int, u[r].end())
}

/// **The idle threads stay out of everybody's region**, as long as the same threads idle and no new
/// region is made where one of them lives.
pub proof fn law_idles_stay_apart(m: MView, u: Untyped, m2: MView, u2: Untyped)
    requires
        m.inv(),
        m2.inv(),
        idles_apart(m, u@),
        m.same_idles(m2),
        m.settled(m2),
        u.stays(u2),
        forall|r: u64| #[trigger] u2@.contains_key(r) ==> u@.contains_key(r),
    ensures
        idles_apart(m2, u2@),
{
    reveal(MView::inv);
    crate::model::lemma_idle_same(m, m2);
    assert forall|r: u64| #[trigger] u2@.contains_key(r) implies m2.idles_outside(
        u2@[r].base as int,
        u2@[r].end(),
    ) by {
        assert(u@.contains_key(r));
        assert forall|t: Tid| #[trigger] m2.is_idle(t) && t != NO_TID implies !m2.threads[t].resides(
            u2@[r].base as int,
            u2@[r].end(),
        ) by {
            assert(m.is_idle(t));
            let c = choose|c: int| 0 <= c < m.cpus.len() && (#[trigger] m.cpus[c]).idle == t;
            assert(m2.cpus[c].idle == t);
            assert(m.threads.contains_key(t));
            assert(m2.threads.contains_key(t));
            assert(m.idles_outside(u@[r].base as int, u@[r].end()));
        }
    }
}

/// What reclaiming `region` does, once nothing is in the way: everything on it is gone, nobody names
/// or maps a page of it, the name is spent, and the memory is handed back.
pub open spec fn reclaimed(
    c: int,
    region: u64,
    m: Machine,
    u: Untyped,
    spaces: Table<AddressSpace>,
    db: Seq<Mapping>,
    m2: Machine,
    u2: Untyped,
    spaces2: Table<AddressSpace>,
    db2: Seq<Mapping>,
    r: Reclaimed,
) -> bool {
    let run = u@[region];
    let (base, end) = (run.base as int, run.end());
    let tids = threads_in(m, base, end);
    let pages = revoke::mapped_pages(db, base, end);
    &&& m2@ == m@.reaped(c, tids, endpoints_in(m, base, end)).without_frames(base, end)
    &&& cleared(m2@, base, end)
    &&& residents_went(m, m2, base, end)
    &&& forgotten(m2@, db2, base, end)
    &&& db2 == revoke::off_pages(db, pages)
    &&& r.unmapped@ == revoke::of_pages(db, pages)
    &&& r.threads@ == all_remains(m@.threads, tids)
    &&& spaces2@ == rooted_outside(spaces@, base, end)
    &&& r.spaces@ == rooted_in(spaces, base, end)
    &&& u2@ == untyped::after_destroy(
        u@.insert(region, Run { pinned: false, ..run }),
        region,
    )
    &&& crate::slots::spent(u2.regions.slots@, region)
    &&& u.regions.sheds(u2.regions)
    &&& spaces.sheds(spaces2)
    &&& r.memory == (if run.parent is Some {
        None
    } else {
        Some((run.base, (run.pages * FRAME_SIZE) as u64))
    })
}

/// Once the capabilities and the records of a region are gone, nobody names or maps a page of it.
proof fn lemma_forgotten(m: MView, db: Seq<Mapping>, base: int, end: int)
    ensures
        forgotten(
            m.without_frames(base, end),
            revoke::off_pages(db, revoke::mapped_pages(db, base, end)),
            base,
            end,
        ),
{
    let after = revoke::off_pages(db, revoke::mapped_pages(db, base, end));
    assert forall|e: Mapping| #[trigger] after.contains(e) implies !(base <= e.phys < end) by {
        revoke::law_no_mapping_survives(db, base, end, e);
    }
}

/// **A reclaimed region strands nobody.** Whoever is blocked on any endpoint of the region is awake
/// once the region is reclaimed, with the rendezvous marked as called off, and still marked when a
/// core goes to it; and whoever uses the name of such an endpoint afterwards is marked at once,
/// receives zeroes, and does not block.
pub proof fn law_a_reclaimed_region_strands_nobody(
    m: Machine,
    c: int,
    d: int,
    base: int,
    end: int,
    ep: u64,
    tid: Tid,
    msg: Seq<u64>,
)
    requires
        m.wf(),
        0 <= c < MAX_CPUS,
        0 <= d < MAX_CPUS,
        !m@.has_live(base, end),
        m@.endpoints.contains_key(ep),
        base <= m@.ep_pages[ep] < end,
        m@.endpoints[ep].waiters().contains(tid),
        m@.threads[tid].state == State::Blocked,
    ensures
        ({
            let b = m@.reaped(
                c,
                threads_in(m, base, end),
                endpoints_in(m, base, end),
            ).without_frames(base, end);
            let me = b.current(d);
            &&& b.awake(tid)
            &&& b.threads[tid].ipc_aborted
            &&& b.can_schedule(d) ==> b.scheduled(d).threads[tid].ipc_aborted
            &&& !b.endpoints.contains_key(ep)
            &&& !b.send_blocks(ep)
            &&& b.sent(d, ep, msg) == b.aborted(me)
            &&& b.received(d, ep) == b.aborted(me)
            &&& b.recv_result(ep) == Some(crate::thread::no_words())
            &&& b.received_cap(d, ep) == b.aborted(me)
            &&& b.called(d, ep, msg) == b.aborted(me)
            &&& b.threads.contains_key(me) ==> b.aborted(me).threads[me].ipc_aborted
        }),
{
    let a = m@;
    let tids = threads_in(m, base, end);
    let eps = endpoints_in(m, base, end);
    crate::slots::lemma_live_names(m.threads.slots@);
    crate::slots::lemma_live_names(m.endpoints.slots@);
    reap::lemma_residents(a.threads, crate::slots::live_names(m.threads.slots@), base, end);
    reap::lemma_located(a.ep_pages, crate::slots::live_names(m.endpoints.slots@), base, end);
    assert forall|i: int| 0 <= i < tids.len() implies a.threads.contains_key(#[trigger] tids[i])
        && !a.threads[tids[i]].is_live() by {
        assert(tids.contains(tids[i]));
        assert(a.threads.contains_key(tids[i]));
    }
    assert forall|i: int| 0 <= i < eps.len() implies a.endpoints.contains_key(#[trigger] eps[i]) by {
        assert(eps.contains(eps[i]));
    }
    laws::lemma_waits_once(a, ep, ep, tid);
    assert(!tids.contains(tid));
    assert(eps.contains(ep));
    laws::lemma_collected_stays(a, tids, ep, tid);
    let mid = a.collected(tids);
    assert forall|i: int| 0 <= i < eps.len() implies mid.endpoints.contains_key(
        #[trigger] eps[i],
    ) by {
        assert(a.endpoints.dom().contains(eps[i]));
    }
    laws::lemma_torn_down_all_stays(mid, c, eps, ep, tid);
    let torn = mid.torn_down_all(c, eps);
    let b = torn.without_frames(base, end);
    assert(b.threads[tid].state == torn.threads[tid].state);
    assert(b.queued(tid) <==> torn.queued(tid)) by {
        assert forall|p: Place| #[trigger] b.queue(p) == torn.queue(p) by {}
        if torn.queued(tid) {
            let (p, i) = choose|p: Place, i: int|
                0 <= i < torn.queue(p).len() && #[trigger] torn.queue(p)[i] == tid;
            assert(b.queue(p)[i] == tid);
        }
        if b.queued(tid) {
            let (p, i) = choose|p: Place, i: int|
                0 <= i < b.queue(p).len() && #[trigger] b.queue(p)[i] == tid;
            assert(torn.queue(p)[i] == tid);
        }
    }
}

/// Why the corpse `tid` cannot be collected on behalf of `ep`, if it cannot.
pub open spec fn reap_refusal(m: MView, u: Map<u64, Run>, ep: u64, tid: Tid) -> Option<abi::Error> {
    let t = m.threads[tid];
    let region = t.tcb_region->0;
    let run = u[region];
    if !m.threads.contains_key(tid) || t.fault_ep != Some(ep) {
        Some(abi::Error::NotSupervised)
    } else if t.state != State::Dead {
        Some(abi::Error::StillAlive)
    } else if t.tcb_region is None {
        Some(abi::Error::NotSupervised)
    } else if !u.contains_key(region) || untyped::has_child(u, region) || m.has_live(
        run.base as int,
        run.end(),
    ) {
        Some(abi::Error::NotPermitted)
    } else {
        None
    }
}

/// **A corpse is collected once.** Once its name is spent, no supervisor collects it again, whatever
/// happens in between.
pub proof fn law_a_corpse_is_collected_once(
    m: Machine,
    later: Machine,
    u: Map<u64, Run>,
    ep: u64,
    tid: Tid,
)
    requires
        crate::slots::spent(m.threads.slots@, tid),
        m.keeps(later),
    ensures
        reap_refusal(later@, u, ep, tid) == Some(abi::Error::NotSupervised),
{
    crate::slots::law_spent_names_do_not_resolve(later.threads, tid);
}

/// **Reclaim a region and everything built out of it.** Refused, with nothing changed, while a
/// region split off it exists; refused, with the runaways marked, while one of its threads can
/// still run. Once nothing stands on the region, its pages are taken back from everybody who names
/// or maps one, and only then does the memory go back.
pub fn reclaim_region(
    m: &mut Machine,
    u: &mut Untyped,
    spaces: &mut Table<AddressSpace>,
    db: &mut Mappings,
    halves: &mut Halves,
    cpu: usize,
    region: u64,
) -> (r: Result<Reclaimed, ()>)
    requires
        old(m).wf(),
        old(u).wf(),
        old(spaces).wf(),
        old(halves).wf(),
        cpu < MAX_CPUS,
        idles_apart(old(m)@, old(u)@),
    ensures
        final(m).wf(),
        final(u).wf(),
        final(spaces).wf(),
        final(halves).wf(),
        idles_apart(final(m)@, final(u)@),
        old(m).sheds(*final(m)),
        old(m)@.settled(final(m)@),
        old(u).stays(*final(u)),
        r is Err ==> *final(u) == *old(u) && *final(spaces) == *old(spaces) && *final(db) == *old(
            db,
        ) && *final(halves) == *old(halves),
        r matches Ok(got) ==> revoke::unmapped(
            old(halves).halves@,
            final(halves).halves@,
            got.unmapped@,
        ),
        ({
            let run = old(u)@[region];
            let (base, end) = (run.base as int, run.end());
            if !old(m).running || !old(u)@.contains_key(region) || untyped::has_child(
                old(u)@,
                region,
            ) {
                r is Err && *final(m) == *old(m)
            } else if old(m)@.has_live(base, end) {
                r is Err && final(m)@ == old(m)@.condemned(base, end)
            } else {
                r matches Ok(got) && reclaimed(
                    cpu as int,
                    region,
                    *old(m),
                    *old(u),
                    *old(spaces),
                    old(db)@,
                    *final(m),
                    *final(u),
                    *final(spaces),
                    final(db)@,
                    got,
                )
            }
        }),
{
    proof {
        machine::lemma_sheds_nothing(*m, *m);
    }
    if u.has_children(region) {
        return Err(());
    }
    let (base, size) = match u.region_bounds(region) {
        Some(b) => b,
        None => {
            return Err(());
        },
    };
    assert(old(u)@[region].ok());
    assert(old(m)@.idles_outside(old(u)@[region].base as int, old(u)@[region].end()));
    let threads: Vec<Remains> = match reap_region_objects(m, cpu, base, base + size) {
        Ok(threads) => threads,
        Err(_) => {
            proof {
                law_idles_stay_apart(old(m)@, *old(u), m@, *u);
            }
            return Err(());
        },
    };
    let ghost mid = *m;
    let ghost reaped = m@;
    let gone: Vec<AddressSpace> = reap_aspaces_in_region(spaces, base, base + size);
    let unmapped: Vec<Mapping> = revoke::take_back(m, db, halves, base, size);
    u.unpin(region);
    let ghost pinless = *u;
    let memory = match u.destroy(region) {
        Ok(memory) => memory,
        Err(_) => None,
    };
    proof {
        let v = old(u)@.insert(region, Run { pinned: false, ..old(u)@[region] });
        assert(!untyped::has_child(v, region)) by {
            assert forall|r: u64| #[trigger] v.contains_key(r) implies v[r].parent != Some(
                region,
            ) by {
                assert(old(u)@.contains_key(r));
            }
        }
        lemma_forgotten(reaped, old(db)@, base as int, base + size);
        assert(m@.threads.dom() =~= mid@.threads.dom());
        machine::lemma_sheds_nothing(mid, *m);
        machine::lemma_sheds_again(*old(m), mid, *m);
        assert forall|t: Tid| #[trigger] m@.threads.contains_key(t) implies !m@.threads[t].resides(
            base as int,
            base + size,
        ) by {
            assert(reaped.threads.contains_key(t));
        }
        assert(cleared(m@, base as int, base + size));
        assert forall|t: Tid|
            old(m)@.threads.contains_key(t) && old(m)@.threads[t].resides(
                base as int,
                base + size,
            ) implies #[trigger] crate::slots::spent(m.threads.slots@, t) by {
            assert(crate::slots::spent(mid.threads.slots@, t));
        }
        assert forall|e: u64|
            old(m)@.endpoints.contains_key(e) && base <= old(m)@.ep_pages[e] < base
                + size implies #[trigger] crate::slots::spent(m.endpoints.slots@, e) by {
            assert(crate::slots::spent(mid.endpoints.slots@, e));
        }
        assert(pinless@.dom() =~= old(u)@.dom());
        crate::slots::lemma_sheds_nothing(old(u).regions, pinless.regions);
        crate::slots::lemma_sheds_again(old(u).regions, pinless.regions, u.regions);
        law_idles_stay_apart(old(m)@, *old(u), m@, *u);
    }
    Ok(Reclaimed { threads, spaces: gone, unmapped, memory })
}

/// **Collect a corpse on behalf of the endpoint that supervises it.** Whoever holds the endpoint a
/// thread's death is reported to may give that thread's whole region back to whoever paid for it,
/// and nobody else may. A stale name looks like a thread that is not supervised here, and so does a
/// corpse that was collected: its name resolves no more.
pub fn reap_supervised(
    m: &mut Machine,
    u: &mut Untyped,
    spaces: &mut Table<AddressSpace>,
    db: &mut Mappings,
    halves: &mut Halves,
    cpu: usize,
    ep: u64,
    tid: Tid,
) -> (r: Result<Reclaimed, abi::Error>)
    requires
        old(m).wf(),
        old(u).wf(),
        old(spaces).wf(),
        old(halves).wf(),
        cpu < MAX_CPUS,
        idles_apart(old(m)@, old(u)@),
        housed(old(m)@, *old(u)),
    ensures
        final(m).wf(),
        final(u).wf(),
        final(spaces).wf(),
        final(halves).wf(),
        idles_apart(final(m)@, final(u)@),
        housed(final(m)@, *final(u)),
        old(m).sheds(*final(m)),
        old(m)@.settled(final(m)@),
        old(u).stays(*final(u)),
        r is Err ==> *final(u) == *old(u) && *final(spaces) == *old(spaces) && *final(db) == *old(
            db,
        ) && *final(halves) == *old(halves),
        r matches Ok(got) ==> revoke::unmapped(
            old(halves).halves@,
            final(halves).halves@,
            got.unmapped@,
        ),
        match r {
            Ok(_) => reap_refusal(old(m)@, old(u)@, ep, tid) is None,
            Err(e) => reap_refusal(old(m)@, old(u)@, ep, tid) == Some(e),
        },
        r is Ok ==> !final(m)@.threads.contains_key(tid) && crate::slots::spent(
            final(m).threads.slots@,
            tid,
        ),
        ({
            let t = old(m)@.threads[tid];
            let region = t.tcb_region->0;
            let run = old(u)@[region];
            let (base, end) = (run.base as int, run.end());
            if !old(m)@.threads.contains_key(tid) || t.fault_ep != Some(ep) {
                r matches Err(e) && e == abi::Error::NotSupervised && *final(m) == *old(m)
            } else if t.state != State::Dead {
                r matches Err(e) && e == abi::Error::StillAlive && *final(m) == *old(m)
            } else if t.tcb_region is None {
                r matches Err(e) && e == abi::Error::NotSupervised && *final(m) == *old(m)
            } else if !old(u)@.contains_key(region) || untyped::has_child(old(u)@, region) {
                r matches Err(e) && e == abi::Error::NotPermitted && *final(m) == *old(m)
            } else if old(m)@.has_live(base, end) {
                &&& r matches Err(e) && e == abi::Error::NotPermitted
                &&& final(m)@ == old(m)@.condemned(base, end)
            } else {
                r matches Ok(got) && reclaimed(
                    cpu as int,
                    region,
                    *old(m),
                    *old(u),
                    *old(spaces),
                    old(db)@,
                    *final(m),
                    *final(u),
                    *final(spaces),
                    final(db)@,
                    got,
                )
            }
        }),
{
    proof {
        reap::lemma_running(old(m)@, tid);
        machine::lemma_sheds_nothing(*m, *m);
    }
    let (fault_ep, dead, tcb_region) = match m.thread(tid) {
        Some(t) => (t.fault_ep, t.state == State::Dead, t.tcb_region),
        None => (None, false, None),
    };
    match cap::reap_decision(fault_ep, ep, dead) {
        Reap::NotSupervised => {
            return Err(abi::Error::NotSupervised);
        },
        Reap::StillAlive => {
            return Err(abi::Error::StillAlive);
        },
        Reap::Permitted => {},
    }
    let region: u64 = match tcb_region {
        Some(region) => region,
        None => {
            return Err(abi::Error::NotSupervised);
        },
    };
    let r = match reclaim_region(m, u, spaces, db, halves, cpu, region) {
        Ok(got) => Ok(got),
        Err(_) => Err(abi::Error::NotPermitted),
    };
    proof {
        law_everybody_stays_housed(old(m)@, *old(u), m@, *u);
        if r is Ok {
            let run = old(u)@[region];
            assert(old(m)@.threads[tid].resides(run.base as int, run.end()));
        }
    }
    r
}

/// **When a corpse is collected, and what its supervisor is told if it is not.** It has to be there, to
/// report to this supervisor, to be dead, and to have been built out of a region; and that region has
/// to exist, with nothing split off it and nobody in it who can still run.
pub proof fn law_when_a_corpse_is_collected(m: MView, u: Map<u64, Run>, ep: u64, tid: Tid)
    ensures
        ({
            let r = reap_refusal(m, u, ep, tid);
            let t = m.threads[tid];
            let mine = m.threads.contains_key(tid) && t.fault_ep == Some(ep);
            let free = t.tcb_region is Some && u.contains_key(t.tcb_region->0) && (forall|k: u64| #[trigger]
                u.contains_key(k) ==> u[k].parent != t.tcb_region) && (forall|x: Tid| #[trigger]
                m.threads.contains_key(x) && u[t.tcb_region->0].base <= m.threads[x].page
                    < u[t.tcb_region->0].base + u[t.tcb_region->0].pages * 4096 ==> m.threads[x].state
                    == State::Embryo || m.threads[x].state == State::Finished || m.threads[x].state
                    == State::Dead);
            &&& r is None <==> mine && t.state == State::Dead && free
            &&& r == Some(abi::Error::StillAlive) <==> mine && t.state != State::Dead
            &&& r == Some(abi::Error::NotSupervised) <==> !mine || (t.state == State::Dead
                && t.tcb_region is None)
            &&& r == Some(abi::Error::NotPermitted) <==> mine && t.state == State::Dead
                && t.tcb_region is Some && !free
        }),
{
    let t = m.threads[tid];
    let k = t.tcb_region->0;
    let (base, end) = (u[k].base as int, u[k].end());
    if t.tcb_region is Some {
        if untyped::has_child(u, k) {
            let r = choose|r: u64| #[trigger] u.contains_key(r) && u[r].parent == Some(k);
            assert(u.contains_key(r) && u[r].parent == t.tcb_region);
        }
        if m.has_live(base, end) {
            let x = choose|x: Tid| #[trigger]
                m.threads.contains_key(x) && m.threads[x].resides(base, end)
                    && m.threads[x].is_live();
            assert(m.threads.contains_key(x));
        } else {
            assert forall|x: Tid| #[trigger]
                m.threads.contains_key(x) && base <= m.threads[x].page < end implies m.threads[x].state
                == State::Embryo || m.threads[x].state == State::Finished || m.threads[x].state
                == State::Dead by {
                assert(!(m.threads[x].resides(base, end) && m.threads[x].is_live()));
            }
        }
    }
}

/// **Which address spaces go with a region**: those whose root table lies in it. They are handed out,
/// and every other is still there as it was.
pub proof fn law_which_address_spaces_go(spaces: Map<u64, AddressSpace>, base: int, end: int, n: u64)
    ensures
        rooted_outside(spaces, base, end).contains_key(n) <==> spaces.contains_key(n) && (
        spaces[n].root < base || end <= spaces[n].root),
        rooted_outside(spaces, base, end).contains_key(n) ==> rooted_outside(
            spaces,
            base,
            end,
        )[n] == spaces[n],
{
}

/// **What is left of each thread, in their order.**
pub proof fn law_remains_are_in_order(threads: Map<Tid, TView>, tids: Seq<Tid>, i: int)
    requires
        0 <= i < tids.len(),
    ensures
        all_remains(threads, tids).len() == tids.len(),
        all_remains(threads, tids)[i].space == threads[tids[i]].space,
        all_remains(threads, tids)[i].stack_top == threads[tids[i]].stack_top,
        all_remains(threads, tids)[i].page == (if threads[tids[i]].tcb_kmem {
            Some(threads[tids[i]].page)
        } else {
            None
        }),
{
}

/// **Who lives in a range of pages**: every thread whose page lies in it and no other, each once.
pub proof fn law_who_lives_in_a_range(m: Machine, base: int, end: int, t: Tid, e: u64)
    requires
        m.wf(),
    ensures
        threads_in(m, base, end).contains(t) <==> m@.threads.contains_key(t) && base
            <= m@.threads[t].page < end,
        threads_in(m, base, end).no_duplicates(),
        endpoints_in(m, base, end).contains(e) <==> m@.endpoints.contains_key(e) && base
            <= m@.ep_pages[e] < end,
        endpoints_in(m, base, end).no_duplicates(),
{
    let names = crate::slots::live_names(m.threads.slots@);
    let eps = crate::slots::live_names(m.endpoints.slots@);
    crate::slots::lemma_live_names(m.threads.slots@);
    crate::slots::lemma_live_names(m.endpoints.slots@);
    reap::lemma_residents(m@.threads, names, base, end);
    reap::lemma_located(m@.ep_pages, eps, base, end);
}

/// **What reclaiming a region leaves.** Its name is gone. No thread, endpoint or address space has a page
/// in it, and every other is there; no mapping of a page of it is on record and no table names one.
/// What was mapped is handed out, as is what is left of every thread. A region that was nobody's part
/// is handed back whole; one that was split off stays its parent's.
pub proof fn law_what_reclaiming_leaves(
    c: int,
    region: u64,
    m: Machine,
    u: Untyped,
    spaces: Table<AddressSpace>,
    db: Seq<Mapping>,
    m2: Machine,
    u2: Untyped,
    spaces2: Table<AddressSpace>,
    db2: Seq<Mapping>,
    r: Reclaimed,
    t: Tid,
    e: u64,
    n: u64,
    x: Mapping,
    i: int,
)
    requires
        m.wf(),
        u.wf(),
        u@.contains_key(region),
        reclaimed(c, region, m, u, spaces, db, m2, u2, spaces2, db2, r),
    ensures
        ({
            let base = u@[region].base as int;
            let end = base + u@[region].pages * 4096;
            &&& !u2@.contains_key(region)
            &&& u@[region].parent is Some ==> u2@.contains_key(u@[region].parent->0)
            &&& n != region && u@.contains_key(n) ==> u2@.contains_key(n) && u2@[n].base
                == u@[n].base && u2@[n].pages == u@[n].pages && u2@[n].parent == u@[n].parent
            &&& m2@.threads.contains_key(t) <==> m@.threads.contains_key(t) && !(base
                <= m@.threads[t].page < end)
            &&& m2@.endpoints.contains_key(e) <==> m@.endpoints.contains_key(e) && !(base
                <= m@.ep_pages[e] < end)
            &&& spaces2@.contains_key(n) <==> spaces@.contains_key(n) && !(base <= spaces@[n].root
                < end)
            &&& m2@.threads.contains_key(t) && 0 <= i < m2@.threads[t].cspace.len() ==> !(
            m2@.threads[t].cspace[i] is Some && (m2@.threads[t].cspace[i]->0).object is Frame && base
                <= (m2@.threads[t].cspace[i]->0).object->Frame_0 < end)
            &&& db2.contains(x) <==> db.contains(x) && !(base <= x.phys < end)
            &&& r.unmapped@.contains(x) <==> db.contains(x) && base <= x.phys < end
            &&& m@.threads.contains_key(t) && base <= m@.threads[t].page < end
                ==> r.threads@.contains(machine::remains_of(m@.threads[t]))
            &&& r.memory is Some <==> u@[region].parent is None
            &&& r.memory is Some ==> (r.memory->0).0 == base && (r.memory->0).1 == end - base
        }),
{
    let run = u@[region];
    let (base, end) = (run.base as int, run.end());
    let tids = threads_in(m, base, end);
    assert(run.ok());
    revoke::law_no_mapping_survives(db, base, end, x);
    revoke::law_every_mapping_is_handed_out(db, base, end, x);
    law_who_lives_in_a_range(m, base, end, t, e);
    if tids.contains(t) {
        let k = choose|k: int| 0 <= k < tids.len() && tids[k] == t;
        assert(r.threads@[k] == machine::remains_of(m@.threads[t]));
    }
    if m2@.threads.contains_key(t) && 0 <= i < m2@.threads[t].cspace.len() {
        assert(!cap::names_page(m2@.threads[t].cspace[i], base, end));
    }
    assert(m2@.threads.contains_key(t) <==> m@.threads.contains_key(t) && !m@.threads[t].resides(
        base,
        end,
    ));
    assert(run.parent is Some ==> run.parent->0 != region && u@.contains_key(run.parent->0));
}

/// **Which address spaces are handed out with a region**: those whose root table lies in it, and no
/// other.
pub proof fn law_which_address_spaces_are_handed_out(
    table: Table<AddressSpace>,
    base: int,
    end: int,
    n: u64,
    i: int,
)
    requires
        table.wf(),
    ensures
        ({
            let out = rooted_in(table, base, end);
            &&& table@.contains_key(n) && base <= table@[n].root < end ==> out.contains(table@[n])
            &&& 0 <= i < out.len() ==> base <= out[i].root < end && exists|k: u64| #[trigger]
                table@.contains_key(k) && table@[k] == out[i]
        }),
{
    let names = crate::slots::live_names(table.slots@);
    let picked = reap::located(roots(table@), names, base, end);
    let out = rooted_in(table, base, end);
    crate::slots::lemma_live_names(table.slots@);
    reap::lemma_located(roots(table@), names, base, end);
    if table@.contains_key(n) && base <= table@[n].root < end {
        assert(names.contains(n));
        assert(picked.contains(n));
        let k = choose|k: int| 0 <= k < picked.len() && picked[k] == n;
        assert(out[k] == table@[n]);
    }
    if 0 <= i < out.len() {
        assert(picked.contains(picked[i]));
        assert(names.contains(picked[i]));
        assert(table@.contains_key(picked[i]) && table@[picked[i]] == out[i]);
    }
}

} // verus!
