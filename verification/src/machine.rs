//! The machine's state: the thread table, the endpoint registry and the cores.
//!
//! One value holds everything the kernel's operations change, so an operation is a function from
//! one state to the next. What the state is, mathematically, is [`MView`]; what every operation
//! keeps is [`Machine::wf`].
use vstd::prelude::*;

use crate::cap::Tid;
use crate::cpu::{CpuView, PerCpu, MAX_CPUS, NO_TID};
use crate::ipc::{Endpoint, EpView};
use crate::model::{MView, Place};
use crate::slots;
use crate::slots::Table;
use crate::thread::{AddressSpace, TView, Thread};

verus! {

/// The most threads that can be alive at once.
pub const MAX_THREADS: usize = 128;

/// The most endpoints that can exist at once.
pub const MAX_ENDPOINTS: usize = 512;

/// The interrupt numbers that can be routed are below this.
pub const MAX_INTID: usize = 256;

/// A registered endpoint: the rendezvous point and the physical page it lives in.
pub struct EpObject {
    pub page: u64,
    pub endpoint: Endpoint,
}

/// Everything the scheduler and the rendezvous work on.
pub struct Machine {
    pub running: bool,
    pub threads: Table<Thread>,
    pub endpoints: Table<EpObject>,
    pub cpus: Vec<PerCpu>,
    pub online: usize,
    pub irq_routes: Vec<u64>,
    pub preemptions: u64,
    pub kernel_ep_region: Option<u64>,
    pub kernel_ep_chunks: usize,
    pub quotas: Vec<u32>,
}

/// Every thread of a table, as the contracts see it.
pub open spec fn thread_views(m: Map<u64, Thread>) -> Map<Tid, TView> {
    Map::new(|n: u64| m.contains_key(n), |n: u64| m[n]@)
}

/// Every endpoint of a registry, as the contracts see it.
pub open spec fn ep_views(m: Map<u64, EpObject>) -> Map<u64, EpView> {
    Map::new(|n: u64| m.contains_key(n), |n: u64| m[n].endpoint@)
}

/// Every endpoint's page.
pub open spec fn ep_pages(m: Map<u64, EpObject>) -> Map<u64, u64> {
    Map::new(|n: u64| m.contains_key(n), |n: u64| m[n].page)
}

/// Every core, as the contracts see it.
pub open spec fn cpu_views(s: Seq<PerCpu>) -> Seq<CpuView> {
    Seq::new(s.len(), |i: int| s[i]@)
}

impl Machine {
    pub open spec fn view(self) -> MView {
        MView {
            running: self.running,
            threads: thread_views(self.threads@),
            endpoints: ep_views(self.endpoints@),
            ep_pages: ep_pages(self.endpoints@),
            cpus: cpu_views(self.cpus@),
            online: self.online as nat,
            irq_routes: self.irq_routes@,
            preemptions: self.preemptions,
            kernel_ep_region: self.kernel_ep_region,
            kernel_ep_chunks: self.kernel_ep_chunks as nat,
            quotas: self.quotas@,
        }
    }

    /// The tables and arrays have their sizes.
    pub open spec fn sane(self) -> bool {
        &&& self.threads.wf()
        &&& self.threads.slots@.len() == MAX_THREADS
        &&& self.endpoints.wf()
        &&& self.endpoints.slots@.len() == MAX_ENDPOINTS
        &&& self.cpus@.len() == MAX_CPUS
        &&& 1 <= self.online <= MAX_CPUS
        &&& self.irq_routes@.len() == MAX_INTID
    }

    /// Is `tid` no name at all, or a thread's, or one a thread gave up?
    pub open spec fn knows(self, tid: Tid) -> bool {
        tid == NO_TID || self@.threads.contains_key(tid) || slots::spent(self.threads.slots@, tid)
    }

    /// Whatever a core like `cpu` refers to has been a thread, so no thread to come can be mistaken
    /// for it; and whoever asked it for work is a core.
    pub open spec fn ref_ok(self, cpu: CpuView) -> bool {
        &&& self.knows(cpu.current)
        &&& self.knows(cpu.switched_from)
        &&& self.knows(cpu.idle)
        &&& cpu.steal_request <= MAX_CPUS
    }

    /// That holds of every core.
    pub open spec fn refs_ok(self) -> bool {
        forall|c: int| 0 <= c < MAX_CPUS ==> self.ref_ok(#[trigger] self@.cpus[c])
    }

    /// **What every operation keeps.**
    pub open spec fn wf(self) -> bool {
        &&& self.sane()
        &&& self.refs_ok()
        &&& self@.inv()
    }

    /// Names that were spent in `self` are spent in `later`: nothing that died comes back.
    pub open spec fn keeps(self, later: Machine) -> bool {
        &&& forall|n: u64| #[trigger]
            slots::spent(self.threads.slots@, n) ==> slots::spent(later.threads.slots@, n)
        &&& forall|n: u64| #[trigger]
            slots::spent(self.endpoints.slots@, n) ==> slots::spent(later.endpoints.slots@, n)
    }

    /// No name of either table was given up, and no slot was retired.
    pub open spec fn same_names(self, later: Machine) -> bool {
        &&& slots::same_names(self.threads.slots@, later.threads.slots@)
        &&& slots::same_names(self.endpoints.slots@, later.endpoints.slots@)
    }

    /// The threads and endpoints are those there were, by name, no name was given up, and no slot was
    /// retired: there is room for just as many more as before.
    pub open spec fn same_room(self, later: Machine) -> bool {
        &&& self.same_names(later)
        &&& later@.threads.dom() =~= self@.threads.dom()
        &&& later@.endpoints.dom() =~= self@.endpoints.dom()
    }

    /// Nothing in `later` is new, just the names of what is gone were given up, and a slot was
    /// retired for each of those that was its last.
    pub open spec fn sheds(self, later: Machine) -> bool {
        &&& self.threads.sheds(later.threads)
        &&& self.endpoints.sheds(later.endpoints)
    }

    /// Thread `tid`, to be looked at.
    pub fn thread(&self, tid: Tid) -> (r: Option<&Thread>)
        ensures
            match r {
                Some(t) => self@.threads.contains_key(tid) && t@ == self@.threads[tid],
                None => !self@.threads.contains_key(tid),
            },
    {
        self.threads.get(tid)
    }

    /// Thread `tid`, to be changed.
    pub fn thread_mut(&mut self, tid: Tid) -> (r: Option<&mut Thread>)
        requires
            old(self).sane(),
        ensures
            final(self).sane(),
            old(self).same_room(*final(self)),
            old(self).refs_ok() ==> final(self).refs_ok(),
            match r {
                Some(t) => {
                    &&& old(self)@.threads.contains_key(tid)
                    &&& (*t)@ == old(self)@.threads[tid]
                    &&& final(self)@ == old(self)@.with_thread(tid, (*final(t))@)
                },
                None => {
                    &&& !old(self)@.threads.contains_key(tid)
                    &&& *final(self) == *old(self)
                },
            },
    {
        proof {
            lemma_thread_insert(self.threads@, tid);
        }
        self.threads.get_mut(tid)
    }

    /// Endpoint `e`, to be changed. `None` if the name does not resolve.
    pub fn endpoint_mut(&mut self, e: u64) -> (r: Option<&mut Endpoint>)
        requires
            old(self).sane(),
        ensures
            final(self).sane(),
            old(self).same_room(*final(self)),
            old(self).refs_ok() ==> final(self).refs_ok(),
            match r {
                Some(ep) => {
                    &&& old(self)@.endpoints.contains_key(e)
                    &&& (*ep)@ == old(self)@.endpoints[e]
                    &&& final(self)@ == old(self)@.with_ep(e, (*final(ep))@)
                },
                None => {
                    &&& !old(self)@.endpoints.contains_key(e)
                    &&& *final(self) == *old(self)
                },
            },
    {
        proof {
            lemma_ep_insert(self.endpoints@, e);
        }
        match self.endpoints.get_mut(e) {
            Some(o) => Some(&mut o.endpoint),
            None => None,
        }
    }

    /// Core `c`'s block, to be changed.
    pub fn cpu_mut(&mut self, c: usize) -> (r: &mut PerCpu)
        requires
            old(self).sane(),
            c < MAX_CPUS,
        ensures
            final(self).sane(),
            old(self).same_room(*final(self)),
            old(self).refs_ok() && old(self).ref_ok((*final(r))@) ==> final(self).refs_ok(),
            (*r)@ == old(self)@.cpus[c as int],
            final(self)@ == old(self)@.with_cpu(c as int, (*final(r))@),
            final(self).threads == old(self).threads,
            final(self).endpoints == old(self).endpoints,
    {
        proof {
            lemma_cpu_update(self.cpus@, c as int);
        }
        &mut self.cpus[c]
    }
}

impl Machine {
    /// Take thread `t` in under a fresh name, which it then carries. `None`, and nothing changed,
    /// if the table is full.
    pub fn insert_thread(&mut self, t: Thread) -> (r: Option<Tid>)
        requires
            old(self).sane(),
        ensures
            final(self).sane(),
            old(self).same_names(*final(self)),
            old(self).refs_ok() ==> final(self).refs_ok(),
            match r {
                Some(tid) => {
                    &&& slots::mints(old(self).threads.slots@, tid)
                    &&& old(self).refs_ok() ==> old(self)@.unknown(tid)
                    &&& tid != NO_TID
                    &&& !old(self)@.threads.contains_key(tid)
                    &&& final(self)@ == old(self)@.with_thread(tid, (TView { id: tid, ..t@ }))
                    &&& forall|i: int|
                        0 <= i < MAX_THREADS && i != slots::slot_of(tid)
                            ==> #[trigger] final(self).threads.slots@[i]
                            == old(self).threads.slots@[i]
                },
                None => *final(self) == *old(self),
            },
            r is Some <==> old(self).threads.has_room(),
            final(self).endpoints == old(self).endpoints,
    {
        let tid: Tid = match self.threads.next_name() {
            Some(tid) => tid,
            None => {
                return None;
            },
        };
        let mut named = t;
        named.id = tid;
        proof {
            lemma_thread_insert(self.threads@, tid);
            assert(!self.knows(tid));
            if self.refs_ok() {
                assert forall|c: int| 0 <= c < self@.cpus.len() implies (#[trigger]
                self@.cpus[c]).current != tid && self@.cpus[c].switched_from != tid
                    && self@.cpus[c].idle != tid by {
                    assert(self.ref_ok(self@.cpus[c]));
                }
            }
        }
        let r = self.threads.insert(named);
        proof {
            slots::lemma_name_injective(r->0, tid);
            if old(self).refs_ok() {
                assert forall|c: int| 0 <= c < MAX_CPUS implies self.ref_ok(
                    #[trigger] self@.cpus[c],
                ) by {
                    assert(old(self).ref_ok(old(self)@.cpus[c]));
                }
            }
        }
        r
    }

    /// A machine that is not up yet: `online` cores, and a spawning budget for each entry of
    /// `quotas`.
    pub fn new(online: usize, quotas: Vec<u32>) -> (m: Machine)
        requires
            1 <= online <= MAX_CPUS,
        ensures
            m.wf(),
            !m.running,
            m@ == blank(online as nat, quotas@),
            m.threads.has_room(),
            slots::mints(m.threads.slots@, 0),
    {
        let mut cpus: Vec<PerCpu> = Vec::new();
        let mut i: usize = 0;
        while i < MAX_CPUS
            invariant
                i <= MAX_CPUS,
                cpus@.len() == i,
                forall|j: int| 0 <= j < i ==> (#[trigger] cpus@[j])@ == crate::cpu::blank(),
            decreases MAX_CPUS - i,
        {
            cpus.push(PerCpu::new());
            i += 1;
        }
        let mut routes: Vec<u64> = Vec::new();
        let mut i: usize = 0;
        while i < MAX_INTID
            invariant
                i <= MAX_INTID,
                routes@.len() == i,
                forall|j: int| 0 <= j < i ==> routes@[j] == 0,
            decreases MAX_INTID - i,
        {
            routes.push(0);
            i += 1;
        }
        let m = Machine {
            running: false,
            threads: Table::new(MAX_THREADS),
            endpoints: Table::new(MAX_ENDPOINTS),
            cpus,
            online,
            irq_routes: routes,
            preemptions: 0,
            kernel_ep_region: None,
            kernel_ep_chunks: 0,
            quotas,
        };
        proof {
            let b = blank(online as nat, quotas@);
            assert(m@.threads =~= b.threads);
            assert(m@.endpoints =~= b.endpoints);
            assert(m@.ep_pages =~= b.ep_pages);
            assert(m@.cpus =~= b.cpus);
            assert(m@.irq_routes =~= b.irq_routes);
            assert(m@ =~= b);
            lemma_blank(online as nat, quotas@);
        }
        m
    }
}

/// A machine that is not up yet.
pub open spec fn blank(online: nat, quotas: Seq<u32>) -> MView {
    MView {
        running: false,
        threads: Map::empty(),
        endpoints: Map::empty(),
        ep_pages: Map::empty(),
        cpus: Seq::new(MAX_CPUS as nat, |i: int| crate::cpu::blank()),
        online,
        irq_routes: Seq::new(MAX_INTID as nat, |i: int| 0u64),
        preemptions: 0,
        kernel_ep_region: None,
        kernel_ep_chunks: 0,
        quotas,
    }
}

/// Such a machine keeps the discipline, having nothing to break it with.
proof fn lemma_blank(online: nat, quotas: Seq<u32>)
    ensures
        blank(online, quotas).inv(),
{
    reveal(MView::inv);
    let b = blank(online, quotas);
    assert forall|p: Place| #[trigger] b.queue(p).len() == 0 by {}
    assert(b.threads.dom() =~= Set::<Tid>::empty());
    assert(b.endpoints.dom() =~= Set::<u64>::empty());
    assert(b.ep_pages.dom() =~= b.endpoints.dom());
}

/// What is left of a thread that was collected: what its owner has to give back.
#[derive(Debug, Clone, Copy, PartialEq, Eq, Structural)]
pub struct Remains {
    /// The address space to tear down.
    pub space: Option<AddressSpace>,
    /// The kernel stack to unmap, by its top.
    pub stack_top: Option<u64>,
    /// The page to recycle, if it came out of the kernel's own budget. Any other page belongs to
    /// the region it was retyped from.
    pub page: Option<u64>,
}

/// What is left of `t`.
pub open spec fn remains_of(t: TView) -> Remains {
    Remains {
        space: t.space,
        stack_top: t.stack_top,
        page: if t.tcb_kmem {
            Some(t.page)
        } else {
            None
        },
    }
}

impl Machine {
    /// End thread `tid`. Its name never resolves again, and its slot in a spawning budget is free.
    pub fn remove_thread(&mut self, tid: Tid) -> (r: Remains)
        requires
            old(self).sane(),
            old(self)@.threads.contains_key(tid),
        ensures
            final(self).sane(),
            old(self).sheds(*final(self)),
            old(self).refs_ok() ==> final(self).refs_ok(),
            slots::spent(final(self).threads.slots@, tid),
            final(self)@ == old(self)@.removed(tid),
            r == remains_of(old(self)@.threads[tid]),
    {
        match self.threads.remove(tid) {
            Some(t) => {
                if let Some(q) = t.quota {
                    if q < self.quotas.len() {
                        let left: u32 = self.quotas[q].wrapping_add(1);
                        self.quotas.set(q, left);
                    }
                }
                proof {
                    slots::lemma_sheds_nothing(self.endpoints, self.endpoints);
                    let gone = old(self)@.removed(tid);
                    assert(self@.threads =~= gone.threads);
                    assert(self@.quotas =~= gone.quotas);
                    assert(self@ =~= gone);
                    if old(self).refs_ok() {
                        assert forall|c: int| 0 <= c < MAX_CPUS implies self.ref_ok(
                            #[trigger] self@.cpus[c],
                        ) by {
                            assert(old(self).ref_ok(old(self)@.cpus[c]));
                        }
                    }
                }
                Remains {
                    space: t.space,
                    stack_top: t.stack_top,
                    page: if t.tcb_kmem {
                        Some(t.page)
                    } else {
                        None
                    },
                }
            },
            None => Remains { space: None, stack_top: None, page: None },
        }
    }
}

impl Machine {
    /// Register a new endpoint in page `page`. `None`, and nothing changed, if the registry is
    /// full.
    pub fn insert_endpoint(&mut self, page: u64) -> (r: Option<u64>)
        requires
            old(self).sane(),
        ensures
            final(self).sane(),
            old(self).same_names(*final(self)),
            old(self).refs_ok() ==> final(self).refs_ok(),
            match r {
                Some(e) => {
                    &&& slots::mints(old(self).endpoints.slots@, e)
                    &&& !old(self)@.endpoints.contains_key(e)
                    &&& e < u64::MAX
                    &&& final(self)@ == old(self)@.registered(e, page)
                },
                None => *final(self) == *old(self),
            },
            r is Some <==> old(self).endpoints.has_room(),
    {
        let endpoint = Endpoint::new();
        let r = self.endpoints.insert(EpObject { page, endpoint });
        proof {
            if let Some(e) = r {
                let gone = old(self)@.registered(e, page);
                assert(self@.endpoints =~= gone.endpoints);
                assert(self@.ep_pages =~= gone.ep_pages);
                assert(self@ =~= gone);
            }
            if old(self).refs_ok() {
                assert forall|c: int| 0 <= c < MAX_CPUS implies self.ref_ok(
                    #[trigger] self@.cpus[c],
                ) by {
                    assert(old(self).ref_ok(old(self)@.cpus[c]));
                }
            }
        }
        r
    }

    /// End endpoint `e`. Its name never resolves again.
    pub fn remove_endpoint(&mut self, e: u64)
        requires
            old(self).sane(),
        ensures
            final(self).sane(),
            old(self).sheds(*final(self)),
            old(self).refs_ok() ==> final(self).refs_ok(),
            old(self)@.endpoints.contains_key(e) ==> slots::spent(final(self).endpoints.slots@, e),
            final(self)@ == old(self)@.unregistered(e),
    {
        let dropped = self.endpoints.remove(e);
        proof {
            slots::lemma_sheds_nothing(self.threads, self.threads);
            let gone = old(self)@.unregistered(e);
            assert(self@.endpoints =~= gone.endpoints);
            assert(self@.ep_pages =~= gone.ep_pages);
            assert(self@ =~= gone);
            if old(self).refs_ok() {
                assert forall|c: int| 0 <= c < MAX_CPUS implies self.ref_ok(
                    #[trigger] self@.cpus[c],
                ) by {
                    assert(old(self).ref_ok(old(self)@.cpus[c]));
                }
            }
        }
    }

    /// The page endpoint `e` lives in.
    pub fn endpoint_page(&self, e: u64) -> (r: Option<u64>)
        ensures
            match r {
                Some(page) => self@.endpoints.contains_key(e) && page == self@.ep_pages[e],
                None => !self@.endpoints.contains_key(e),
            },
    {
        match self.endpoints.get(e) {
            Some(o) => Some(o.page),
            None => None,
        }
    }
}

/// A machine that lost no thread and no endpoint shed nothing.
pub proof fn lemma_sheds_nothing(a: Machine, b: Machine)
    requires
        a.same_names(b),
        a@.threads.dom() == b@.threads.dom(),
        a@.endpoints.dom() == b@.endpoints.dom(),
    ensures
        a.sheds(b),
{
    assert(a.threads@.dom() =~= a@.threads.dom());
    assert(b.threads@.dom() =~= b@.threads.dom());
    assert(a.endpoints@.dom() =~= a@.endpoints.dom());
    assert(b.endpoints@.dom() =~= b@.endpoints.dom());
    slots::lemma_sheds_nothing(a.threads, b.threads);
    slots::lemma_sheds_nothing(a.endpoints, b.endpoints);
}

/// What is left of what is left is what is left of the whole.
pub proof fn lemma_sheds_again(a: Machine, b: Machine, c: Machine)
    requires
        a.sane(),
        a.sheds(b),
        b.sheds(c),
    ensures
        a.sheds(c),
{
    slots::lemma_sheds_again(a.threads, b.threads, c.threads);
    slots::lemma_sheds_again(a.endpoints, b.endpoints, c.endpoints);
}

/// **A name that was spent stays spent**, whether names are given up or not.
pub proof fn law_names_stay_spent(a: Machine, b: Machine)
    requires
        a.same_names(b) || a.sheds(b),
    ensures
        a.keeps(b),
{
}

/// **Where nothing came or went there is as much room as before**: another thread, or endpoint, can
/// be taken in exactly if it could be before.
pub proof fn law_room_stays(a: Machine, b: Machine)
    requires
        a.wf(),
        b.wf(),
        a.same_room(b),
    ensures
        b.threads.has_room() <==> a.threads.has_room(),
        b.endpoints.has_room() <==> a.endpoints.has_room(),
{
    law_room_for_threads_and_endpoints(a);
    law_room_for_threads_and_endpoints(b);
}

/// **There is room for another thread, or endpoint, exactly while fewer slots are taken or retired
/// than there are.**
pub proof fn law_room_for_threads_and_endpoints(m: Machine)
    requires
        m.wf(),
    ensures
        m@.threads.dom().finite(),
        m@.endpoints.dom().finite(),
        m.threads.has_room() <==> m@.threads.dom().len() + slots::retired(m.threads.slots@)
            < MAX_THREADS,
        m.endpoints.has_room() <==> m@.endpoints.dom().len() + slots::retired(m.endpoints.slots@)
            < MAX_ENDPOINTS,
{
    assert(m.threads@.dom() =~= m@.threads.dom());
    assert(m.endpoints@.dom() =~= m@.endpoints.dom());
    slots::law_room_is_what_is_left(m.threads);
    slots::law_room_is_what_is_left(m.endpoints);
}

/// However threads crowd onto a core, there are only so many threads.
pub proof fn lemma_load_bounded(m: Machine, c: int)
    requires
        m.wf(),
        0 <= c < MAX_CPUS,
    ensures
        m@.cpus[c].runnable() <= MAX_THREADS,
{
    reveal(MView::inv);
    let v = m@;
    let run = Place::Run(c);
    let inbox = Place::Inbox(c);
    let s = v.cpus[c].runq + v.cpus[c].inbox;
    assert(v.queue(run) == v.cpus[c].runq);
    assert(v.queue(inbox) == v.cpus[c].inbox);
    assert forall|i: int, j: int| 0 <= i < s.len() && 0 <= j < s.len() && i != j implies s[i]
        != s[j] by {
        let n = v.cpus[c].runq.len() as int;
        let (p, k) = if i < n {
            (run, i)
        } else {
            (inbox, i - n)
        };
        let (q, l) = if j < n {
            (run, j)
        } else {
            (inbox, j - n)
        };
        assert(v.queue(p)[k] == s[i]);
        assert(v.queue(q)[l] == s[j]);
    }
    s.unique_seq_to_set();
    slots::lemma_live_names(m.threads.slots@);
    let all = m.threads@.dom();
    assert forall|t: Tid| s.to_set().contains(t) implies all.contains(t) by {
        let i = choose|i: int| 0 <= i < s.len() && s[i] == t;
        let n = v.cpus[c].runq.len() as int;
        if i < n {
            assert(v.queue(run)[i] == t);
        } else {
            assert(v.queue(inbox)[i - n] == t);
        }
        assert(v.threads.contains_key(t));
    }
    vstd::set_lib::lemma_len_subset(s.to_set(), all);
}

/// Replacing one thread replaces its view.
proof fn lemma_thread_insert(m: Map<u64, Thread>, tid: Tid)
    ensures
        forall|t: Thread| #[trigger]
            thread_views(m.insert(tid, t)) == thread_views(m).insert(tid, t@),
{
    assert forall|t: Thread| #[trigger] thread_views(m.insert(tid, t)) == thread_views(m).insert(
        tid,
        t@,
    ) by {
        assert(thread_views(m.insert(tid, t)) =~= thread_views(m).insert(tid, t@));
    }
}

/// Replacing one endpoint replaces its view, and its page stays if it is the same page.
proof fn lemma_ep_insert(m: Map<u64, EpObject>, e: u64)
    ensures
        forall|o: EpObject| #[trigger]
            ep_views(m.insert(e, o)) == ep_views(m).insert(e, o.endpoint@),
        forall|o: EpObject|
            m.contains_key(e) && o.page == m[e].page ==> #[trigger] ep_pages(m.insert(e, o))
                == ep_pages(m),
{
    assert forall|o: EpObject| #[trigger] ep_views(m.insert(e, o)) == ep_views(m).insert(
        e,
        o.endpoint@,
    ) by {
        assert(ep_views(m.insert(e, o)) =~= ep_views(m).insert(e, o.endpoint@));
    }
    assert forall|o: EpObject|
        m.contains_key(e) && o.page == m[e].page implies #[trigger] ep_pages(m.insert(e, o))
        == ep_pages(m) by {
        assert(ep_pages(m.insert(e, o)) =~= ep_pages(m));
    }
}

/// Replacing one core replaces its view.
proof fn lemma_cpu_update(s: Seq<PerCpu>, c: int)
    requires
        0 <= c < s.len(),
    ensures
        forall|x: PerCpu| #[trigger] cpu_views(s.update(c, x)) == cpu_views(s).update(c, x@),
{
    assert forall|x: PerCpu| #[trigger] cpu_views(s.update(c, x)) == cpu_views(s).update(c, x@) by {
        assert(cpu_views(s.update(c, x)) =~= cpu_views(s).update(c, x@));
    }
}

/// **What is left of a thread is what was only its own**: its address space, its kernel stack, and its
/// page if the kernel paid for that. A page that a region paid for stays the region's.
pub proof fn law_what_is_left_of_a_thread(t: TView)
    ensures
        ({
            let r = remains_of(t);
            &&& r.space == t.space
            &&& r.stack_top == t.stack_top
            &&& r.page is Some <==> t.tcb_kmem
            &&& r.page is Some ==> r.page->0 == t.page
        }),
{
}

/// **A machine that is not up has nobody on it**: no thread, no endpoint, no interrupt bound, no chunk
/// carved, and four cores that have run nothing.
pub proof fn law_a_blank_machine_has_nobody_on_it(online: nat, quotas: Seq<u32>, i: int)
    ensures
        ({
            let m = blank(online, quotas);
            &&& !m.running && m.online == online && m.quotas == quotas
            &&& m.threads.dom() == Set::<Tid>::empty() && m.endpoints.dom() == Set::<u64>::empty()
            &&& m.ep_pages.dom() == Set::<u64>::empty()
            &&& m.cpus.len() == 4 && m.irq_routes.len() == MAX_INTID
            &&& 0 <= i < 4 ==> m.cpus[i].current == NO_TID && m.cpus[i].idle == NO_TID
                && m.cpus[i].runnable() == 0
            &&& 0 <= i < m.irq_routes.len() ==> m.irq_routes[i] == 0
            &&& m.preemptions == 0 && m.kernel_ep_region is None && m.kernel_ep_chunks == 0
        }),
{
    let m = blank(online, quotas);
    assert(m.threads.dom() =~= Set::<Tid>::empty());
    assert(m.endpoints.dom() =~= Set::<u64>::empty());
    assert(m.ep_pages.dom() =~= Set::<u64>::empty());
}

} // verus!
