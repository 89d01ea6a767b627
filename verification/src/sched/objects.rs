//! Endpoints and threads built out of somebody's memory.
use vstd::prelude::*;

use crate::abi::{Error, FaultAbi};
use crate::cap::{Cap, Object, Tid, CSPACE_SLOTS};
use crate::cpu::MAX_CPUS;
use crate::machine::{Machine, MAX_ENDPOINTS};
use crate::memory;
use crate::memory::Memory;
use crate::model::place;
use crate::model::reap;
use crate::model::steps;
use crate::model::MView;
use crate::slots;
use crate::slots::Table;
use crate::thread::{AddressSpace, State, TView, Thread};
use crate::untyped::{Run, Untyped};

verus! {

/// The pages in one of the kernel's endpoint chunks. When a chunk is full another one is carved, so
/// this is a batch size and not a limit.
pub const KERNEL_EP_CHUNK_PAGES: u64 = 32;

/// How many chunks the kernel carves at most: enough for every endpoint the registry can hold.
pub const MAX_KERNEL_EP_CHUNKS: usize = 16;

/// **The page supply is never the binding limit**: the chunks the kernel may carve hold a page for
/// every slot of the registry, and one chunk fewer would not.
pub proof fn law_chunks_cover_the_registry()
    ensures
        MAX_KERNEL_EP_CHUNKS * KERNEL_EP_CHUNK_PAGES >= MAX_ENDPOINTS,
        (MAX_KERNEL_EP_CHUNKS - 1) * KERNEL_EP_CHUNK_PAGES < MAX_ENDPOINTS,
{
}

/// Why an endpoint could not be made. The two call for opposite answers: carve more memory and try
/// again, or give up.
#[derive(Debug, Clone, Copy, PartialEq, Eq, Structural)]
pub enum EpFail {
    /// The region has no page left.
    RegionFull,
    /// The registry is full, or there is no scheduler to register with.
    RegistryFull,
}

/// Can `region` pay for another page?
pub open spec fn can_spend(u: Untyped, region: u64) -> bool {
    u@.contains_key(region) && u@[region].spent < u@[region].pages
}

/// The regions after `region` paid for an object's page.
pub open spec fn after_spend(u: Map<u64, Run>, region: u64) -> Map<u64, Run> {
    u.insert(region, Run { spent: (u[region].spent + 1) as u64, pinned: true, ..u[region] })
}

/// Make an endpoint in `region`'s memory. The registry is asked first, so a full registry costs
/// nobody a page.
fn try_create_endpoint_from(m: &mut Machine, u: &mut Untyped, region: u64) -> (r: Result<
    u64,
    EpFail,
>)
    requires
        old(m).wf(),
        old(u).wf(),
    ensures
        final(m).wf(),
        final(u).wf(),
        old(m).same_names(*final(m)),
        old(m)@.settled(final(m)@),
        slots::same_names(old(u).regions.slots@, final(u).regions.slots@),
        old(u).stays(*final(u)),
        r is Ok && old(u).regions.has_room() ==> final(u).regions.has_room(),
        match r {
            Ok(ep) => {
                &&& old(m).running
                &&& slots::mints(old(m).endpoints.slots@, ep)
                &&& can_spend(*old(u), region)
                &&& ep < u64::MAX
                &&& final(m)@ == old(m)@.registered(ep, old(u)@[region].next_page())
                &&& final(u)@ == after_spend(old(u)@, region)
            },
            Err(e) => {
                &&& *final(m) == *old(m)
                &&& *final(u) == *old(u)
                &&& e == EpFail::RegistryFull <==> !old(m).running || !old(m).endpoints.has_room()
                &&& e == EpFail::RegionFull ==> !can_spend(*old(u), region)
            },
        },
        r is Ok <==> old(m).running && old(m).endpoints.has_room() && can_spend(*old(u), region),
{
    if !m.running {
        return Err(EpFail::RegistryFull);
    }
    if m.endpoints.next_name().is_none() {
        return Err(EpFail::RegistryFull);
    }
    let page: u64 = match u.retype_object_page(region) {
        Some(page) => page,
        None => {
            return Err(EpFail::RegionFull);
        },
    };
    match m.insert_endpoint(page) {
        Some(ep) => {
            proof {
                reap::lemma_register(old(m)@, ep, page);
            }
            Ok(ep)
        },
        None => Err(EpFail::RegistryFull),
    }
}

/// **Make an endpoint in `region`'s memory**: one page spent, and a fresh name. `None`, and nothing
/// spent, if the region is out of pages or the registry is full.
pub fn create_endpoint_from(m: &mut Machine, u: &mut Untyped, region: u64) -> (r: Option<u64>)
    requires
        old(m).wf(),
        old(u).wf(),
    ensures
        final(m).wf(),
        final(u).wf(),
        old(m).same_names(*final(m)),
        old(m)@.settled(final(m)@),
        slots::same_names(old(u).regions.slots@, final(u).regions.slots@),
        old(u).stays(*final(u)),
        r is Some <==> old(m).running && old(m).endpoints.has_room() && can_spend(*old(u), region),
        match r {
            Some(ep) => {
                &&& slots::mints(old(m).endpoints.slots@, ep)
                &&& final(m)@ == old(m)@.registered(ep, old(u)@[region].next_page())
                &&& final(u)@ == after_spend(old(u)@, region)
            },
            None => *final(m) == *old(m) && *final(u) == *old(u),
        },
{
    match try_create_endpoint_from(m, u, region) {
        Ok(ep) => Some(ep),
        Err(_) => None,
    }
}

/// Has the kernel a chunk of its own with a page to spare?
pub open spec fn chunk_ready(m: Machine, u: Untyped) -> bool {
    m@.kernel_ep_region is Some && can_spend(u, m@.kernel_ep_region->0)
}

/// The machine after another chunk was carved under the name `region`.
pub open spec fn carved(m: MView, region: u64) -> MView {
    MView { kernel_ep_region: Some(region), kernel_ep_chunks: m.kernel_ep_chunks + 1, ..m }
}

/// A fresh chunk at `base`, with its first page spent.
pub open spec fn opened_chunk(base: u64) -> Run {
    Run { base, pages: KERNEL_EP_CHUNK_PAGES, spent: 1, pinned: true, parent: None }
}

/// Can the kernel make another endpoint? The registry needs a slot, and there has to be a page in
/// the chunk at hand, or the means to carve another.
pub open spec fn can_make(m: Machine, u: Untyped, mem: Memory) -> bool {
    &&& m.running
    &&& m.endpoints.has_room()
    &&& chunk_ready(m, u) || can_carve(m, u, mem)
}

/// Can the kernel carve another chunk?
pub open spec fn can_carve(m: Machine, u: Untyped, mem: Memory) -> bool {
    &&& m@.kernel_ep_chunks < MAX_KERNEL_EP_CHUNKS
    &&& u.regions.has_room()
    &&& exists|j: int| #[trigger] mem.frames@.free_run(j, KERNEL_EP_CHUNK_PAGES as int)
}

/// The kernel, from `m`, `u` and `mem`, made endpoint `ep` on its own budget: out of the chunk at
/// hand, if that had a page to spare, and out of a fresh one if it had not.
pub open spec fn made(
    m: Machine,
    u: Untyped,
    mem: Memory,
    ep: u64,
    m2: Machine,
    u2: Untyped,
    mem2: Memory,
) -> bool {
    &&& m2.wf()
    &&& u2.wf()
    &&& m.same_names(m2)
    &&& slots::same_names(u.regions.slots@, u2.regions.slots@)
    &&& slots::mints(m.endpoints.slots@, ep)
    &&& if chunk_ready(m, u) {
        let region = m@.kernel_ep_region->0;
        &&& m2@ == m@.registered(ep, u@[region].next_page())
        &&& u2@ == after_spend(u@, region)
        &&& mem2.frames@ == mem.frames@
    } else {
        let region = m2@.kernel_ep_region->0;
        let base = m2@.ep_pages[ep];
        let f = mem.frames@;
        &&& !u@.contains_key(region)
        &&& f.lowest_run(base, KERNEL_EP_CHUNK_PAGES as int)
        &&& mem2.frames@ == f.taken(f.index(base), KERNEL_EP_CHUNK_PAGES as int)
        &&& m2@ == carved(m@, region).registered(ep, base)
        &&& u2@ == u@.insert(region, opened_chunk(base))
    }
}

/// **Make an endpoint on the kernel's own budget.** A page comes out of the chunk at hand; when
/// that one is spent, or there is none yet, another is carved and the old one is let go of: its
/// pages stay pinned and its endpoints live.
///
/// There has to be a slot in the registry, and either a page in the chunk at hand or the means to
/// carve another: every caller is the kernel wiring up a service, and has nobody to report a
/// failure to.
pub fn create_endpoint(m: &mut Machine, u: &mut Untyped, mem: &mut Memory) -> (ep: u64)
    requires
        old(m).wf(),
        old(u).wf(),
        old(mem).frames.wf(),
        can_make(*old(m), *old(u), *old(mem)),
    ensures
        final(m).wf(),
        final(u).wf(),
        final(mem).frames.wf(),
        old(m).same_names(*final(m)),
        old(m)@.settled(final(m)@),
        old(u).stays(*final(u)),
        memory::same_map(*old(mem), *final(mem)),
        made(*old(m), *old(u), *old(mem), ep, *final(m), *final(u), *final(mem)),
{
    if let Some(region) = m.kernel_ep_region {
        match try_create_endpoint_from(m, u, region) {
            Ok(ep) => {
                return ep;
            },
            Err(_) => {
                m.kernel_ep_region = None;
            },
        }
    }
    let ghost mid = *m;
    assert(mid@ == (MView { kernel_ep_region: None, ..old(m)@ }));
    let base: u64 = match memory::alloc_contiguous(mem, KERNEL_EP_CHUNK_PAGES as usize) {
        Some(base) => base,
        None => {
            assert(false);
            0
        },
    };
    let region: u64 = match u.create(base, KERNEL_EP_CHUNK_PAGES) {
        Some(region) => region,
        None => {
            assert(false);
            0
        },
    };
    m.kernel_ep_chunks = m.kernel_ep_chunks + 1;
    m.kernel_ep_region = Some(region);
    proof {
        place::lemma_chunks(old(m)@, Some(region), old(m)@.kernel_ep_chunks + 1);
        assert(m@ == carved(old(m)@, region));
        assert forall|c: int| 0 <= c < MAX_CPUS implies m.ref_ok(#[trigger] m@.cpus[c]) by {
            assert(old(m).ref_ok(old(m)@.cpus[c]));
        }
    }
    match try_create_endpoint_from(m, u, region) {
        Ok(ep) => {
            assert(final(u)@ =~= old(u)@.insert(region, opened_chunk(base)));
            ep
        },
        Err(_) => {
            assert(false);
            0
        },
    }
}

/// A run of endpoints made one after another: `names[i]` is made from the `i`-th state, and the next
/// state is what is left.
pub open spec fn made_in_turn(s: Seq<(Machine, Untyped, Memory)>, names: Seq<u64>) -> bool {
    &&& s.len() == names.len() + 1
    &&& forall|i: int|
        0 <= i < names.len() ==> {
            let (a, b) = (s[i], s[i + 1]);
            made(a.0, a.1, a.2, #[trigger] names[i], b.0, b.1, b.2)
        }
}

/// What the first `k` calls of a run leave: everything that was registered, and the first `k` names.
proof fn lemma_made_so_far(s: Seq<(Machine, Untyped, Memory)>, names: Seq<u64>, k: int)
    requires
        s.len() > 0,
        s[0].0.wf(),
        made_in_turn(s, names),
        0 <= k <= names.len(),
    ensures
        s[0].0.same_names(s[k].0),
        s[k].0.wf(),
        forall|e: u64| #[trigger]
            s[k].0@.endpoints.contains_key(e) <==> s[0].0@.endpoints.contains_key(e) || names.take(
                k,
            ).contains(e),
        forall|e: u64| #[trigger]
            s[0].0@.endpoints.contains_key(e) ==> s[k].0@.endpoints[e] == s[0].0@.endpoints[e]
                && !names.take(k).contains(e),
        forall|i: int, j: int| 0 <= i < j < k ==> names[i] != names[j],
        s[k].0@.endpoints.dom().finite(),
        s[k].0@.endpoints.dom().len() == s[0].0@.endpoints.dom().len() + k,
    decreases k,
{
    crate::machine::law_room_for_threads_and_endpoints(s[0].0);
    if k > 0 {
        lemma_made_so_far(s, names, k - 1);
        let (a, b) = (s[k - 1].0, s[k].0);
        let ep = names[k - 1];
        assert(s[k - 1 + 1] == s[k]);
        assert(!a@.endpoints.contains_key(ep));
        assert(b@.endpoints == a@.endpoints.insert(ep, reap::quiet(0)));
        assert(b@.endpoints.dom() =~= a@.endpoints.dom().insert(ep));
        let (t, n) = (names.take(k - 1), names.take(k));
        assert forall|e: u64| n.contains(e) <==> t.contains(e) || e == ep by {
            if n.contains(e) {
                let i = choose|i: int| 0 <= i < n.len() && n[i] == e;
                if i < k - 1 {
                    assert(t[i] == e);
                }
            }
            if t.contains(e) {
                let i = choose|i: int| 0 <= i < t.len() && t[i] == e;
                assert(n[i] == e);
            }
            assert(n[k - 1] == ep);
        }
        assert forall|i: int, j: int| 0 <= i < j < k implies names[i] != names[j] by {
            if j == k - 1 {
                assert(t[i] == names[i]);
                assert(t.contains(names[i]));
            }
        }
    } else {
        assert(s[0].0@.endpoints.dom() =~= s[k].0@.endpoints.dom());
    }
}

/// **The kernel's supply of endpoints grows past one chunk.** However many endpoints are made in a
/// row, out of however many chunks, no two have one name, none has a name that was taken or spent
/// before, and all of them are registered at the end, beside everything that was registered before
/// and in the state it was in.
pub proof fn law_the_endpoint_supply_grows(s: Seq<(Machine, Untyped, Memory)>, names: Seq<u64>)
    requires
        s.len() > 0,
        s[0].0.wf(),
        made_in_turn(s, names),
    ensures
        forall|i: int, j: int| 0 <= i < j < names.len() ==> names[i] != names[j],
        forall|i: int|
            0 <= i < names.len() ==> {
                let first = s[0].0;
                let last = s.last().0;
                &&& !first@.endpoints.contains_key(#[trigger] names[i])
                &&& !slots::spent(first.endpoints.slots@, names[i])
                &&& last@.endpoints.contains_key(names[i])
            },
        forall|e: u64| #[trigger]
            s[0].0@.endpoints.contains_key(e) ==> s.last().0@.endpoints.contains_key(e)
                && s.last().0@.endpoints[e] == s[0].0@.endpoints[e],
{
    let n = names.len() as int;
    lemma_made_so_far(s, names, n);
    assert(names.take(n) =~= names);
    assert forall|i: int| 0 <= i < n implies !s[0].0@.endpoints.contains_key(#[trigger] names[i])
        && !slots::spent(s[0].0.endpoints.slots@, names[i]) && s.last().0@.endpoints.contains_key(
        names[i],
    ) by {
        assert(names.contains(names[i]));
        lemma_made_so_far(s, names, i);
        assert(!slots::spent(s[i].0.endpoints.slots@, names[i]));
    }
}

/// How many pages the chunk at hand has to spare.
pub open spec fn pages_left(m: Machine, u: Untyped) -> int {
    if chunk_ready(m, u) {
        let run = u@[m@.kernel_ep_region->0];
        run.pages - run.spent
    } else {
        0
    }
}

/// What `k` calls of a run leave of the chunk at hand and of the next one.
proof fn lemma_pages_left(s: Seq<(Machine, Untyped, Memory)>, names: Seq<u64>, k: int)
    requires
        s.len() > 0,
        s[0].0.wf(),
        s[0].1.wf(),
        made_in_turn(s, names),
        0 <= k <= names.len(),
        can_carve(s[0].0, s[0].1, s[0].2),
        k < pages_left(s[0].0, s[0].1) + KERNEL_EP_CHUNK_PAGES,
    ensures
        s[k].1.wf(),
        s[k].0.running == s[0].0.running,
        ({
            let had = pages_left(s[0].0, s[0].1);
            if k <= had {
                &&& pages_left(s[k].0, s[k].1) == had - k
                &&& can_carve(s[k].0, s[k].1, s[k].2)
            } else {
                pages_left(s[k].0, s[k].1) == had + KERNEL_EP_CHUNK_PAGES - k
            }
        }),
    decreases k,
{
    if k > 0 {
        lemma_pages_left(s, names, k - 1);
        let (a, b) = (s[k - 1], s[k]);
        let ep = names[k - 1];
        assert(s[k - 1 + 1] == s[k]);
        assert(made(a.0, a.1, a.2, ep, b.0, b.1, b.2));
        if chunk_ready(a.0, a.1) {
            let region = a.0@.kernel_ep_region->0;
            assert(b.1@.dom() =~= a.1@.dom());
            slots::law_room_is_what_is_left(a.1.regions);
            slots::law_room_is_what_is_left(b.1.regions);
            assert(a.1@[region].ok());
        }
    }
}

/// **A chunk that is spent is no end.** Where one more chunk can be carved, as many calls in a row
/// succeed as the chunk at hand has pages to spare and the next one holds, as long as the registry
/// has slots: after any run that is shorter the next endpoint can be made.
pub proof fn law_the_next_endpoint_can_be_made(s: Seq<(Machine, Untyped, Memory)>, names: Seq<u64>)
    requires
        s.len() > 0,
        s[0].0.wf(),
        s[0].1.wf(),
        s[0].0.running,
        made_in_turn(s, names),
        can_carve(s[0].0, s[0].1, s[0].2),
        names.len() < pages_left(s[0].0, s[0].1) + KERNEL_EP_CHUNK_PAGES,
        s[0].0@.endpoints.dom().len() + slots::retired(s[0].0.endpoints.slots@) + names.len()
            < MAX_ENDPOINTS,
    ensures
        can_make(s.last().0, s.last().1, s.last().2),
{
    let n = names.len() as int;
    lemma_made_so_far(s, names, n);
    lemma_pages_left(s, names, n);
    crate::machine::law_room_for_threads_and_endpoints(s.last().0);
}

/// An embryo in `page`, paid for by `region`.
pub open spec fn unborn(page: u64, region: u64) -> TView {
    TView {
        tcb_kmem: false,
        tcb_region: Some(region),
        ..crate::thread::fresh(State::Embryo, false, None, page)
    }
}

/// **Make a thread out of a page of `region`**: an embryo, in the table and in no queue. `None` if
/// the region is out of pages, or the table is full: then the page is spent and stays the region's.
pub fn create_tcb(m: &mut Machine, u: &mut Untyped, region: u64) -> (r: Option<Tid>)
    requires
        old(m).wf(),
        old(u).wf(),
    ensures
        final(m).wf(),
        final(u).wf(),
        old(m).same_names(*final(m)),
        old(u).stays(*final(u)),
        super::reap::housed(old(m)@, *old(u)) ==> super::reap::housed(final(m)@, *final(u)),
        final(u)@ == (if can_spend(*old(u), region) {
            after_spend(old(u)@, region)
        } else {
            old(u)@
        }),
        r is Some <==> can_spend(*old(u), region) && old(m).running && old(m).threads.has_room(),
        match r {
            Some(tid) => {
                &&& slots::mints(old(m).threads.slots@, tid)
                &&& final(m)@ == old(m)@.with_thread(
                    tid,
                    (TView { id: tid, ..unborn(old(u)@[region].next_page(), region) }),
                )
            },
            None => *final(m) == *old(m),
        },
        r matches Some(tid) ==> {
            let t = final(m)@.threads[tid];
            let run = old(u)@[region];
            &&& !old(m)@.threads.contains_key(tid) && final(m)@.threads.contains_key(tid)
            &&& t.id == tid && t.state == State::Embryo && !t.on_cpu
            &&& t.page == run.base + 4096 * run.spent && t.tcb_region == Some(region)
            &&& final(u)@[region].spent == run.spent + 1
        },
        forall|x: Tid| #[trigger]
            old(m)@.threads.contains_key(x) ==> final(m)@.threads.contains_key(x)
                && final(m)@.threads[x] == old(m)@.threads[x],
        final(m)@.cpus == old(m)@.cpus && final(m)@.endpoints == old(m)@.endpoints,
{
    let page: u64 = match u.retype_object_page(region) {
        Some(page) => page,
        None => {
            return None;
        },
    };
    proof {
        if super::reap::housed(old(m)@, *old(u)) {
            super::reap::law_everybody_stays_housed(m@, *old(u), m@, *u);
        }
    }
    if !m.running {
        return None;
    }
    match m.insert_thread(Thread::embryo(page, region)) {
        Some(tid) => {
            proof {
                place::lemma_insert(
                    old(m)@,
                    tid,
                    TView { id: tid, ..unborn(old(u)@[region].next_page(), region) },
                );
            }
            Some(tid)
        },
        None => None,
    }
}

/// **Configure an embryo**: bind the address space named `aspace` to it, which from here on dies
/// with the thread, and set where it enters user mode and on what stack. Only an embryo can be
/// configured, so nothing changes under a running thread.
pub fn configure_tcb(
    m: &mut Machine,
    spaces: &mut Table<AddressSpace>,
    tid: Tid,
    entry: u64,
    user_sp: u64,
    aspace: u64,
) -> (r: Result<(), Error>)
    requires
        old(m).wf(),
        old(spaces).wf(),
    ensures
        final(m).wf(),
        final(spaces).wf(),
        old(m).same_room(*final(m)),
        old(m)@.settled(final(m)@),
        ({
            let t = old(m)@.threads[tid];
            if !old(m)@.threads.contains_key(tid) {
                r == Err::<(), Error>(Error::NoSuchSlot) && *final(m) == *old(m) && *final(spaces)
                    == *old(spaces)
            } else if t.state != State::Embryo {
                r == Err::<(), Error>(Error::WrongObject) && *final(m) == *old(m) && *final(spaces)
                    == *old(spaces)
            } else if !old(spaces)@.contains_key(aspace) {
                r == Err::<(), Error>(Error::NoSuchSlot) && *final(m) == *old(m) && *final(spaces)
                    == *old(spaces)
            } else {
                &&& r == Ok::<(), Error>(())
                &&& final(m)@ == old(m)@.with_thread(
                    tid,
                    (TView {
                        space: Some(old(spaces)@[aspace]),
                        entry: (entry, user_sp),
                        ..t
                    }),
                )
                &&& final(spaces)@ == old(spaces)@.remove(aspace)
                &&& old(spaces).sheds(*final(spaces))
            }
        }),
        r is Ok <==> old(m)@.threads.contains_key(tid) && old(m)@.threads[tid].state
            == State::Embryo && old(spaces)@.contains_key(aspace),
        r is Ok ==> {
            let t = final(m)@.threads[tid];
            &&& t.state == State::Embryo
            &&& t.space == Some(old(spaces)@[aspace])
            &&& t.entry.0 == entry && t.entry.1 == user_sp
            &&& !final(spaces)@.contains_key(aspace)
        },
        r is Err ==> final(m)@ == old(m)@ && final(spaces)@ == old(spaces)@,
        forall|x: Tid| #[trigger]
            old(m)@.threads.contains_key(x) && x != tid ==> final(m)@.threads[x]
                == old(m)@.threads[x],
{
    match m.thread(tid) {
        Some(t) => {
            if t.state != State::Embryo {
                return Err(Error::WrongObject);
            }
        },
        None => {
            return Err(Error::NoSuchSlot);
        },
    }
    let space: AddressSpace = match spaces.remove(aspace) {
        Some(space) => space,
        None => {
            return Err(Error::NoSuchSlot);
        },
    };
    if let Some(t) = m.thread_mut(tid) {
        t.space = Some(space);
        t.entry = (entry, user_sp);
    }
    proof {
        let t = old(m)@.threads[tid];
        let t2 = TView { space: Some(space), entry: (entry, user_sp), ..t };
        steps::lemma_plain_threads(old(m)@, tid);
        steps::lemma_plain(old(m)@, tid, t2);
    }
    Ok(())
}

/// **Give an embryo a capability**: part of what it starts out with. Into the first free slot, or
/// into `target`, which is how a builder leaves the supervision endpoint where starting the thread
/// looks for it. A taken slot is never overwritten. Says which slot it is.
pub fn tcb_insert_cap(m: &mut Machine, tid: Tid, cap: Cap, target: Option<u64>) -> (r: Result<
    u64,
    Error,
>)
    requires
        old(m).wf(),
    ensures
        final(m).wf(),
        old(m).same_room(*final(m)),
        old(m)@.settled(final(m)@),
        ({
            let t = old(m)@.threads[tid];
            let slot: int = match target {
                Some(slot) => slot as int,
                None => crate::cap::free_slot(t.cspace, 0),
            };
            if !old(m)@.threads.contains_key(tid) {
                r == Err::<u64, Error>(Error::NoSuchSlot) && *final(m) == *old(m)
            } else if t.state != State::Embryo {
                r == Err::<u64, Error>(Error::WrongObject) && *final(m) == *old(m)
            } else if slot >= CSPACE_SLOTS || t.cspace[slot] is Some {
                r == Err::<u64, Error>(Error::OutOfMemory) && final(m)@ == old(m)@
            } else {
                &&& r == Ok::<u64, Error>(slot as u64)
                &&& final(m)@ == old(m)@.with_thread(
                    tid,
                    (TView { cspace: t.cspace.update(slot, Some(cap)), ..t }),
                )
            }
        }),
        r matches Ok(slot) ==> {
            let (t, u) = (old(m)@.threads[tid], final(m)@.threads[tid]);
            &&& slot < 16 && t.cspace[slot as int] is None && u.cspace[slot as int] == Some(cap)
            &&& target is Some ==> slot == target->0
            &&& forall|i: int|
                0 <= i < 16 && i != slot ==> #[trigger] u.cspace[i] == t.cspace[i]
            &&& target is None ==> forall|i: int| 0 <= i < slot ==> #[trigger] t.cspace[i] is Some
            &&& u.state == State::Embryo
        },
        r is Err ==> final(m)@ == old(m)@,
        forall|x: Tid| #[trigger]
            old(m)@.threads.contains_key(x) && x != tid ==> final(m)@.threads[x]
                == old(m)@.threads[x],
{
    let ghost t = old(m)@.threads[tid];
    let mut cspace = match m.thread(tid) {
        Some(t) => {
            if t.state != State::Embryo {
                return Err(Error::WrongObject);
            }
            t.cspace
        },
        None => {
            return Err(Error::NoSuchSlot);
        },
    };
    proof {
        steps::lemma_plain_threads(old(m)@, tid);
        crate::cap::lemma_free_slot(t.cspace, 0);
    }
    let slot: u64 = match target {
        None => match cspace.insert(cap) {
            Ok(slot) => slot,
            Err(_) => {
                return Err(Error::OutOfMemory);
            },
        },
        Some(at) => match cspace.insert_at(at, cap) {
            Ok(slot) => slot,
            Err(_) => {
                return Err(Error::OutOfMemory);
            },
        },
    };
    if let Some(x) = m.thread_mut(tid) {
        x.cspace = cspace;
    }
    proof {
        steps::lemma_plain(old(m)@, tid, TView { cspace: cspace@, ..t });
    }
    Ok(slot)
}

/// The thread with its supervision fixed: an endpoint capability in the reserved slot becomes the
/// place its death is reported to, and leaves the slot, so the thread cannot forge reports on it.
pub open spec fn supervised(t: TView, slot: u64) -> TView {
    if slot < CSPACE_SLOTS {
        match t.cspace[slot as int] {
            Some(cap) => match cap.object {
                Object::Endpoint(ep) => TView {
                    fault_ep: Some(ep),
                    cspace: t.cspace.update(slot as int, None),
                    ..t
                },
                _ => t,
            },
            None => t,
        }
    } else {
        t
    }
}

/// Fix an embryo's supervision, and what it starts with.
fn outfit(m: &mut Machine, abi: FaultAbi, tid: Tid, args: [u64; 3])
    requires
        old(m).wf(),
        old(m)@.threads.contains_key(tid),
        old(m)@.threads[tid].state == State::Embryo,
    ensures
        final(m).wf(),
        super::steady(*old(m), *final(m)),
        ({
            let t = supervised(old(m)@.threads[tid], abi.fault_ep_slot);
            final(m)@ == old(m)@.with_thread(tid, (TView { start_args: args@, ..t }))
        }),
{
    let ghost t = old(m)@.threads[tid];
    proof {
        steps::lemma_plain_threads(old(m)@, tid);
        let t1 = TView { start_args: args@, ..supervised(t, abi.fault_ep_slot) };
        steps::lemma_plain(old(m)@, tid, t1);
    }
    if let Some(x) = m.thread_mut(tid) {
        if let Ok(cap) = x.cspace.get(abi.fault_ep_slot) {
            if let Object::Endpoint(ep) = cap.object {
                x.fault_ep = Some(ep);
                let _ = x.cspace.delete(abi.fault_ep_slot);
            }
        }
        x.start_args = args;
    }
}

/// **Start an embryo.** A thread that is not whole, with no address space bound or no entry point
/// set, is refused: it must never run. A whole one has its supervision fixed for good, gets the
/// kernel stack that ends at `stack_top`, and goes to the core that [`super::pick_spawn_target`]
/// says; `Ok` names the core to poke, if it is another one.
///
/// Without a stack the thread stays an embryo, supervised as it will be.
pub fn start_tcb(
    m: &mut Machine,
    cpu: usize,
    abi: FaultAbi,
    tid: Tid,
    args: [u64; 3],
    samples: (u64, u64),
    stack_top: Option<u64>,
) -> (r: Result<Option<usize>, Error>)
    requires
        old(m).wf(),
        cpu < MAX_CPUS,
    ensures
        final(m).wf(),
        old(m).same_room(*final(m)),
        old(m)@.settled(final(m)@),
        ({
            let t = old(m)@.threads[tid];
            let outfitted = TView { start_args: args@, ..supervised(t, abi.fault_ep_slot) };
            let target = old(m)@.lighter(cpu as int, samples.0, samples.1);
            if !old(m)@.threads.contains_key(tid) {
                r == Err::<Option<usize>, Error>(Error::NoSuchSlot) && *final(m) == *old(m)
            } else if t.state != State::Embryo {
                r == Err::<Option<usize>, Error>(Error::WrongObject) && *final(m) == *old(m)
            } else if t.space is None || t.entry.0 == 0 {
                r == Err::<Option<usize>, Error>(Error::NotPermitted) && *final(m) == *old(m)
            } else if stack_top is None {
                &&& r == Err::<Option<usize>, Error>(Error::OutOfMemory)
                &&& final(m)@ == old(m)@.with_thread(tid, outfitted)
            } else {
                &&& r == Ok::<Option<usize>, Error>(
                    if target != cpu {
                        Some(target as usize)
                    } else {
                        None
                    },
                )
                &&& final(m)@ == old(m)@.with_thread(
                    tid,
                    (TView { state: State::Ready, stack_top, ..outfitted }),
                ).placed(cpu as int, target, tid)
            }
        }),
        r is Ok <==> {
            let t = old(m)@.threads[tid];
            &&& old(m)@.threads.contains_key(tid) && t.state == State::Embryo
            &&& t.space is Some && t.entry.0 != 0 && stack_top is Some
        },
        r matches Ok(poke) ==> {
            let (t, u) = (old(m)@.threads[tid], final(m)@.threads[tid]);
            &&& u.state == State::Ready && u.stack_top == stack_top && u.start_args == args@
            &&& u.entry == t.entry && u.space == t.space
            &&& match poke {
                Some(p) => p < MAX_CPUS && p != cpu && final(m)@.cpus[p as int].inbox
                    == old(m)@.cpus[p as int].inbox.push(tid),
                None => final(m)@.cpus[cpu as int].runq == old(m)@.cpus[cpu as int].runq.push(tid),
            }
        },
        r is Err ==> final(m)@.cpus == old(m)@.cpus,
        forall|x: Tid| #[trigger]
            old(m)@.threads.contains_key(x) && x != tid ==> final(m)@.threads[x]
                == old(m)@.threads[x],
{
    let ghost t = old(m)@.threads[tid];
    match m.thread(tid) {
        Some(t) => {
            if t.state != State::Embryo {
                return Err(Error::WrongObject);
            }
            if t.space.is_none() || t.entry.0 == 0 {
                return Err(Error::NotPermitted);
            }
        },
        None => {
            return Err(Error::NoSuchSlot);
        },
    }
    outfit(m, abi, tid, args);
    if stack_top.is_none() {
        return Err(Error::OutOfMemory);
    }
    let target: usize = super::pick_spawn_target(m, cpu, samples);
    let ghost mid = m@;
    proof {
        steps::lemma_plain_threads(mid, tid);
        let t2 = TView { state: State::Ready, stack_top, ..mid.threads[tid] };
        place::lemma_start(mid, cpu as int, target as int, tid, t2);
        assert(mid.with_thread(tid, t2).threads =~= old(m)@.with_thread(tid, t2).threads);
    }
    if let Some(x) = m.thread_mut(tid) {
        x.state = State::Ready;
        x.stack_top = stack_top;
    }
    super::place_on(m, cpu, target, tid);
    Ok(
        if target != cpu {
            Some(target)
        } else {
            None
        },
    )
}

/// **What a region pays for an object.** Its next page is spent and pinned to it; where it lies, how
/// long it is and what it was split off stay; and no other region pays anything.
pub proof fn law_what_a_region_pays(u: Map<u64, Run>, region: u64, other: u64)
    requires
        u.contains_key(region),
        u[region].spent < u[region].pages,
        other != region,
    ensures
        ({
            let v = after_spend(u, region);
            &&& v.contains_key(region)
            &&& v[region].spent - u[region].spent == 1
            &&& v[region].pinned
            &&& v[region].base == u[region].base
            &&& v[region].pages == u[region].pages
            &&& v[region].parent == u[region].parent
            &&& v.contains_key(other) <==> u.contains_key(other)
            &&& v[other] == u[other]
        }),
{
}

/// **A fresh chunk is whole but for its first page**, belongs to nobody, and is pinned; the machine
/// remembers it and counts it, and nothing else changes.
pub proof fn law_what_carving_a_chunk_does(m: MView, region: u64, base: u64)
    ensures
        opened_chunk(base).base == base,
        opened_chunk(base).pages == KERNEL_EP_CHUNK_PAGES,
        opened_chunk(base).spent == 1,
        opened_chunk(base).pinned,
        opened_chunk(base).parent is None,
        carved(m, region).kernel_ep_region == Some(region),
        carved(m, region).kernel_ep_chunks - m.kernel_ep_chunks == 1,
        carved(m, region) == (MView {
            kernel_ep_region: carved(m, region).kernel_ep_region,
            kernel_ep_chunks: carved(m, region).kernel_ep_chunks,
            ..m
        }),
{
}

/// **An embryo is a page that its region paid for, and nothing else yet**: it holds nothing, stands on
/// no core, owns no stack, and is not the kernel's.
pub proof fn law_what_an_embryo_is(page: u64, region: u64, i: int)
    ensures
        ({
            let t = unborn(page, region);
            &&& t.state == State::Embryo
            &&& t.page == page
            &&& t.tcb_region == Some(region)
            &&& !t.tcb_kmem && !t.on_cpu && !t.killed && !t.wake_pending && !t.ipc_aborted
            &&& t.stack_top is None && t.space is None && t.quota is None
            &&& t.fault_ep is None && t.fault_msg is None && t.outgoing_cap is None
            &&& t.cspace.len() == 16 && t.mailbox.len() == 5
            &&& 0 <= i < 16 ==> t.cspace[i] is None
            &&& 0 <= i < 5 ==> t.mailbox[i] == 0
        }),
{
}

/// **Who supervises a thread, and that it cannot report for itself.** An endpoint in the reserved slot
/// is where the thread's death is reported, and the slot is empty afterwards. Anything else there, or
/// nothing, changes nothing; and no other slot is touched.
pub proof fn law_who_supervises(t: TView, slot: u64, i: int)
    requires
        t.cspace.len() == 16,
        0 <= i < 16,
    ensures
        ({
            let s = supervised(t, slot);
            let named = slot < 16 && t.cspace[slot as int] is Some && (
            t.cspace[slot as int]->0).object is Endpoint;
            &&& s == (TView { fault_ep: s.fault_ep, cspace: s.cspace, ..t })
            &&& s.cspace.len() == 16
            &&& named ==> {
                &&& s.fault_ep is Some
                &&& (t.cspace[slot as int]->0).object == Object::Endpoint(s.fault_ep->0)
                &&& s.cspace[slot as int] is None
            }
            &&& !named ==> s == t
            &&& i != slot ==> s.cspace[i] == t.cspace[i]
        }),
{
}

} // verus!
