//! The capabilities the running thread holds, and what it owns besides.
use vstd::prelude::*;

use crate::cap::{Cap, Error, Object, Tid, CSPACE_SLOTS};
use crate::cpu::MAX_CPUS;
use crate::machine::Machine;
use crate::model::steps;
use crate::model::MView;
use crate::thread::{AddressSpace, TView};

verus! {

/// Delete every capability naming `object` from every table but `keeper`'s.
fn delete_caps(m: &mut Machine, object: Object, keeper: Option<Tid>)
    requires
        old(m).wf(),
    ensures
        final(m).wf(),
        old(m).same_room(*final(m)),
        old(m)@.settled(final(m)@),
        final(m)@ == old(m)@.without_caps(object, keeper),
{
    let names = m.threads.names();
    let ghost a = old(m)@;
    let ghost swept = a.without_caps(object, keeper);
    let mut i: usize = 0;
    while i < names.len()
        invariant
            i <= names@.len(),
            m.wf(),
            old(m).same_room(*m),
            old(m)@.settled(m@),
            a == old(m)@,
            swept == a.without_caps(object, keeper),
            names@.no_duplicates(),
            forall|t: Tid| #[trigger] names@.contains(t) <==> a.threads.contains_key(t),
            m@ == (MView { threads: m@.threads, ..a }),
            m@.threads.dom() == a.threads.dom(),
            forall|j: int| 0 <= j < i ==> m@.threads[#[trigger] names@[j]] == swept.threads[names@[j]],
            forall|j: int|
                i <= j < names@.len() ==> m@.threads[#[trigger] names@[j]] == a.threads[names@[j]],
        decreases names@.len() - i,
    {
        let tid: Tid = names[i];
        let ghost before = *m;
        assert(names@.contains(tid));
        assert(m@.threads.contains_key(tid));
        proof {
            steps::lemma_plain_threads(m@, tid);
            steps::lemma_plain(m@, tid, swept.threads[tid]);
        }
        let spared = match keeper {
            Some(k) => k == tid,
            None => false,
        };
        if !spared {
            if let Some(t) = m.thread_mut(tid) {
                t.cspace.delete_object(object);
            }
        }
        proof {
            assert(m@.threads =~= before@.threads.insert(tid, swept.threads[tid]));
            assert(m@ =~= before@.with_thread(tid, swept.threads[tid]));
            assert(m@.threads.dom() =~= a.threads.dom());
        }
        i += 1;
    }
    proof {
        assert forall|t: Tid| m@.threads.contains_key(t) implies m@.threads[t]
            == swept.threads[t] by {
            assert(names@.contains(t));
            let j = choose|j: int| 0 <= j < names@.len() && names@[j] == t;
            assert(m@.threads[names@[j]] == swept.threads[names@[j]]);
        }
        assert(m@.threads =~= swept.threads);
        assert(m@ =~= swept);
    }
}

/// Delete every capability naming the page at `phys`, whoever holds it. A page that is being
/// revoked must leave nobody able to map it again.
pub fn delete_frame_caps(m: &mut Machine, phys: u64)
    requires
        old(m).wf(),
    ensures
        final(m).wf(),
        old(m).same_room(*final(m)),
        old(m)@.settled(final(m)@),
        final(m)@ == old(m)@.without_caps(Object::Frame(phys), None),
{
    delete_caps(m, Object::Frame(phys), None);
}

/// Delete every capability naming a page in `[base, end)`, whoever holds it or is sending it.
pub fn delete_frame_caps_between(m: &mut Machine, base: u64, end: u64)
    requires
        old(m).wf(),
    ensures
        final(m).wf(),
        old(m).same_room(*final(m)),
        old(m)@.settled(final(m)@),
        final(m)@ == old(m)@.without_frames(base as int, end as int),
{
    let names = m.threads.names();
    let ghost a = old(m)@;
    let ghost swept = a.without_frames(base as int, end as int);
    let mut i: usize = 0;
    while i < names.len()
        invariant
            i <= names@.len(),
            m.wf(),
            old(m).same_room(*m),
            old(m)@.settled(m@),
            a == old(m)@,
            swept == a.without_frames(base as int, end as int),
            names@.no_duplicates(),
            forall|t: Tid| #[trigger] names@.contains(t) <==> a.threads.contains_key(t),
            m@ == (MView { threads: m@.threads, ..a }),
            m@.threads.dom() == a.threads.dom(),
            forall|j: int| 0 <= j < i ==> m@.threads[#[trigger] names@[j]] == swept.threads[names@[j]],
            forall|j: int|
                i <= j < names@.len() ==> m@.threads[#[trigger] names@[j]] == a.threads[names@[j]],
        decreases names@.len() - i,
    {
        let tid: Tid = names[i];
        let ghost before = *m;
        assert(names@.contains(tid));
        assert(m@.threads.contains_key(tid));
        proof {
            steps::lemma_plain_threads(m@, tid);
            steps::lemma_plain(m@, tid, swept.threads[tid]);
        }
        if let Some(t) = m.thread_mut(tid) {
            t.cspace.delete_frames(base, end);
            if crate::cap::is_page_of(&t.outgoing_cap, base, end) {
                t.outgoing_cap = None;
            }
        }
        proof {
            assert(m@.threads =~= before@.threads.insert(tid, swept.threads[tid]));
            assert(m@ =~= before@.with_thread(tid, swept.threads[tid]));
            assert(m@.threads.dom() =~= a.threads.dom());
        }
        i += 1;
    }
    proof {
        assert forall|t: Tid| m@.threads.contains_key(t) implies m@.threads[t]
            == swept.threads[t] by {
            assert(names@.contains(t));
            let j = choose|j: int| 0 <= j < names@.len() && names@[j] == t;
            assert(m@.threads[names@[j]] == swept.threads[names@[j]]);
        }
        assert(m@.threads =~= swept.threads);
        assert(m@ =~= swept);
    }
}

/// Delete every capability naming the device registers at `phys`, except the running thread's:
/// taking a device back to hand it on is not giving it up.
pub fn delete_device_frame_caps_from_others(m: &mut Machine, cpu: usize, phys: u64)
    requires
        old(m).wf(),
        cpu < MAX_CPUS,
    ensures
        final(m).wf(),
        old(m).same_room(*final(m)),
        old(m)@.settled(final(m)@),
        final(m)@ == old(m)@.without_caps(
            Object::DeviceFrame(phys),
            Some(old(m)@.current(cpu as int)),
        ),
{
    let keeper: Tid = m.cpus[cpu].current;
    delete_caps(m, Object::DeviceFrame(phys), Some(keeper));
}

/// Remove a capability from the running thread's table. This is how a one-shot capability is used
/// up.
pub fn delete_current_cap(m: &mut Machine, cpu: usize, slot: u64) -> (r: Result<(), Error>)
    requires
        old(m).wf(),
        cpu < MAX_CPUS,
    ensures
        final(m).wf(),
        old(m).same_room(*final(m)),
        old(m)@.settled(final(m)@),
        ({
            let me = old(m)@.current(cpu as int);
            let caps = old(m)@.threads[me].cspace;
            if old(m)@.threads.contains_key(me) && slot < CSPACE_SLOTS && caps[slot as int] is Some {
                &&& r is Ok
                &&& final(m)@ == old(m)@.with_cspace(cpu as int, caps.update(slot as int, None))
            } else {
                r == Err::<(), Error>(Error::NoSuchSlot) && final(m)@ == old(m)@
            }
        }),
        ({
            let me = old(m)@.current(cpu as int);
            let (before, after) = (old(m)@.threads[me].cspace, final(m)@.threads[me].cspace);
            &&& r is Ok ==> before[slot as int] is Some && after[slot as int] is None
            &&& forall|i: int|
                0 <= i < before.len() && i != slot ==> #[trigger] after[i] == before[i]
        }),
{
    let me: Tid = m.cpus[cpu].current;
    proof {
        if m@.threads.contains_key(me) {
            let t = m@.threads[me];
            steps::lemma_plain_threads(m@, me);
            if slot < CSPACE_SLOTS {
                steps::lemma_plain(
                    m@,
                    me,
                    TView { cspace: t.cspace.update(slot as int, None), ..t },
                );
            }
        }
    }
    match m.thread_mut(me) {
        Some(t) => {
            let r = t.cspace.delete(slot);
            proof {
                if r is Err {
                    assert(m@.threads =~= old(m)@.threads);
                }
            }
            r
        },
        None => Err(Error::NoSuchSlot),
    }
}

/// Look up a capability in the running thread's table. An empty slot is not a refusal: there is
/// nothing there.
pub fn current_cap(m: &Machine, cpu: usize, slot: u64) -> (r: Result<Cap, Error>)
    requires
        m.wf(),
        cpu < MAX_CPUS,
    ensures
        ({
            let me = m@.current(cpu as int);
            match r {
                Ok(cap) => {
                    &&& m@.threads.contains_key(me)
                    &&& slot < CSPACE_SLOTS
                    &&& m@.threads[me].cspace[slot as int] == Some(cap)
                },
                Err(e) => {
                    &&& e == Error::NoSuchSlot
                    &&& !m@.threads.contains_key(me) || slot >= CSPACE_SLOTS
                        || m@.threads[me].cspace[slot as int] is None
                },
            }
        }),
{
    match m.thread(m.cpus[cpu].current) {
        Some(t) => t.cspace.get(slot),
        None => Err(Error::NoSuchSlot),
    }
}

/// **Hand the running thread a capability**, in its lowest empty slot. The only way authority
/// enters a process.
pub fn grant(m: &mut Machine, cpu: usize, cap: Cap) -> (r: Result<u64, Error>)
    requires
        old(m).wf(),
        cpu < MAX_CPUS,
    ensures
        final(m).wf(),
        old(m).same_room(*final(m)),
        old(m)@.settled(final(m)@),
        ({
            let me = old(m)@.current(cpu as int);
            let caps = old(m)@.threads[me].cspace;
            let slot = crate::cap::free_slot(caps, 0);
            if old(m)@.threads.contains_key(me) && slot < CSPACE_SLOTS {
                &&& r == Ok::<u64, Error>(slot as u64)
                &&& final(m)@ == old(m)@.with_cspace(cpu as int, caps.update(slot, Some(cap)))
            } else {
                r == Err::<u64, Error>(Error::NoFreeSlot) && final(m)@ == old(m)@
            }
        }),
        r matches Ok(slot) ==> {
            let me = old(m)@.current(cpu as int);
            let (before, after) = (old(m)@.threads[me].cspace, final(m)@.threads[me].cspace);
            &&& slot < 16 && before[slot as int] is None && after[slot as int] == Some(cap)
            &&& forall|i: int|
                0 <= i < before.len() && i != slot ==> #[trigger] after[i] == before[i]
            &&& forall|i: int| 0 <= i < slot ==> #[trigger] before[i] is Some
        },
{
    let me: Tid = m.cpus[cpu].current;
    proof {
        if m@.threads.contains_key(me) {
            let t = m@.threads[me];
            steps::lemma_plain_threads(m@, me);
            crate::cap::lemma_free_slot(t.cspace, 0);
            let cspace = crate::cap::with_inserted(t.cspace, cap);
            steps::lemma_plain(m@, me, TView { cspace, ..t });
        }
    }
    match m.thread_mut(me) {
        Some(t) => {
            let r = t.cspace.insert(cap);
            proof {
                if r is Err {
                    assert(m@.threads =~= old(m)@.threads);
                }
            }
            r
        },
        None => Err(Error::NoFreeSlot),
    }
}

/// Hand the running thread a capability in a given slot, leaving lower ones empty: some slots are
/// known by their number, and that one of them is empty means something.
pub fn grant_at(m: &mut Machine, cpu: usize, slot: u64, cap: Cap) -> (r: Result<u64, Error>)
    requires
        old(m).wf(),
        cpu < MAX_CPUS,
    ensures
        final(m).wf(),
        old(m).same_room(*final(m)),
        old(m)@.settled(final(m)@),
        ({
            let me = old(m)@.current(cpu as int);
            let caps = old(m)@.threads[me].cspace;
            if !old(m)@.threads.contains_key(me) {
                r == Err::<u64, Error>(Error::NoFreeSlot) && final(m)@ == old(m)@
            } else if slot >= CSPACE_SLOTS {
                r == Err::<u64, Error>(Error::NoSuchSlot) && final(m)@ == old(m)@
            } else if caps[slot as int] is Some {
                r == Err::<u64, Error>(Error::NoFreeSlot) && final(m)@ == old(m)@
            } else {
                &&& r == Ok::<u64, Error>(slot)
                &&& final(m)@ == old(m)@.with_cspace(
                    cpu as int,
                    caps.update(slot as int, Some(cap)),
                )
            }
        }),
        r matches Ok(s) ==> {
            let me = old(m)@.current(cpu as int);
            let (before, after) = (old(m)@.threads[me].cspace, final(m)@.threads[me].cspace);
            &&& s == slot && before[slot as int] is None && after[slot as int] == Some(cap)
            &&& forall|i: int|
                0 <= i < before.len() && i != slot ==> #[trigger] after[i] == before[i]
        },
{
    let me: Tid = m.cpus[cpu].current;
    proof {
        if m@.threads.contains_key(me) {
            let t = m@.threads[me];
            steps::lemma_plain_threads(m@, me);
            if slot < CSPACE_SLOTS {
                let cspace = t.cspace.update(slot as int, Some(cap));
                steps::lemma_plain(m@, me, TView { cspace, ..t });
            }
        }
    }
    match m.thread_mut(me) {
        Some(t) => {
            let r = t.cspace.insert_at(slot, cap);
            proof {
                if r is Err {
                    assert(m@.threads =~= old(m)@.threads);
                }
            }
            r
        },
        None => Err(Error::NoFreeSlot),
    }
}

/// Give the running thread an address space. From here on every switch to the thread installs it,
/// and it is torn down with the thread. What comes back is the word to install now.
pub fn adopt_address_space(m: &mut Machine, cpu: usize, space: AddressSpace) -> (ttbr0: u64)
    requires
        old(m).wf(),
        cpu < MAX_CPUS,
        old(m)@.threads.contains_key(old(m)@.current(cpu as int)),
    ensures
        final(m).wf(),
        old(m).same_room(*final(m)),
        old(m)@.settled(final(m)@),
        ttbr0 == space.ttbr0,
        ({
            let me = old(m)@.current(cpu as int);
            final(m)@ == old(m)@.with_thread(
                me,
                TView { space: Some(space), ..old(m)@.threads[me] },
            )
        }),
{
    let me: Tid = m.cpus[cpu].current;
    proof {
        steps::lemma_plain_threads(m@, me);
        steps::lemma_plain(m@, me, TView { space: Some(space), ..m@.threads[me] });
    }
    if let Some(t) = m.thread_mut(me) {
        t.space = Some(space);
    }
    space.ttbr0
}

/// The top of the running thread's kernel stack, where its trap frame belongs. `None` for a thread
/// that does not own the stack it runs on.
pub fn current_kernel_stack_top(m: &Machine, cpu: usize) -> (r: Option<u64>)
    requires
        m.wf(),
        cpu < MAX_CPUS,
    ensures
        ({
            let me = m@.current(cpu as int);
            r == (if m@.threads.contains_key(me) {
                m@.threads[me].stack_top
            } else {
                None
            })
        }),
{
    match m.thread(m.cpus[cpu].current) {
        Some(t) => t.stack_top,
        None => None,
    }
}

} // verus!
