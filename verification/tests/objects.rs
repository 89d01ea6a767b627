use cricker_os::abi::{Error, FaultAbi};
use cricker_os::cap::{endpoint_cap, untyped_cap, Rights, Tid};
use cricker_os::frames::{Region, FRAME_SIZE};
use cricker_os::machine::Machine;
use cricker_os::memory;
use cricker_os::memory::{Memory, MemoryMap};
use cricker_os::revoke;
use cricker_os::paging::{Flags, PageMap};
use cricker_os::revoke::{Halves, Mapping, Mappings, UserHalf};
use cricker_os::sched;
use cricker_os::sched::Reclaimed;
use cricker_os::slots::Table;
use cricker_os::thread::{AddressSpace, State};
use cricker_os::untyped::Untyped;

const ABI: FaultAbi = FaultAbi { event_exit: 1, event_fault: 2, fault_ep_slot: 15 };

const ROOT: u64 = 0x8000_0000_0008_0000;

struct World {
    m: Machine,
    u: Untyped,
    spaces: Table<AddressSpace>,
    db: Mappings,
    halves: Halves,
}

impl World {
    fn reclaim(&mut self, region: u64) -> Result<Reclaimed, ()> {
        sched::reclaim_region(
            &mut self.m,
            &mut self.u,
            &mut self.spaces,
            &mut self.db,
            &mut self.halves,
            0,
            region,
        )
    }

    /// Map `phys` at `va` under `root`, on the record.
    fn map(&mut self, phys: u64, root: u64, va: u64) {
        let i = match self.halves.halves.iter().position(|h| h.root == root) {
            Some(i) => i,
            None => {
                let map = PageMap::new(0, 0x3f_ffff_ffff);
                self.halves.halves.push(UserHalf { root, map });
                self.halves.halves.len() - 1
            }
        };
        assert_eq!(self.halves.halves[i].map.map(va, phys, Flags::user_data()), Ok(()));
        revoke::record_mapping(&mut self.db, phys, root, va);
    }
}

fn world() -> World {
    let mut m = Machine::new(1, vec![]);
    sched::init(&mut m, 0, 0x1000, 0x2000, 0x9000);
    World {
        m,
        u: Untyped::new(),
        spaces: Table::new(8),
        db: Mappings::new(),
        halves: Halves::new(),
    }
}

fn ram() -> Memory {
    let map = MemoryMap {
        ram: vec![Region { start: 0x8000_0000, size: 0x400_0000 }],
        reserved: vec![],
        image: Region { start: 0x8020_0000, size: 0x10_0000 },
        dtb: Region { start: 0x8200_0000, size: 0x2000 },
        initrd: None,
        intc: vec![],
    };
    memory::init(&map).unwrap()
}

fn go(m: &mut Machine) {
    sched::schedule(m, 0, ROOT);
    sched::finish_switch(m, 0);
}

/// An embryo of `region` with a space of its own, ready to be started.
fn built(w: &mut World, region: u64) -> Tid {
    let tid = sched::create_tcb(&mut w.m, &mut w.u, region).unwrap();
    let space = w.spaces.insert(AddressSpace { root: 0x40_0000, ttbr0: 0x41 }).unwrap();
    assert_eq!(
        sched::configure_tcb(&mut w.m, &mut w.spaces, tid, 0x1_0000, 0x2_0000, space),
        Ok(())
    );
    tid
}

#[test]
fn a_retyped_endpoint_carries_ipc_and_pins_its_region() {
    let mut w = world();
    let r = w.u.create(0x10_0000, 2).unwrap();
    let ep = sched::create_endpoint_from(&mut w.m, &mut w.u, r).unwrap();
    assert_eq!(w.m.endpoint_page(ep), Some(0x10_0000));
    assert_eq!(sched::ipc_recv(&mut w.m, 0, ep), None);
    // Pinned: the region cannot simply be dropped.
    assert_eq!(w.u.destroy(r), Err(()));
    let ep2 = sched::create_endpoint_from(&mut w.m, &mut w.u, r).unwrap();
    assert_eq!(w.m.endpoint_page(ep2), Some(0x10_1000));
    assert_eq!(sched::create_endpoint_from(&mut w.m, &mut w.u, r), None);
    assert_eq!(sched::create_endpoint_from(&mut w.m, &mut w.u, 0x99), None);
}

#[test]
fn the_kernels_endpoint_supply_grows_past_one_chunk() {
    let mut w = world();
    let mut mem = ram();
    let mut names: Vec<u64> = Vec::new();
    for _ in 0..33 {
        names.push(sched::create_endpoint(&mut w.m, &mut w.u, &mut mem));
    }
    assert_eq!(w.m.kernel_ep_chunks, 2);
    assert_eq!(memory::stats(&mem).total - memory::stats(&mem).free(), memory::stats(&mem).used);
    for i in 0..33 {
        for j in 0..i {
            assert_ne!(names[i], names[j]);
        }
    }
    // All of them are there, also those of the chunk that is full.
    for ep in &names {
        assert_eq!(sched::endpoint_waiting_senders(&w.m, *ep), 0);
        sched::irq_notify(&mut w.m, 0, *ep);
        assert_eq!(sched::ipc_recv(&mut w.m, 0, *ep), Some([1, 0, 0, 0, 0]));
    }
    let first = w.m.endpoint_page(names[0]).unwrap();
    assert_eq!(w.m.endpoint_page(names[31]), Some(first + 31 * FRAME_SIZE));
    assert_eq!(w.m.endpoint_page(names[32]), Some(first + 32 * FRAME_SIZE));
}

#[test]
fn building_a_thread_refuses_what_is_not_ready() {
    let mut w = world();
    let r = w.u.create(0x10_0000, 4).unwrap();
    let boot = sched::current(&w.m, 0);
    let tid = sched::create_tcb(&mut w.m, &mut w.u, r).unwrap();
    assert_eq!(w.m.thread(tid).unwrap().state, State::Embryo);
    let cap = untyped_cap(r);
    assert_eq!(
        sched::start_tcb(&mut w.m, 0, ABI, tid, [1, 2, 3], (0, 0), Some(0xa000)),
        Err(Error::NotPermitted)
    );
    assert_eq!(
        sched::configure_tcb(&mut w.m, &mut w.spaces, tid, 1, 2, 0),
        Err(Error::NoSuchSlot)
    );
    assert_eq!(
        sched::configure_tcb(&mut w.m, &mut w.spaces, boot, 1, 2, 0),
        Err(Error::WrongObject)
    );
    assert_eq!(
        sched::configure_tcb(&mut w.m, &mut w.spaces, 0x99, 1, 2, 0),
        Err(Error::NoSuchSlot)
    );
    assert_eq!(sched::tcb_insert_cap(&mut w.m, 0x99, cap, None), Err(Error::NoSuchSlot));
    assert_eq!(sched::tcb_insert_cap(&mut w.m, boot, cap, None), Err(Error::WrongObject));
    assert_eq!(sched::tcb_insert_cap(&mut w.m, tid, cap, None), Ok(0));
    assert_eq!(sched::tcb_insert_cap(&mut w.m, tid, cap, Some(0)), Err(Error::OutOfMemory));
    assert_eq!(sched::tcb_insert_cap(&mut w.m, tid, cap, Some(16)), Err(Error::OutOfMemory));
    assert_eq!(sched::tcb_insert_cap(&mut w.m, tid, cap, Some(3)), Ok(3));
    assert_eq!(sched::tcb_insert_cap(&mut w.m, tid, cap, None), Ok(1));
    assert_eq!(
        sched::start_tcb(&mut w.m, 0, ABI, 0x99, [1, 2, 3], (0, 0), Some(0xa000)),
        Err(Error::NoSuchSlot)
    );
    assert_eq!(
        sched::start_tcb(&mut w.m, 0, ABI, boot, [1, 2, 3], (0, 0), Some(0xa000)),
        Err(Error::WrongObject)
    );
}

#[test]
fn a_built_thread_starts_and_its_supervisor_is_fixed() {
    let mut w = world();
    let r = w.u.create(0x10_0000, 4).unwrap();
    let ep = sched::create_endpoint_from(&mut w.m, &mut w.u, r).unwrap();
    let tid = built(&mut w, r);
    assert_eq!(w.spaces.len(), 0);
    let watch = endpoint_cap(ep, Rights::write());
    assert_eq!(sched::tcb_insert_cap(&mut w.m, tid, watch, Some(15)), Ok(15));
    assert_eq!(
        sched::start_tcb(&mut w.m, 0, ABI, tid, [1, 2, 3], (0, 0), None),
        Err(Error::OutOfMemory)
    );
    assert_eq!(sched::start_tcb(&mut w.m, 0, ABI, tid, [1, 2, 3], (0, 0), Some(0xa000)), Ok(None));
    let t = w.m.thread(tid).unwrap();
    assert_eq!(t.state, State::Ready);
    assert_eq!(t.fault_ep, Some(ep));
    assert_eq!(t.start_args, [1, 2, 3]);
    assert_eq!(t.entry, (0x1_0000, 0x2_0000));
    assert_eq!(t.tcb_region, Some(r));
    assert_eq!(
        sched::start_tcb(&mut w.m, 0, ABI, tid, [1, 2, 3], (0, 0), Some(0xa000)),
        Err(Error::WrongObject)
    );
    go(&mut w.m);
    assert_eq!(sched::current(&w.m, 0), tid);
}

#[test]
fn reclaim_frees_an_embryo_tcbs_region() {
    let mut w = world();
    let r = w.u.create(0x10_0000, 4).unwrap();
    let tid = sched::create_tcb(&mut w.m, &mut w.u, r).unwrap();
    let got = match w.reclaim(r) {
        Ok(got) => got,
        Err(()) => panic!("an embryo cannot run"),
    };
    assert_eq!(got.memory, Some((0x10_0000, 4 * FRAME_SIZE)));
    assert_eq!(got.threads.len(), 1);
    // The page belongs to the region and goes back with it.
    assert_eq!(got.threads[0].page, None);
    assert!(w.m.thread(tid).is_none());
    assert!(w.u.region_bounds(r).is_none());
    assert!(w.reclaim(r).is_err());
    // The slot is reused under another name.
    let again = w.u.create(0x10_0000, 4).unwrap();
    assert_ne!(again, r);
}

#[test]
fn reclaim_frees_an_unbound_address_spaces_region() {
    let mut w = world();
    let r = w.u.create(0x10_0000, 4).unwrap();
    let inside = w.spaces.insert(AddressSpace { root: 0x10_2000, ttbr0: 1 }).unwrap();
    let outside = w.spaces.insert(AddressSpace { root: 0x20_0000, ttbr0: 2 }).unwrap();
    let got = w.reclaim(r).ok().unwrap();
    assert_eq!(got.spaces, vec![AddressSpace { root: 0x10_2000, ttbr0: 1 }]);
    assert!(w.spaces.get(inside).is_none());
    assert!(w.spaces.get(outside).is_some());
}

#[test]
fn reclaim_waits_for_the_threads_that_can_still_run() {
    let mut w = world();
    let r = w.u.create(0x10_0000, 4).unwrap();
    let tid = built(&mut w, r);
    assert!(sched::start_tcb(&mut w.m, 0, ABI, tid, [0, 0, 0], (0, 0), Some(0xa000)).is_ok());
    assert!(w.reclaim(r).is_err());
    // Marked, and nothing else about it changed.
    assert!(w.m.thread(tid).unwrap().killed);
    assert_eq!(w.m.thread(tid).unwrap().state, State::Ready);
    go(&mut w.m);
    assert_eq!(sched::current(&w.m, 0), tid);
    sched::schedule(&mut w.m, 0, ROOT);
    let left = sched::finish_switch(&mut w.m, 0).unwrap();
    assert_eq!(left.stack_top, Some(0xa000));
    assert!(w.m.thread(tid).is_none());
    assert!(w.reclaim(r).is_ok());
}

#[test]
fn a_blocked_waiter_wakes_with_an_error_when_its_endpoint_is_revoked() {
    let mut w = world();
    let r = w.u.create(0x10_0000, 4).unwrap();
    let ep = sched::create_endpoint_from(&mut w.m, &mut w.u, r).unwrap();
    let boot = sched::current(&w.m, 0);
    assert_eq!(sched::ipc_recv(&mut w.m, 0, ep), None);
    go(&mut w.m);
    assert!(w.reclaim(r).is_ok());
    assert_eq!(w.m.thread(boot).unwrap().state, State::Ready);
    go(&mut w.m);
    assert_eq!(sched::current(&w.m, 0), boot);
    assert!(sched::take_ipc_aborted(&mut w.m, 0));
    assert!(w.m.endpoint_page(ep).is_none());
}

#[test]
fn only_the_supervisor_collects_and_only_the_dead() {
    let mut w = world();
    let kernel = w.u.create(0x20_0000, 4).unwrap();
    let ep = sched::create_endpoint_from(&mut w.m, &mut w.u, kernel).unwrap();
    let r = w.u.create(0x10_0000, 4).unwrap();
    let tid = built(&mut w, r);
    let watch = endpoint_cap(ep, Rights::write());
    assert!(sched::tcb_insert_cap(&mut w.m, tid, watch, Some(15)).is_ok());
    assert!(sched::start_tcb(&mut w.m, 0, ABI, tid, [0, 0, 0], (0, 0), Some(0xa000)).is_ok());
    assert_eq!(reap(&mut w, ep, tid), Err(Error::StillAlive));
    assert_eq!(reap(&mut w, ep + 1, tid), Err(Error::NotSupervised));
    assert_eq!(reap(&mut w, ep, 0x99), Err(Error::NotSupervised));
    go(&mut w.m);
    sched::exit(&mut w.m, 0, ABI);
    assert_eq!(w.m.thread(tid).unwrap().state, State::Dead);
    assert_eq!(reap(&mut w, ep + 1, tid), Err(Error::NotSupervised));
    go(&mut w.m);
    assert_eq!(sched::endpoint_waiting_senders(&w.m, ep), 1);
    assert_eq!(reap(&mut w, ep, tid), Ok(Some((0x10_0000, 4 * FRAME_SIZE))));
    // A corpse is collected once.
    assert_eq!(reap(&mut w, ep, tid), Err(Error::NotSupervised));
    // The corpse is off the endpoint it was parked on.
    assert_eq!(sched::endpoint_waiting_senders(&w.m, ep), 0);
    assert!(w.m.thread(tid).is_none());
}

fn reap(w: &mut World, ep: u64, tid: Tid) -> Result<Option<(u64, u64)>, Error> {
    sched::reap_supervised(
        &mut w.m,
        &mut w.u,
        &mut w.spaces,
        &mut w.db,
        &mut w.halves,
        0,
        ep,
        tid,
    )
    .map(|got| got.memory)
}

#[test]
fn a_region_with_children_is_not_reclaimed() {
    let mut w = world();
    let kernel = w.u.create(0x20_0000, 4).unwrap();
    let ep = sched::create_endpoint_from(&mut w.m, &mut w.u, kernel).unwrap();
    let r = w.u.create(0x10_0000, 4).unwrap();
    let tid = built(&mut w, r);
    let watch = endpoint_cap(ep, Rights::write());
    assert!(sched::tcb_insert_cap(&mut w.m, tid, watch, Some(15)).is_ok());
    assert!(sched::start_tcb(&mut w.m, 0, ABI, tid, [0, 0, 0], (0, 0), Some(0xa000)).is_ok());
    go(&mut w.m);
    sched::exit(&mut w.m, 0, ABI);
    go(&mut w.m);
    let child = w.u.split(r, 2).unwrap();
    assert!(w.u.has_children(r));
    assert_eq!(reap(&mut w, ep, tid), Err(Error::NotPermitted));
    assert!(w.m.thread(tid).is_some());
    assert_eq!(w.reclaim(child).ok().unwrap().memory, None);
    assert!(!w.u.has_children(r));
    assert_eq!(reap(&mut w, ep, tid), Ok(Some((0x10_0000, 4 * FRAME_SIZE))));
}

#[test]
fn revoke_unmaps_a_shared_page_from_every_address_space() {
    let mut w = world();
    let held = cricker_os::cap::frame_cap(0x5000, Rights::read());
    let other = cricker_os::cap::frame_cap(0x6000, Rights::read());
    assert_eq!(sched::grant(&mut w.m, 0, held), Ok(0));
    assert_eq!(sched::grant(&mut w.m, 0, other), Ok(1));
    w.map(0x5000, 0xa000, 0x40_0000);
    w.map(0x5000, 0xb000, 0x80_0000);
    w.map(0x6000, 0xb000, 0x60_0000);
    assert!(w.halves.translate_at(0xa000, 0x40_0000).is_some());
    assert!(w.halves.translate_at(0xb000, 0x80_0000).is_some());
    let victims = revoke::revoke_frame(&mut w.m, &mut w.db, &mut w.halves, 0x5000);
    assert_eq!(
        victims,
        vec![
            Mapping { phys: 0x5000, root: 0xa000, va: 0x40_0000 },
            Mapping { phys: 0x5000, root: 0xb000, va: 0x80_0000 },
        ]
    );
    assert!(w.halves.translate_at(0xa000, 0x40_0000).is_none());
    assert!(w.halves.translate_at(0xb000, 0x80_0000).is_none());
    // Another page of the same space stays.
    let kept = w.halves.translate_at(0xb000, 0x60_0000);
    assert_eq!(kept, Some((0x6000, Flags::user_data())));
    assert!(sched::current_cap(&w.m, 0, 0).is_err());
    assert_eq!(sched::current_cap(&w.m, 0, 1), Ok(other));
    assert_eq!(revoke::revoke_frame(&mut w.m, &mut w.db, &mut w.halves, 0x5000).len(), 0);
    revoke::forget_root(&mut w.db, 0xb000);
    assert_eq!(w.db.entries.len(), 0);
    assert_eq!(w.halves.translate_at(0xc000, 0x60_0000), None);
}

#[test]
fn revoking_a_region_stops_at_its_end() {
    let mut w = world();
    w.map(0x10_0000, 0xa000, 0x40_0000);
    w.map(0x10_1000, 0xa000, 0x40_1000);
    w.map(0x10_2000, 0xa000, 0x40_2000);
    let beyond = cricker_os::cap::frame_cap(0x10_2000, Rights::read());
    let unmapped = cricker_os::cap::frame_cap(0x10_1800, Rights::read());
    assert_eq!(sched::grant(&mut w.m, 0, beyond), Ok(0));
    assert_eq!(sched::grant(&mut w.m, 0, unmapped), Ok(1));
    let size = 2 * FRAME_SIZE;
    let victims = revoke::revoke_region(&mut w.m, &mut w.db, &mut w.halves, 0x10_0000, size);
    assert_eq!(victims.len(), 2);
    assert_eq!(w.db.entries, vec![Mapping { phys: 0x10_2000, root: 0xa000, va: 0x40_2000 }]);
    assert!(w.halves.translate_at(0xa000, 0x40_0000).is_none());
    assert!(w.halves.translate_at(0xa000, 0x40_1000).is_none());
    assert!(w.halves.translate_at(0xa000, 0x40_2000).is_some());
    assert_eq!(sched::current_cap(&w.m, 0, 0), Ok(beyond));
    // A page that is mapped nowhere is not revoked with the mapped ones, but taken back it is.
    assert_eq!(sched::current_cap(&w.m, 0, 1), Ok(unmapped));
    let none = revoke::take_back(&mut w.m, &mut w.db, &mut w.halves, 0x10_0000, size);
    assert_eq!(none, vec![]);
    assert!(sched::current_cap(&w.m, 0, 1).is_err());
    assert_eq!(sched::current_cap(&w.m, 0, 0), Ok(beyond));
}

#[test]
fn destroy_unmaps_a_region_before_reclaiming_it() {
    let mut w = world();
    let mut mem = ram();
    let base = memory::alloc_contiguous(&mut mem, 4).unwrap();
    let region = w.u.create(base, 4).unwrap();
    let phys = w.u.retype_object_page(region).unwrap();
    assert_eq!(phys, base);
    w.map(phys, 0xa000, 0x40_0000);
    w.map(0x9000, 0xa000, 0x50_0000);
    let held = cricker_os::cap::frame_cap(phys, Rights::read());
    let idle_page = cricker_os::cap::frame_cap(base + FRAME_SIZE, Rights::read());
    let elsewhere = cricker_os::cap::frame_cap(0x9000, Rights::read());
    assert_eq!(sched::grant(&mut w.m, 0, held), Ok(0));
    assert_eq!(sched::grant(&mut w.m, 0, idle_page), Ok(1));
    assert_eq!(sched::grant(&mut w.m, 0, elsewhere), Ok(2));
    assert!(w.halves.translate_at(0xa000, 0x40_0000).is_some());
    let free_before = memory::stats(&mem).free();
    let got = w.reclaim(region).ok().unwrap();
    assert_eq!(got.unmapped, vec![Mapping { phys, root: 0xa000, va: 0x40_0000 }]);
    assert!(w.halves.translate_at(0xa000, 0x40_0000).is_none());
    assert!(w.halves.translate_at(0xa000, 0x50_0000).is_some());
    assert_eq!(w.db.entries, vec![Mapping { phys: 0x9000, root: 0xa000, va: 0x50_0000 }]);
    assert!(sched::current_cap(&w.m, 0, 0).is_err());
    assert!(sched::current_cap(&w.m, 0, 1).is_err());
    assert_eq!(sched::current_cap(&w.m, 0, 2), Ok(elsewhere));
    let (start, size) = got.memory.unwrap();
    assert_eq!((start, size), (base, 4 * FRAME_SIZE));
    for i in 0..4u64 {
        memory::free(&mut mem, start + i * FRAME_SIZE);
    }
    assert_eq!(memory::stats(&mem).free(), free_before + 4);
}

#[test]
fn a_capability_on_its_way_is_taken_back_too() {
    let mut w = world();
    let kernel = w.u.create(0x20_0000, 4).unwrap();
    let ep = sched::create_endpoint_from(&mut w.m, &mut w.u, kernel).unwrap();
    let region = w.u.create(0x10_0000, 2).unwrap();
    let page = cricker_os::cap::frame_cap(0x10_1000, Rights::read());
    let boot = sched::current(&w.m, 0);
    assert!(sched::ipc_send_cap(&mut w.m, 0, ep, 42, page));
    go(&mut w.m);
    assert!(w.reclaim(region).is_ok());
    assert_eq!(w.m.thread(boot).unwrap().outgoing_cap, None);
    assert_eq!(w.m.thread(boot).unwrap().mailbox[0], 42);
}

/// Give back what a reclaimed region hands out.
fn give_back(mem: &mut Memory, memory: Option<(u64, u64)>) {
    if let Some((start, size)) = memory {
        for i in 0..size / FRAME_SIZE {
            memory::free(mem, start + i * FRAME_SIZE);
        }
    }
}

#[test]
fn split_returns_child_pages_to_the_parent() {
    let mut w = world();
    let mut mem = ram();
    let frames_before = memory::stats(&mem).free();
    let base = memory::alloc_contiguous(&mut mem, 8).unwrap();
    let parent = w.u.create(base, 8).unwrap();
    assert_eq!(memory::stats(&mem).free(), frames_before - 8);
    let child_a = w.u.split(parent, 4).unwrap();
    let child_b = w.u.split(parent, 4).unwrap();
    assert_ne!(child_a, child_b);
    assert_eq!(w.u.region_bounds(child_a), Some((base, 4 * FRAME_SIZE)));
    assert_eq!(w.u.region_bounds(child_b), Some((base + 4 * FRAME_SIZE, 4 * FRAME_SIZE)));
    assert!(w.u.has_children(parent));
    assert!(w.reclaim(parent).is_err());
    assert_eq!(w.u.split(parent, 1), None);
    assert_eq!(w.u.split(child_a, 0), None);
    assert_eq!(w.u.split(0x99, 1), None);

    // Out of order: a hole, and nothing for the allocator.
    let got = w.reclaim(child_a).ok().unwrap();
    give_back(&mut mem, got.memory);
    assert_eq!(memory::stats(&mem).free(), frames_before - 8);
    assert!(w.u.has_children(parent));
    assert_eq!(w.u.split(parent, 1), None);

    // The top: the parent takes the pages back, and can split them off again.
    let got = w.reclaim(child_b).ok().unwrap();
    give_back(&mut mem, got.memory);
    assert!(!w.u.has_children(parent));
    let child_c = w.u.split(parent, 4).unwrap();
    assert_eq!(w.u.region_bounds(child_c), Some((base + 4 * FRAME_SIZE, 4 * FRAME_SIZE)));
    let got = w.reclaim(child_c).ok().unwrap();
    give_back(&mut mem, got.memory);
    assert_eq!(memory::stats(&mem).free(), frames_before - 8);

    let got = w.reclaim(parent).ok().unwrap();
    give_back(&mut mem, got.memory);
    assert_eq!(memory::stats(&mem).free(), frames_before);
}

#[test]
fn destroyed_region_slots_are_reused() {
    let mut w = world();
    let mut mem = ram();
    let frames_before = memory::stats(&mem).free();
    for _ in 0..320 {
        let base = memory::alloc_contiguous(&mut mem, 1).unwrap();
        let r = w.u.create(base, 1).unwrap();
        give_back(&mut mem, w.u.destroy(r).unwrap());
    }
    assert_eq!(memory::stats(&mem).free(), frames_before);
    // Without giving any back, there are so many and no more.
    let mut n = 0;
    while w.u.create(0x10_0000 + n * FRAME_SIZE, 1).is_some() {
        n += 1;
    }
    assert_eq!(n, 256);
}

#[test]
fn reclaim_frees_a_regions_idle_endpoint() {
    let mut w = world();
    let r = w.u.create(0x10_0000, 2).unwrap();
    let ep = sched::create_endpoint_from(&mut w.m, &mut w.u, r).unwrap();
    let got = w.reclaim(r).ok().unwrap();
    assert_eq!(got.memory, Some((0x10_0000, 2 * FRAME_SIZE)));
    assert!(w.m.endpoint_page(ep).is_none());
    // Whoever uses the name afterwards is told so.
    assert!(!sched::ipc_send(&mut w.m, 0, ep, [1, 2, 3]));
    assert!(sched::take_ipc_aborted(&mut w.m, 0));
    assert_eq!(sched::ipc_recv(&mut w.m, 0, ep), Some([0, 0, 0, 0, 0]));
    assert!(sched::take_ipc_aborted(&mut w.m, 0));
}

#[test]
fn capabilities_come_and_go() {
    let mut w = world();
    let cap = untyped_cap(7);
    assert_eq!(sched::current_cap(&w.m, 0, 0), Err(cricker_os::cap::Error::NoSuchSlot));
    assert_eq!(sched::grant_at(&mut w.m, 0, 5, cap), Ok(5));
    assert!(sched::grant_at(&mut w.m, 0, 5, cap).is_err());
    assert_eq!(sched::current_cap(&w.m, 0, 5), Ok(cap));
    assert_eq!(sched::delete_current_cap(&mut w.m, 0, 5), Ok(()));
    let none = Err(cricker_os::cap::Error::NoSuchSlot);
    assert_eq!(sched::delete_current_cap(&mut w.m, 0, 5), none);
    assert_eq!(sched::current_kernel_stack_top(&w.m, 0), None);
    let space = AddressSpace { root: 0x77000, ttbr0: 0x1_0007_7000 };
    assert_eq!(sched::adopt_address_space(&mut w.m, 0, space), 0x1_0007_7000);
    assert!(w.m.thread(0).unwrap().space == Some(space));
}

#[test]
fn a_device_frame_is_taken_from_everybody_else() {
    let mut w = world();
    let device = cricker_os::cap::Cap {
        object: cricker_os::cap::Object::DeviceFrame(0x1000_0000),
        rights: Rights::write(),
    };
    let s = sched::spawn(&mut w.m, 0, (0, 0), 0x4000, 0xa000).unwrap();
    assert_eq!(sched::grant(&mut w.m, 0, device), Ok(0));
    w.m.thread_mut(s.tid).unwrap().cspace.insert(device).unwrap();
    sched::delete_device_frame_caps_from_others(&mut w.m, 0, 0x1000_0000);
    assert_eq!(sched::current_cap(&w.m, 0, 0), Ok(device));
    assert!(w.m.thread(s.tid).unwrap().cspace.get(0).is_err());
    let frame = cricker_os::cap::frame_cap(0x5000, Rights::read());
    assert_eq!(sched::grant(&mut w.m, 0, frame), Ok(1));
    sched::delete_frame_caps(&mut w.m, 0x5000);
    assert!(sched::current_cap(&w.m, 0, 1).is_err());
}

#[test]
fn a_reclaimed_region_strands_nobody() {
    let mut w = world();
    let boot = sched::current(&w.m, 0);
    let r = w.u.create(0x10_0000, 4).unwrap();
    let first = sched::create_endpoint_from(&mut w.m, &mut w.u, r).unwrap();
    let second = sched::create_endpoint_from(&mut w.m, &mut w.u, r).unwrap();
    let kept = w.m.insert_endpoint(0x7000).unwrap();
    let sender = sched::spawn_on(&mut w.m, 0, 0, 0x5000, 0xb000).unwrap().tid;
    let other = sched::spawn_on(&mut w.m, 0, 0, 0x6000, 0xc000).unwrap().tid;
    // One waits to receive, one to send, and one on an endpoint of somebody else's.
    assert_eq!(sched::ipc_recv(&mut w.m, 0, first), None);
    go(&mut w.m);
    assert_eq!(sched::current(&w.m, 0), sender);
    assert!(sched::ipc_send(&mut w.m, 0, second, [1, 2, 3]));
    go(&mut w.m);
    assert_eq!(sched::current(&w.m, 0), other);
    assert_eq!(sched::ipc_recv(&mut w.m, 0, kept), None);
    go(&mut w.m);
    assert!(w.reclaim(r).is_ok());
    assert!(w.m.thread(boot).unwrap().ipc_aborted);
    assert!(w.m.thread(sender).unwrap().ipc_aborted);
    assert!(!w.m.thread(other).unwrap().ipc_aborted);
    assert_eq!(w.m.thread(other).unwrap().state, State::Blocked);
    // The first to run reads the mark, once; and a late comer is told at once.
    go(&mut w.m);
    assert_eq!(sched::current(&w.m, 0), boot);
    assert!(sched::take_ipc_aborted(&mut w.m, 0));
    assert!(!sched::take_ipc_aborted(&mut w.m, 0));
    assert_eq!(sched::ipc_recv(&mut w.m, 0, first), Some([0; 5]));
    assert!(sched::take_ipc_aborted(&mut w.m, 0));
}
