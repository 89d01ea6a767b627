use cricker_os::cap::{
    endpoint_cap, frame_cap, irq_cap, reap_decision, untyped_cap, virtio_cap, CSpace, Error, Object,
    Reap, Rights, CSPACE_SLOTS,
};
use cricker_os::cpu;
use cricker_os::frames::{FrameAllocator, Region, FRAME_SIZE};
use cricker_os::heap;
use cricker_os::memory;
use cricker_os::memory::MemoryMap;
use cricker_os::paging::{Flags, MapError, PageMap};
use cricker_os::slots::Table;
use cricker_os::untyped::Untyped;

fn map() -> MemoryMap {
    MemoryMap {
        ram: vec![Region { start: 0x8000_0000, size: 0x100_0000 }],
        reserved: vec![Region { start: 0x8000_0000, size: 0x8_0000 }],
        image: Region { start: 0x8020_0000, size: 0x10_0000 },
        dtb: Region { start: 0x8080_0000, size: 0x1800 },
        initrd: Some(Region { start: 0x8090_0000, size: 0x2_0000 }),
        intc: vec![
            Region { start: 0x800_0000, size: 0x1_0000 },
            Region { start: 0x801_0000, size: 0x1_0000 },
        ],
    }
}

#[test]
fn every_frame_of_the_kernel_image_is_reserved() {
    let m = memory::init(&map()).unwrap();
    let (start, end) = memory::image_bounds(&m);
    assert_eq!((start, end), (0x8020_0000, 0x8030_0000));
    for addr in (start..end).step_by(4096) {
        assert_eq!(memory::is_frame_used(&m, addr), Some(true));
        assert!(memory::is_in_kernel_image(&m, addr));
    }
    assert!(!memory::is_in_kernel_image(&m, end));
    assert_eq!(memory::is_frame_used(&m, 0x7000_0000), None);
}

#[test]
fn allocator_never_hands_out_the_kernel() {
    let mut m = memory::init(&map()).unwrap();
    let (bitmap, bytes) = memory::bitmap_region(&m);
    let held = [(0x8000_0000, 0x8_0000), (0x8020_0000, 0x10_0000), (0x8080_0000, 0x2000),
        (0x8090_0000, 0x2_0000), (bitmap, bytes)];
    let mut n = 0;
    while let Some(f) = memory::alloc_frame(&mut m) {
        for (start, size) in held {
            assert!(f + 4096 <= start || f >= start + size);
        }
        n += 1;
    }
    assert_eq!(memory::stats(&m).free(), 0);
    assert_eq!(memory::stats(&m).total, 4096);
    // All but the held pages, the last of the device tree's two only partly used.
    assert_eq!(n, 4096 - 128 - 256 - 2 - 32 - 1);
}

#[test]
fn bitmap_overlaps_nothing() {
    let m = memory::init(&map()).unwrap();
    let (start, size) = memory::bitmap_region(&m);
    assert_eq!(size, 512);
    for (s, n) in [(0x8000_0000u64, 0x8_0000u64), (0x8020_0000, 0x10_0000),
        (0x8080_0000, 0x1800), (0x8090_0000, 0x2_0000)]
    {
        assert!(start + size <= s || s + n <= start);
    }
    assert_eq!(memory::initrd_region(&m), Some((0x8090_0000, 0x2_0000)));
    assert_eq!(
        memory::gic_regions(&m),
        Some(((0x800_0000, 0x1_0000), (0x801_0000, 0x1_0000)))
    );
    assert_eq!(memory::ram_regions(&m), vec![(0x8000_0000, 0x100_0000)]);
}

#[test]
fn no_ram_is_no_memory() {
    let none = MemoryMap { ram: vec![], ..map() };
    assert!(memory::init(&none).is_none());
    // Nowhere to put the bitmap.
    let full = MemoryMap { reserved: vec![Region { start: 0x8000_0000, size: 0x100_0000 }], ..map() };
    assert!(memory::init(&full).is_none());
}

#[test]
fn alloc_and_free_balance() {
    let mut m = memory::init(&map()).unwrap();
    let before = memory::stats(&m);
    let f = memory::alloc_frame(&mut m).unwrap();
    assert_eq!(memory::stats(&m).used, before.used + 1);
    memory::free(&mut m, f);
    assert_eq!(memory::stats(&m), before);
    let run = memory::alloc_contiguous(&mut m, 64).unwrap();
    for i in 0..64 {
        assert_eq!(memory::is_frame_used(&m, run + i * FRAME_SIZE), Some(true));
    }
    assert_eq!(memory::stats(&m).used, before.used + 64);
    let (total, _, used) = memory::summary(&m);
    assert_eq!(total, 16);
    assert_eq!(used, (before.used as u64 + 64) * 4);
}

#[test]
fn the_heap_is_one_run_of_frames() {
    let mut m = memory::init(&map()).unwrap();
    let before = memory::stats(&m).used;
    let (start, bytes) = heap::init(&mut m, 0xffff_ffc0_0000_0000).unwrap();
    assert_eq!(bytes, 256 * FRAME_SIZE);
    assert_eq!(start & 0xfff, 0);
    assert_eq!(memory::stats(&m).used, before + 256);
}

#[test]
fn a_claimed_frame_is_not_free_however_it_is_marked() {
    let mut a = FrameAllocator::new(0x1000, 8);
    assert_eq!(a.stats().used, 8);
    a.mark_free(Region { start: 0x1000, size: 0x8000 });
    a.mark_used(Region { start: 0x1fff, size: 2 });
    assert_eq!(a.is_used(0x1000), Some(true));
    assert_eq!(a.is_used(0x2000), Some(true));
    assert_eq!(a.is_used(0x3000), Some(false));
    assert_eq!(a.alloc_frame(), Some(0x3000));
    assert_eq!(a.alloc_contiguous(6), None);
    assert_eq!(a.alloc_contiguous(5), Some(0x4000));
    a.free(0x5000);
    assert_eq!(a.alloc_frame(), Some(0x5000));
    assert_eq!(a.alloc_frame(), None);
    assert_eq!(FrameAllocator::bitmap_bytes(9), 2);
    assert_eq!(FrameAllocator::frames_in(4097), 1);
}

#[test]
fn a_spent_name_never_resolves_again() {
    let mut t: Table<u32> = Table::new(2);
    let a = t.insert(1).unwrap();
    let b = t.insert(2).unwrap();
    assert_eq!(t.insert(3), None);
    assert_eq!(t.next_name(), None);
    assert_eq!(t.remove(a), Some(1));
    assert_eq!(t.remove(a), None);
    assert!(t.get(a).is_none());
    let c = t.insert(4).unwrap();
    assert_ne!(c, a);
    assert!(t.get(a).is_none());
    assert_eq!(t.get(c), Some(&4));
    *t.get_mut(b).unwrap() = 9;
    assert_eq!(t.get(b), Some(&9));
    assert_eq!(t.len(), 2);
    assert_eq!(t.names().len(), 2);
    assert!(t.get(77).is_none());
}

#[test]
fn pages_are_spent_once_and_in_order() {
    let mut u = Untyped::new();
    let r = u.create(0x10_0000, 2).unwrap();
    assert_eq!(u.region_bounds(r), Some((0x10_0000, 0x2000)));
    assert_eq!(u.retype_object_page(r), Some(0x10_0000));
    assert_eq!(u.retype_object_page(r), Some(0x10_1000));
    assert_eq!(u.retype_object_page(r), None);
    assert_eq!(u.destroy(r), Err(()));
    u.unpin(r);
    assert_eq!(u.destroy(r), Ok(Some((0x10_0000, 0x2000))));
    assert_eq!(u.destroy(r), Err(()));
    assert_eq!(u.region_bounds(r), None);
}

#[test]
fn a_mapping_is_broken_before_it_is_made() {
    let mut m = PageMap::new(0, 0x3f_ffff_ffff);
    assert_eq!(m.map(0x1000, 0x8000, Flags::user_data()), Ok(()));
    assert_eq!(m.translate(0x1234), Some((0x8234, Flags::user_data())));
    assert_eq!(m.map(0x1000, 0x9000, Flags::user_data()), Err(MapError::AlreadyMapped));
    assert_eq!(m.unmap(0x1000), Ok(0x8000));
    assert_eq!(m.translate(0x1234), None);
    assert_eq!(m.map(0x1000, 0x9000, Flags::user_data()), Ok(()));
    assert_eq!(m.translate(0x1234).unwrap().0, 0x9234);
    assert_eq!(m.map(0x1001, 0x9000, Flags::user_data()), Err(MapError::Misaligned));
    assert_eq!(m.map(0x2000, 0x9001, Flags::user_data()), Err(MapError::Misaligned));
    assert_eq!(m.map(0x40_0000_0000, 0x9000, Flags::user_data()), Err(MapError::WrongHalf));
    assert_eq!(m.unmap(0x5000), Err(MapError::NotMapped));
    assert_eq!(m.map_range(0x10_0000, 0x20_0000, 4, Flags::user_rodata()), Ok(()));
    assert_eq!(m.unmap(0x10_1000), Ok(0x20_1000));
    assert_eq!(m.translate(0x10_1000), None);
    assert_eq!(m.translate(0x10_0fff).unwrap().0, 0x20_0fff);
    assert_eq!(m.translate(0x10_3000).unwrap().0, 0x20_3000);
    assert_eq!(
        m.map_range(0xf_f000, 0x30_0000, 2, Flags::user_rodata()),
        Err(MapError::AlreadyMapped)
    );
    assert_eq!(m.translate(0xf_f000), None);
}

#[test]
fn capabilities_say_what_they_may() {
    assert_eq!(irq_cap(10).rights, Rights::read());
    assert_eq!(untyped_cap(3).rights, Rights::write());
    assert_eq!(virtio_cap(2).object, Object::Virtio(2));
    let both = Rights::read().union(Rights::grant());
    assert_eq!(both, Rights { read: true, write: false, grant: true });
    assert_eq!(endpoint_cap(5, both).rights, both);
    let mut c = CSpace::empty();
    assert_eq!(c.len(), CSPACE_SLOTS);
    assert_eq!(c.get(0), Err(Error::NoSuchSlot));
    assert_eq!(c.get(99), Err(Error::NoSuchSlot));
    assert_eq!(c.insert_at(1, irq_cap(1)), Ok(1));
    assert_eq!(c.insert_at(1, irq_cap(2)), Err(Error::NoFreeSlot));
    assert_eq!(c.insert(frame_cap(0x5000, Rights::read())), Ok(0));
    assert_eq!(c.insert(frame_cap(0x5000, Rights::write())), Ok(2));
    c.delete_object(Object::Frame(0x5000));
    assert_eq!(c.get(0), Err(Error::NoSuchSlot));
    assert_eq!(c.get(2), Err(Error::NoSuchSlot));
    assert_eq!(c.get(1), Ok(irq_cap(1)));
    assert_eq!(c.delete(1), Ok(()));
    assert_eq!(c.delete(1), Err(Error::NoSuchSlot));
    for i in 0..CSPACE_SLOTS {
        assert_eq!(c.insert(irq_cap(7)), Ok(i as u64));
    }
    assert_eq!(c.insert(irq_cap(7)), Err(Error::NoFreeSlot));
}

#[test]
fn only_the_supervisor_may_collect() {
    assert_eq!(reap_decision(None, 5, true), Reap::NotSupervised);
    assert_eq!(reap_decision(Some(4), 5, true), Reap::NotSupervised);
    assert_eq!(reap_decision(Some(5), 5, false), Reap::StillAlive);
    assert_eq!(reap_decision(Some(5), 5, true), Reap::Permitted);
}

#[test]
fn boot_cpu_percpu_is_reachable() {
    for i in 0..4 {
        let ptr = cpu::init_this_cpu(0x8_0000, 192, i);
        assert_eq!(cpu::id(0x8_0000, 192, ptr), i);
    }
}

#[test]
fn touching_ranges_do_not_overlap() {
    assert!(memory::overlaps(0x1000, 0x1000, 0x1fff, 1));
    assert!(memory::overlaps(0x1fff, 1, 0x1000, 0x1000));
    assert!(!memory::overlaps(0x1000, 0x1000, 0x2000, 0x1000));
    assert!(!memory::overlaps(0x2000, 0x1000, 0x1000, 0x1000));
    assert!(!memory::overlaps(0x1000, 0x1000, 0x1800, 0));
    // An end past the last address stands for the last address.
    assert!(memory::overlaps(u64::MAX - 1, 100, u64::MAX - 1, 1));
}

#[test]
fn initrd_is_reserved_if_present() {
    let start = 0x8090_0800;
    let size = 0x3000;
    let m = memory::init(&MemoryMap { initrd: Some(Region { start, size }), ..map() }).unwrap();
    let mut addr = start - start % FRAME_SIZE;
    while addr < start + size {
        assert_eq!(memory::is_frame_used(&m, addr), Some(true));
        addr += FRAME_SIZE;
    }
    assert_eq!(memory::is_frame_used(&m, addr), Some(false));
}
