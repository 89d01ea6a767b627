use cricker_os::arch::heartbeat::Heartbeat;
use cricker_os::arch::kernel_map::ImageLayout;
use cricker_os::arch::riscv64::context::Context;
use cricker_os::arch::riscv64::exceptions;
use cricker_os::arch::riscv64::exceptions::{Counts, Trap, TrapFrame, Verdict};
use cricker_os::arch::riscv64::irq;
use cricker_os::arch::riscv64::irq::Affinity;
use cricker_os::arch::riscv64::mmu;
use cricker_os::arch::riscv64::mmu::{RootRegister, Shootdown, Unsound, KERNEL_VA_BASE};
use cricker_os::arch::riscv64::sbi;
use cricker_os::arch::riscv64::semihosting;
use cricker_os::arch::riscv64::timer;
use cricker_os::frames::Region;
use cricker_os::machine::Machine;
use cricker_os::paging::{Flags, MapError, PageMap};
use cricker_os::sched;
use cricker_os::tables::{TableAt, Tables};
use cricker_os::thread::State;

const INTERRUPT: u64 = 1 << 63;

const SPP: u64 = 1 << 8;

const ZERO: Counts =
    Counts { routed_irqs: 0, spurious_irqs: 0, syscalls: 0, user_faults: 0, breakpoints: 0 };

fn layout() -> ImageLayout {
    let at = |off: u64| KERNEL_VA_BASE + 0x8020_0000 + off;
    ImageLayout {
        image_start: at(0),
        image_end: at(0x40_0000),
        text_start: at(0),
        text_end: at(0x10_0000),
        rodata_start: at(0x10_0000),
        rodata_end: at(0x18_0000),
        data_start: at(0x18_0000),
        bss_end: at(0x20_0000),
        stack_guard: at(0x20_0000),
        stack_bottom: at(0x20_1000),
        stack_top: at(0x21_1000),
        secondary_stacks: at(0x21_1000),
    }
}

fn ram() -> Vec<Region> {
    vec![Region { start: 0x8000_0000, size: 0x800_0000 }]
}

fn kernel() -> PageMap {
    let plic = Some(Region { start: 0xc00_0000, size: 0x60_0000 });
    match mmu::init(layout(), &ram(), plic, 0x8030_0000, KERNEL_VA_BASE + 0x8020_0100) {
        Ok((map, satp)) => {
            assert_eq!(satp, mmu::ttbr0_value(0x8030_0000, 0));
            map
        }
        Err(e) => panic!("{e:?}"),
    }
}

fn frame(scause: u64, sstatus: u64) -> TrapFrame {
    TrapFrame { x: [0; 32], sepc: 0x1000, scause, stval: 0xbad, sstatus }
}

#[test]
fn the_direct_map_reaches_physical_memory() {
    assert_eq!(mmu::phys_to_virt(0x8020_0000), 0xffff_ffc0_8020_0000);
    assert_eq!(mmu::virt_to_phys(0xffff_ffc0_8020_0000), 0x8020_0000);
}

#[test]
fn the_boot_table_maps_ram_and_devices_twice() {
    let t = mmu::boot_table();
    let used: Vec<usize> = (0..512).filter(|i| t[*i] != 0).collect();
    assert_eq!(used, vec![0, 2, 256, 258]);
    assert_eq!(t[0], t[256]);
    assert_eq!(t[2], t[258]);
}

#[test]
fn the_satp_carries_the_address_spaces_asid() {
    let word = mmu::ttbr0_value(0x8765_4000, 0x12);
    assert_eq!(word >> 60, 8);
    assert_eq!((word >> 44) & 0xffff, 0x12);
    assert_eq!(mmu::current_user_root(word), 0x8765_4000);
    assert!(mmu::is_enabled(word));
    assert!(!mmu::is_enabled(0));
    assert_eq!(mmu::reserved_root(0x8765_4000), mmu::ttbr0_value(0x8765_4000, 0));
}

#[test]
fn the_root_register_follows() {
    let kernel_root = 0x8030_0000;
    let mut core = RootRegister { satp: mmu::reserved_root(kernel_root), kernel_root };
    let word = mmu::ttbr0_value(0x8765_4000, 3);
    mmu::switch_user_root(&mut core, word);
    assert_eq!(core.satp, word);
    mmu::deactivate_user(&mut core);
    assert_eq!(core.satp, mmu::reserved_root(kernel_root));
}

#[test]
fn the_asid_width_is_what_stuck() {
    assert_eq!(mmu::implemented_asid_bits(0xffff << 44), 16);
    assert_eq!(mmu::implemented_asid_bits(0x01ff << 44), 9);
    assert_eq!(mmu::implemented_asid_bits(0), 0);
    assert_eq!(mmu::asid_probe(0x8000_0000_0008_0000), 0x8fff_f000_0008_0000);
    assert_eq!(mmu::asid_bits(16), 16);
}

#[test]
fn the_kernel_map_is_w_xor_x() {
    let m = kernel();
    let text = mmu::translate(&m, KERNEL_VA_BASE + 0x8020_0000).unwrap();
    assert_eq!(text, (0x8020_0000, Flags::kernel_code()));
    assert!(!text.1.writable && text.1.kernel_executable);
    let ro = mmu::translate(&m, KERNEL_VA_BASE + 0x8030_0000).unwrap().1;
    assert!(!ro.writable && !ro.kernel_executable);
    let stack = mmu::translate(&m, KERNEL_VA_BASE + 0x8040_1000).unwrap().1;
    assert!(stack.writable && !stack.kernel_executable);
    let uart = mmu::translate(&m, KERNEL_VA_BASE + mmu::UART_BASE).unwrap().1;
    assert!(uart.device && uart.writable);
}

#[test]
fn the_guard_page_is_a_hole() {
    let m = kernel();
    assert_eq!(mmu::translate(&m, layout().stack_guard), None);
    assert!(mmu::translate(&m, layout().stack_bottom).is_some());
    assert!(mmu::translate(&m, layout().stack_guard - 0x1000).is_some());
    assert_eq!(mmu::translate(&m, 0x8020_0000), None);
}

#[test]
fn a_map_that_would_not_hold_is_found_out() {
    let m = kernel();
    let code = KERNEL_VA_BASE + 0x8020_0100;
    let guard = layout().stack_guard;
    assert_eq!(mmu::verify(&m, code, layout()), Ok(()));
    assert_eq!(mmu::verify(&m, guard, layout()), Err(Unsound::CodeUnmapped));
    assert_eq!(
        mmu::verify(&m, KERNEL_VA_BASE + 0x8030_0000, layout()),
        Err(Unsound::CodeNotExecutable)
    );
    assert_eq!(
        mmu::verify(&m, code, ImageLayout { stack_guard: layout().stack_bottom, ..layout() }),
        Err(Unsound::GuardMapped)
    );
    let moved_down = layout().secondary_stacks + 0x1000;
    assert_eq!(
        mmu::verify(&m, code, ImageLayout { secondary_stacks: moved_down, ..layout() }),
        Err(Unsound::SecondaryGuardMapped)
    );
    let mut small = PageMap::new(KERNEL_VA_BASE, u64::MAX);
    small.map(KERNEL_VA_BASE + 0x8020_0000, 0x8020_0000, Flags::kernel_code()).unwrap();
    assert_eq!(mmu::verify(&small, code, layout()), Err(Unsound::UartUnmapped));
    let mut moved = PageMap::new(KERNEL_VA_BASE, u64::MAX);
    moved.map(KERNEL_VA_BASE + 0x8020_0000, 0x9000_0000, Flags::kernel_code()).unwrap();
    assert_eq!(mmu::verify(&moved, code, layout()), Err(Unsound::CodeElsewhere));
}

#[test]
fn overlapping_ram_is_refused() {
    let twice = vec![ram()[0], ram()[0]];
    let r = mmu::init(layout(), &twice, None, 0x8030_0000, KERNEL_VA_BASE + 0x8020_0100);
    assert_eq!(r.err(), Some(Unsound::Refused(MapError::AlreadyMapped)));
}

#[test]
fn the_kernel_mapper_refuses_to_overwrite() {
    let mut m = kernel();
    let mut t = Tables::new(mmu::TOP_SHIFT);
    let mut supply = vec![0x8600_0000, 0x8600_1000];
    let va = KERNEL_VA_BASE + 0x1_0000_0000;
    let data = Flags::kernel_data();
    assert_eq!(mmu::map_page(&mut m, &mut t, &mut supply, va, 0x8700_0000, data), Ok(()));
    // Two tables on the way down, each in a frame of its own.
    assert_eq!(
        t.have,
        vec![
            TableAt { shift: 30, index: va >> 30, frame: 0x8600_1000 },
            TableAt { shift: 21, index: va >> 21, frame: 0x8600_0000 },
        ]
    );
    assert_eq!(supply, vec![]);
    assert_eq!(
        mmu::map_page(&mut m, &mut t, &mut supply, va, 0x8700_1000, data),
        Err(MapError::AlreadyMapped)
    );
    assert_eq!(
        mmu::map_page(&mut m, &mut t, &mut supply, va + 1, 0x8700_1000, data),
        Err(MapError::Misaligned)
    );
    assert_eq!(
        mmu::map_page(&mut m, &mut t, &mut supply, 0x40_0000, 0x8700_1000, data),
        Err(MapError::WrongHalf)
    );
    let fence = Shootdown { harts: 0b1101, va, size: 0x1000 };
    assert_eq!(mmu::unmap_page(&mut m, va, 0b1111, 1), Ok((0x8700_0000, Some(fence))));
    assert_eq!(mmu::unmap_page(&mut m, va, 0b1111, 1), Err(MapError::NotMapped));
    assert_eq!(mmu::translate(&m, va), None);
    // The tables stayed, so mapping it again takes no frame.
    assert_eq!(mmu::map_page(&mut m, &mut t, &mut supply, va, 0x8700_1000, data), Ok(()));
    assert_eq!(mmu::translate(&m, va), Some((0x8700_1000, data)));
}

#[test]
fn a_page_without_frames_for_its_tables_is_not_mapped() {
    let mut m = kernel();
    let mut t = Tables::new(mmu::TOP_SHIFT);
    let mut supply = vec![0x8600_0000];
    let va = KERNEL_VA_BASE + 0x1_0000_0000;
    let data = Flags::kernel_data();
    assert_eq!(
        mmu::map_page(&mut m, &mut t, &mut supply, va, 0x8700_0000, data),
        Err(MapError::OutOfFrames)
    );
    assert_eq!(mmu::translate(&m, va), None);
    assert_eq!(t.have.len(), 1);
    assert_eq!(supply, vec![]);
    supply.push(0x8600_1000);
    assert_eq!(mmu::map_page(&mut m, &mut t, &mut supply, va, 0x8700_0000, data), Ok(()));
    assert_eq!(t.have.len(), 2);
    // The next page is in the same tables; one two megabytes on needs one more.
    let next = va + 0x1000;
    assert_eq!(mmu::map_page(&mut m, &mut t, &mut supply, next, 0x8700_1000, data), Ok(()));
    assert_eq!(
        mmu::map_page(&mut m, &mut t, &mut supply, va + 0x20_0000, 0x8700_2000, data),
        Err(MapError::OutOfFrames)
    );
}

#[test]
fn a_shootdown_reaches_the_others_only() {
    assert_eq!(mmu::flush_tlb(0x1000, 0b0010, 1), None);
    assert_eq!(
        mmu::flush_tlb(0x1000, 0b0110, 1),
        Some(Shootdown { harts: 0b0100, va: 0x1000, size: 0x1000 })
    );
}

#[test]
fn user_mode_reaches_its_own_half_only() {
    let k = kernel();
    let mut space = PageMap::new(0, mmu::USER_VA_LAST);
    let mut t = Tables::new(mmu::TOP_SHIFT);
    let mut supply = vec![0x8600_0000, 0x8600_1000];
    assert_eq!(
        mmu::map_current_user_frame(
            &mut space,
            &mut t,
            &mut supply,
            0x40_0000,
            0x8700_0000,
            Flags::user_data()
        ),
        Ok(())
    );
    assert!(mmu::user_can_read(&space, 0x40_0000));
    assert!(mmu::user_can_write(&space, 0x40_0000));
    assert!(!mmu::user_can_read(&space, 0x40_1000));
    assert!(!mmu::user_can_read(&space, KERNEL_VA_BASE + 0x8020_0000));
    assert!(!mmu::user_can_write(&space, KERNEL_VA_BASE + 0x8020_0000));
    assert!(mmu::is_mapped_in_current_space(&space, &k, KERNEL_VA_BASE + 0x8020_0000));
    assert!(mmu::is_mapped_in_current_space(&space, &k, 0x40_0000));
    assert!(!mmu::is_mapped_in_current_space(&space, &k, 0x50_0000));
    assert_eq!(
        mmu::map_current_user_page(
            &mut space,
            &mut t,
            &mut supply,
            0x40_1000,
            Flags::user_rodata()
        ),
        Err(MapError::OutOfFrames)
    );
    supply.push(0x8700_1000);
    assert_eq!(
        mmu::map_current_user_page(
            &mut space,
            &mut t,
            &mut supply,
            0x40_1000,
            Flags::user_rodata()
        ),
        Ok(0x8700_1000)
    );
    assert!(mmu::user_can_read(&space, 0x40_1000));
    assert!(!mmu::user_can_write(&space, 0x40_1000));
    assert_eq!(mmu::unmap_user_at(&mut space, 0x40_1000), Some(0x8700_1000));
    assert_eq!(mmu::unmap_user_at(&mut space, 0x40_1000), None);
    assert_eq!(mmu::translate_user(&space, 0x40_0004).unwrap().0, 0x8700_0004);
    assert_eq!(mmu::translate_at(&space, 0x50_0000), None);
}

#[test]
fn a_process_shares_the_kernel_half() {
    let mut root = [7u64; 512];
    let mut k = [0u64; 512];
    k[300] = 9;
    mmu::share_kernel_half(&mut root, &k);
    assert_eq!(root[255], 7);
    assert_eq!(root[256], 0);
    assert_eq!(root[300], 9);
}

#[test]
fn traps_are_told_apart() {
    let kinds = [
        (INTERRUPT | 5, 0, Trap::Timer),
        (INTERRUPT | 9, 0, Trap::External),
        (INTERRUPT | 1, 0, Trap::Software),
        (INTERRUPT | 2, 0, Trap::Spurious),
        (8, 0, Trap::Syscall),
        (3, SPP, Trap::Breakpoint),
        (3, 0, Trap::UserFault),
        (13, 0, Trap::UserFault),
        (13, SPP, Trap::KernelFault),
    ];
    for (scause, sstatus, kind) in kinds {
        assert_eq!(exceptions::classify(&frame(scause, sstatus)), kind);
    }
}

#[test]
fn exceptions_are_dealt_with() {
    let mut counts = ZERO;
    let mut f = frame(8, 0);
    assert_eq!(exceptions::handle_exception(&mut f, &mut counts, 0), Verdict::Serve);
    assert_eq!((f.sepc, counts.syscalls), (0x1004, 1));
    let mut f = frame(3, SPP);
    assert_eq!(exceptions::handle_exception(&mut f, &mut counts, 0x9002), Verdict::Resume);
    assert_eq!((f.sepc, counts.breakpoints), (0x1002, 1));
    let mut f = frame(3, SPP);
    assert_eq!(exceptions::handle_exception(&mut f, &mut counts, 0x0073), Verdict::Resume);
    assert_eq!((f.sepc, counts.breakpoints), (0x1004, 2));
    let mut f = frame(15, 0);
    let kill = Verdict::Kill { pc: 0x1000, addr: 0xbad };
    assert_eq!(exceptions::handle_exception(&mut f, &mut counts, 0), kill);
    assert_eq!((f.sepc, counts.user_faults), (0x1000, 1));
    let mut f = frame(15, SPP);
    assert_eq!(exceptions::handle_exception(&mut f, &mut counts, 0), Verdict::Panic);
}

#[test]
fn a_frame_for_user_mode_holds_its_arguments_and_no_kernel_pointer() {
    let mut f = TrapFrame::for_user_entry(0x1_0000, 0x2_0000, [1, 2, 3]);
    assert_eq!(f.sepc, 0x1_0000);
    assert_eq!(f.sstatus, 0x2_0000_0020);
    assert_eq!((f.arg(0), f.arg(1), f.arg(2), f.x[2]), (1, 2, 3, 0x2_0000));
    let rest: u64 = (0..32).filter(|i| ![2, 10, 11, 12].contains(i)).map(|i: usize| f.x[i]).sum();
    assert_eq!(rest, 0);
    f.x[17] = 42;
    f.set_arg(1, 9);
    assert_eq!((f.syscall_nr(), f.arg(1), f.arg(0)), (42, 9, 1));
}

fn up() -> (Machine, u64) {
    let mut m = Machine::new(1, vec![]);
    sched::init(&mut m, 0, 0x1000, 0x2000, 0x9000);
    let s = sched::spawn(&mut m, 0, (0, 0), 0x4000, 0xa000).unwrap();
    (m, s.tid)
}

#[test]
fn a_thread_that_never_yields_is_preempted_anyway() {
    let (mut m, other) = up();
    let mut beat = Heartbeat::new();
    timer::init(&mut beat, 1000);
    let mut counts = ZERO;
    let r =
        exceptions::handle_interrupt(&mut m, 0, &mut beat, &mut counts, Trap::Timer, 0, 101_500, 7);
    assert_eq!(r.deadline, Some(201_000));
    let s = r.switch.unwrap();
    assert_eq!((s.prev, s.next, s.root), (0, other, 7));
    assert_eq!(sched::preemptions(&m), 1);
    assert_eq!(timer::ticks(&beat), 1);
    assert_eq!(m.thread(0).unwrap().state, State::Ready);
}

#[test]
fn a_devices_interrupt_is_masked_and_becomes_a_message() {
    let (mut m, _) = up();
    let mut beat = Heartbeat::new();
    let mut counts = ZERO;
    let ep = m.insert_endpoint(0x8000).unwrap();
    sched::bind_irq(&mut m, 10, ep);
    let r = exceptions::handle_interrupt(
        &mut m,
        0,
        &mut beat,
        &mut counts,
        Trap::External,
        10,
        0,
        7,
    );
    assert_eq!((r.mask, r.complete), (Some(10), Some(10)));
    assert_eq!(counts.routed_irqs, 1);
    assert_eq!(sched::ipc_recv(&mut m, 0, ep), Some([1, 0, 0, 0, 0]));
    // Nobody's: counted and ended.
    let r = exceptions::handle_interrupt(
        &mut m,
        0,
        &mut beat,
        &mut counts,
        Trap::External,
        11,
        0,
        7,
    );
    assert_eq!(counts.routed_irqs, 1);
    assert_eq!(counts.spurious_irqs, 1);
    assert_eq!((r.mask, r.complete), (None, Some(11)));
    assert_eq!(r.switch, None);
    // Nothing pending at the controller after all.
    let r =
        exceptions::handle_interrupt(&mut m, 0, &mut beat, &mut counts, Trap::External, 0, 0, 7);
    assert_eq!((r.mask, r.complete, r.poke), (None, None, None));
}

#[test]
fn a_poke_drains_the_inbox_and_switches() {
    let mut m = Machine::new(2, vec![]);
    sched::init(&mut m, 0, 0x1000, 0x2000, 0x9000);
    sched::adopt_secondary_idle(&mut m, 1, 0x3000);
    let s = sched::spawn_on(&mut m, 0, 1, 0x4000, 0xa000).unwrap();
    let mut beat = Heartbeat::new();
    let mut counts = ZERO;
    let r =
        exceptions::handle_interrupt(&mut m, 1, &mut beat, &mut counts, Trap::Software, 0, 0, 7);
    assert_eq!(r.switch.unwrap().next, s.tid);
    assert_eq!(r.poke, None);
}

#[test]
fn sources_go_round_the_cores_and_stay() {
    let mut a = Affinity::new();
    let first = irq::enable(&mut a, 10, 4);
    assert_eq!((first.context, first.open), (1, true));
    let second = irq::enable(&mut a, 11, 4);
    assert_eq!((second.context, second.open), (3, true));
    let again = irq::enable(&mut a, 10, 4);
    assert_eq!((again.context, again.open), (1, false));
    assert_eq!(irq::target_context(&mut a, 12, 2).context, 1);
    // Whatever is asked for meanwhile, and however many cores are up by then.
    for source in 20..60 {
        irq::enable(&mut a, source, 3);
    }
    assert_eq!(irq::target_context(&mut a, 11, 1).context, 3);
    assert_eq!(irq::enable(&mut a, 10, 2).context, 1);
    assert_eq!(irq::boot_s_context(3), 7);
    assert_eq!(irq::this_s_context(2), 5);
    assert_eq!(irq::send_reschedule(2), 4);
}

#[test]
fn every_beat_counts_once() {
    let mut h = Heartbeat::new();
    timer::init(&mut h, 0);
    for k in 1..=100u64 {
        timer::tick(&mut h, k * 100_000 + 7);
        assert_eq!((timer::ticks(&h), timer::missed_ticks(&h)), (k, 0));
    }
    // However far behind, one deadline is given up.
    timer::tick(&mut h, 1_000_000_000);
    assert_eq!((timer::ticks(&h), timer::missed_ticks(&h)), (101, 1));
}

#[test]
fn the_timer_keeps_its_grid() {
    assert_eq!(timer::frequency(), 10_000_000);
    assert_eq!(timer::interval(), 100_000);
    let mut h = Heartbeat::new();
    assert_eq!(timer::init(&mut h, 50), 100_050);
    assert_eq!(timer::tick(&mut h, 100_999), 200_050);
    assert_eq!(timer::missed_ticks(&h), 0);
    // Two intervals late: given up, counted, and anchored anew.
    assert_eq!(timer::tick(&mut h, 400_000), 500_000);
    assert_eq!((timer::ticks(&h), timer::missed_ticks(&h)), (2, 1));
    assert_eq!(timer::uptime_ms(10_000_000), 1000);
    assert!(timer::spin_for(u64::MAX - 4, 6, 10));
    assert!(!timer::spin_for(100, 109, 10));
}

#[test]
fn firmware_calls_carry_their_arguments() {
    let c = sbi::psci_cpu_on(3, 0x8020_0000, 0x99);
    assert_eq!((c.extension, c.function), (0x0048_534d, 0));
    assert_eq!((c.args.0, c.args.1, c.args.2), (3, 0x8020_0000, 0x99));
    let c = sbi::sbi_send_ipi(2);
    assert_eq!((c.extension, c.function, c.args.0, c.args.1), (0x0073_5049, 0, 4, 0));
    let c = sbi::sbi_remote_sfence_vma(Shootdown { harts: 6, va: 0x1000, size: 0x1000 });
    assert_eq!((c.extension, c.function), (0x5246_4e43, 1));
    assert_eq!(c.args, (6, 0, 0x1000, 0x1000));
    assert_eq!(sbi::sbi_set_timer(77).args.0, 77);
    assert_eq!(semihosting::exit(semihosting::EXIT_SUCCESS), 0x5555);
    assert_eq!(semihosting::exit(semihosting::EXIT_FAILURE), 0x1_3333);
    assert_eq!(exceptions::user_pc(0x9000), 0);
}

#[test]
fn a_new_context_starts_in_its_trampoline() {
    let c = Context::for_kernel_thread(0x100, 0x200, 0x300);
    assert_eq!(c.ra, 0x100);
    assert_eq!((c.s0, c.s1), (0x200, 0x300));
    let c = Context::for_user_thread(0x100, 0x1_0000, 0x2_0000, [1, 2, 3]);
    assert_eq!(c.ra, 0x100);
    assert_eq!((c.s0, c.s1, c.s2, c.s3, c.s4), (0x1_0000, 0x2_0000, 1, 2, 3));
}

#[test]
fn kernel_text_is_executable_and_not_writable() {
    let m = kernel();
    let (pa, flags) = mmu::translate(&m, layout().text_start).unwrap();
    assert_eq!(pa, 0x8020_0000);
    assert!(flags.kernel_executable);
    assert!(!flags.writable);
    assert!(!flags.user_accessible);
}

#[test]
fn kernel_rodata_is_read_only_and_not_executable() {
    let m = kernel();
    let (_, flags) = mmu::translate(&m, layout().rodata_start).unwrap();
    assert!(!flags.writable);
    assert!(!flags.kernel_executable);
}

#[test]
fn the_stack_is_writable_and_not_executable() {
    let m = kernel();
    let (_, flags) = mmu::translate(&m, layout().stack_bottom).unwrap();
    assert!(flags.writable);
    assert!(!flags.kernel_executable);
}

#[test]
fn the_uart_is_mapped_as_device_memory() {
    let m = kernel();
    let (pa, flags) = mmu::translate(&m, mmu::phys_to_virt(mmu::UART_BASE)).unwrap();
    assert_eq!(pa, mmu::UART_BASE);
    assert_eq!(flags, Flags::device());
    assert!(flags.writable);
    assert!(!flags.kernel_executable);
}

#[test]
fn a_low_address_does_not_translate_when_no_process_is_running() {
    let empty = PageMap::new(0, mmu::USER_VA_LAST);
    for va in [0x1000u64, 0x8020_0000, 0x0000_003f_ffff_f000] {
        assert!(mmu::translate_user(&empty, va).is_none());
        assert!(!mmu::is_mapped_in_current_space(&empty, &kernel(), va));
    }
}

#[test]
fn unmap_invalidates_the_tlb() {
    let mut m = kernel();
    let mut t = Tables::new(mmu::TOP_SHIFT);
    let mut supply = vec![0x8600_0000, 0x8600_1000];
    let va = mmu::phys_to_virt(0x1_0000_0000);
    let data = Flags::kernel_data();
    let (a, b) = (0x8700_0000, 0x8700_1000);
    assert_eq!(mmu::translate(&m, va), None);
    assert_eq!(mmu::map_page(&mut m, &mut t, &mut supply, va, a, data), Ok(()));
    assert_eq!(mmu::translate(&m, va), Some((a, data)));
    // Every other core that is up is told to forget it.
    let fence = Shootdown { harts: 0b0101, va, size: 0x1000 };
    assert_eq!(mmu::unmap_page(&mut m, va, 0b0111, 1), Ok((a, Some(fence))));
    assert_eq!(mmu::map_page(&mut m, &mut t, &mut supply, va, b, data), Ok(()));
    assert_eq!(mmu::translate(&m, va), Some((b, data)));
}

#[test]
fn a_long_critical_section_costs_a_tick() {
    let mut h = Heartbeat::new();
    let first = timer::init(&mut h, 0);
    let before = timer::missed_ticks(&h);
    // Two and a half periods with interrupts masked.
    timer::tick(&mut h, first + timer::interval() * 2 + timer::interval() / 2);
    assert!(timer::missed_ticks(&h) > before);
}

#[test]
fn uptime_advances_monotonically() {
    let a = timer::uptime_ms(1_234_567);
    let b = timer::uptime_ms(1_234_567 + timer::frequency() / 50);
    assert_eq!((a, b), (123, 143));
}
