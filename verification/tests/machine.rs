use cricker_os::arch::kernel_map::ImageLayout;
use cricker_os::arch::riscv64::mmu;
use cricker_os::arch::riscv64::mmu::KERNEL_VA_BASE;
use cricker_os::bench;
use cricker_os::bench::{Bench, Line};
use cricker_os::boot;
use cricker_os::boot::{Board, Build, Facts, Step};
use cricker_os::cap::{endpoint_cap, Rights};
use cricker_os::console;
use cricker_os::cpu::MAX_CPUS;
use cricker_os::drivers::ns16550::Ns16550;
use cricker_os::drivers::plic;
use cricker_os::frames::Region;
use cricker_os::heap;
use cricker_os::heap::{Owner, Resize, Usage};
use cricker_os::pci;
use cricker_os::pci::{Bar, Bdf, CfgWrite, Function, VirtioCap};
use cricker_os::smp;
use cricker_os::smp::{CorePlan, CpuInfo, EnableMethod, Online};
use cricker_os::stack;
use cricker_os::stack::ThreadStacks;

const TOUR: Build = Build { test: false, bench: false, shell: false, initboot: false };

const ALL: Facts = Facts { plic: true, initrd: true, init_entry: true, driver_entry: true };

const NONE: Facts = Facts { plic: false, initrd: false, init_entry: false, driver_entry: false };

fn position(s: &Vec<Step>, step: Step) -> usize {
    s.iter().position(|x| *x == step).unwrap()
}

#[test]
fn the_scheduler_comes_up_with_interrupts_off() {
    let arm = boot::bring_up_steps(Board::Aarch64);
    assert!(position(&arm, Step::Scheduler) < position(&arm, Step::InterruptsOn));
    let riscv = boot::bring_up_steps(Board::Riscv64);
    let i = position(&riscv, Step::Scheduler);
    assert_eq!(riscv[i - 1], Step::MaskInterrupts);
    assert_eq!(riscv[i + 1], Step::RestoreInterrupts);
    for s in [arm, riscv] {
        assert_eq!(s[0], Step::PerCpu);
        assert_eq!(s[1], Step::Console);
        assert_eq!(*s.last().unwrap(), Step::Secondaries);
    }
    assert_eq!(boot::boot_cpu_id(Board::Aarch64, 3), 0);
    assert_eq!(boot::boot_cpu_id(Board::Riscv64, 3), 3);
}

#[test]
fn another_core_joins_in_order() {
    let s = boot::secondary_steps(TOUR);
    assert_eq!(s[..2], [Step::PerCpu, Step::Traps]);
    assert!(position(&s, Step::IdleThread) < position(&s, Step::Timer));
    assert!(position(&s, Step::Online) < position(&s, Step::InterruptsOn));
    assert_eq!(*s.last().unwrap(), Step::Idle);
    assert!(!s.contains(&Step::Probe));
    assert!(boot::secondary_steps(Build { test: true, ..TOUR }).contains(&Step::Probe));
}

#[test]
fn each_build_ends_where_it_should() {
    let tour = boot::handover_steps(Board::Riscv64, TOUR, ALL);
    assert!(position(&tour, Step::Plic) < position(&tour, Step::UartDriver));
    assert!(tour.contains(&Step::BuildChild));
    assert_eq!(*tour.last().unwrap(), Step::Park);
    let bare = boot::handover_steps(Board::Riscv64, TOUR, NONE);
    assert!(bare.contains(&Step::NoProgram));
    assert!(!bare.contains(&Step::Plic));
    let one = Facts { init_entry: false, driver_entry: false, ..ALL };
    let one = boot::handover_steps(Board::Riscv64, TOUR, one);
    assert!(one.contains(&Step::RunProgram) && one.contains(&Step::NoDriver));
    let shell = Build { shell: true, ..TOUR };
    assert_eq!(
        boot::handover_steps(Board::Riscv64, shell, ALL),
        vec![Step::Plic, Step::ShellBoot, Step::Park]
    );
    assert_eq!(
        boot::handover_steps(Board::Riscv64, shell, NONE),
        vec![Step::NoShell, Step::Park]
    );
    let test = Build { test: true, ..TOUR };
    assert_eq!(
        boot::handover_steps(Board::Riscv64, test, ALL),
        vec![Step::Plic, Step::External, Step::Tests, Step::Park]
    );
    assert_eq!(
        boot::handover_steps(Board::Aarch64, test, ALL),
        vec![Step::Tests, Step::Park]
    );
    let bench = Build { bench: true, ..TOUR };
    for board in [Board::Aarch64, Board::Riscv64] {
        assert_eq!(boot::handover_steps(board, bench, ALL), vec![Step::Bench, Step::Park]);
    }
    assert_eq!(
        boot::handover_steps(Board::Aarch64, TOUR, ALL),
        vec![Step::Summary, Step::Tour, Step::Shell, Step::Park]
    );
    let init = Build { initboot: true, ..TOUR };
    assert_eq!(
        boot::handover_steps(Board::Aarch64, init, ALL),
        vec![Step::Summary, Step::InitBoot, Step::Park]
    );
    assert_eq!(
        boot::handover_steps(Board::Aarch64, shell, NONE),
        vec![Step::Summary, Step::Park]
    );
}

#[test]
fn the_grind_grinds() {
    assert_eq!(bench::busy(0), 0x9E37_79B9_7F4A_7C15);
    let mut x = 0x9E37_79B9_7F4A_7C15u64;
    for i in 0..3u64 {
        x = x.wrapping_mul(6364136223846793005).wrapping_add(1442695040888963407 ^ i);
        x ^= x >> 29;
    }
    assert_eq!(bench::busy(3), x);
}

#[test]
fn the_least_contended_batch_counts() {
    assert_eq!(bench::best(&[40, 10, 30, 20]), 10);
    assert_eq!(bench::best(&[]), u64::MAX);
    assert_eq!(bench::best(&[7]), 7);
    let line = bench::timed(Bench::IpcRtt, bench::IPC_ITERS, 100, 350);
    assert_eq!(line, Line { bench: Bench::IpcRtt, ticks: 250, iters: 1000 });
    assert_eq!(bench::name(Bench::SpawnEl0), "spawn_el0");
    assert_eq!(bench::map_el0_pages(), 540);
}

#[test]
fn throughput_is_for_more_than_one_core() {
    assert_eq!(bench::smp_throughput(1, 2, 3, 4, 1), vec![]);
    let r = bench::smp_throughput(1, 2, 3, 4, 4);
    assert_eq!(r.len(), 5);
    assert_eq!(r[0].iters * 16, r[1].iters);
    assert_eq!(r[2], Line { bench: Bench::SmpPipeSolo, ticks: 3, iters: 2000 });
    assert_eq!(r[3].iters, 32000);
    assert_eq!(r[4], Line { bench: Bench::SmpCores, ticks: 4, iters: 4 });
    assert!(bench::fs_read_runs(2, true, true, true));
    assert!(!bench::fs_read_runs(1, true, true, true));
    assert!(!bench::fs_read_runs(2, true, false, true));
    assert_eq!(bench::serve([5, 6, 7]), Some([5, 0, 0]));
    assert_eq!(bench::serve([u64::MAX, 0, 0]), None);
}

#[test]
fn the_roster_is_the_machines_own_core_list() {
    let cpu = |hwid, usable, enable_method| CpuInfo { hwid, usable, enable_method };
    let list = vec![
        cpu(0, true, EnableMethod::Psci),
        cpu(1, true, EnableMethod::Unstated),
        cpu(7, true, EnableMethod::Psci),
        cpu(3, true, EnableMethod::Other),
        cpu(4, true, EnableMethod::Psci),
    ];
    let (r, n) = smp::read_cpu_list(&list, 5);
    assert_eq!(n, 3);
    assert_eq!(smp::described_count(&r), 5);
    assert_eq!(smp::hwid(&r, 2), Some(7));
    assert_eq!(smp::hwid(&r, 9), None);
    assert!(smp::boot_core_is_listed(&r, 0));
    assert!(!smp::boot_core_is_listed(&r, 2));
    let plan = smp::bring_up_secondaries(&r, 0x10_0000, 0, true);
    assert_eq!(
        plan,
        vec![
            CorePlan::Running,
            CorePlan::Start { hwid: 1, sp: 0x10_0000 + 2 * 69632 },
            CorePlan::OtherNumber { hwid: 7 },
            CorePlan::NotStartable,
        ]
    );
    assert_eq!(smp::bring_up_secondaries(&r, 0x10_0000, 0, false), vec![]);
    let (short, n) = smp::read_cpu_list(&vec![cpu(0, false, EnableMethod::Psci)], 1);
    assert_eq!((n, smp::hwid(&short, 1)), (0, None));
}

#[test]
fn every_secondary_stack_sits_on_a_guard_page() {
    let at = |off: u64| KERNEL_VA_BASE + 0x8020_0000 + off;
    let layout = ImageLayout {
        image_start: at(0),
        image_end: at(0x40_0000),
        text_start: at(0),
        text_end: at(0x10_0000),
        rodata_start: at(0x10_0000),
        rodata_end: at(0x18_0000),
        data_start: at(0x18_0000),
        bss_end: at(0x20_0000),
        stack_guard: at(0x20_0000),
        stack_bottom: at(0x20_1000),
        stack_top: at(0x21_1000),
        secondary_stacks: at(0x21_1000),
    };
    let ram = vec![Region { start: 0x8000_0000, size: 0x800_0000 }];
    let kernel = match mmu::init(layout, &ram, None, 0x8030_0000, at(0x100)) {
        Ok((map, _)) => map,
        Err(e) => panic!("{e:?}"),
    };
    let region = layout.secondary_stacks;
    for id in 0..MAX_CPUS {
        let guard = smp::secondary_stack_guard(region, id);
        let (bottom, top) = smp::secondary_stack_span(region, id);
        assert_eq!(guard % 4096, 0);
        assert_eq!(guard + 4096, bottom);
        assert_eq!(top, bottom + 65536);
        assert_eq!(top % 16, 0);
        assert_eq!(smp::stack_top(region, id), top);
        assert!(mmu::translate(&kernel, guard).is_none());
        assert!(mmu::translate(&kernel, bottom).is_some());
        assert!(mmu::translate(&kernel, top - 16).is_some());
        if id > 0 {
            assert_eq!(smp::secondary_stack_span(region, id - 1).1, guard);
        }
    }
}

#[test]
fn the_secondary_stack_region_is_the_size_the_linker_reserved() {
    let start = 0x10_0000;
    let (_, end) = smp::secondary_stack_span(start, MAX_CPUS - 1);
    assert_eq!(end - start, MAX_CPUS as u64 * smp::SECONDARY_STACK_SLOT);
    assert_eq!(smp::secondary_stack_guard(start, 0), start);
}

#[test]
fn the_round_trip_programs_hold_opposite_ends() {
    let (server, client) = bench::ipc_rtt_el0_grants(7, 8, 9);
    let recv = |ep| endpoint_cap(ep, Rights::read());
    let send = |ep| endpoint_cap(ep, Rights::write());
    assert_eq!(server, vec![recv(7), send(8)]);
    assert_eq!(client, vec![send(9), send(7), recv(8)]);
}

#[test]
fn cores_that_come_up_are_counted() {
    let mut o = smp::first_online(2);
    assert_eq!(o, Online { secondaries: 0, mask: 0b100 });
    smp::secondary_online(&mut o, 0);
    assert_eq!((smp::online_count(&o), smp::online_harts_mask(&o)), (2, 0b101));
}

#[test]
fn stack_canary_is_intact_and_we_have_headroom() {
    let mut words = stack::init();
    assert!(stack::intact(&words));
    assert_eq!(stack::warn_if_smashed(&words, 0x2000, 0x1000), None);
    words[3] = 0;
    assert!(!stack::intact(&words));
    assert_eq!(stack::warn_if_smashed(&words, 0xff0, 0x1000), Some(-16));
    assert_eq!(stack::headroom(0x3000, 0x1000), 0x2000);
    // A distance that does not fit wraps round.
    assert_eq!(stack::headroom(u64::MAX, 0), -1);
    assert_eq!(stack::headroom(0, u64::MAX), 1);
}

#[test]
fn paint_shows_the_deepest_use() {
    let mut words = vec![0u64; 64];
    stack::paint(&mut words);
    assert_eq!(stack::high_water(&words), 0);
    words[60] = 1;
    words[50] = 1;
    assert_eq!(stack::high_water(&words), 14 * 8);
    assert_eq!(stack::paint_boot_stack(0x9000, 0x1000), (0x1020, 0x8e00));
    let mut t = ThreadStacks { deepest: 0, scans: 0 };
    stack::note_thread_stack_use(&mut t, 100);
    stack::note_thread_stack_use(&mut t, 60);
    assert_eq!(t, ThreadStacks { deepest: 100, scans: 2 });
    let used = vec![10, 20, 30, 40];
    let r = stack::report_high_water(&words, 0x9000, 0x8e00, 1, 0b1011, &used, 80, &t, 400);
    assert_eq!((r.boot.used, r.boot.size, r.boot.percent), (112, 512, 21));
    assert_eq!((r.floor, r.scans), (0x200, 2));
    assert_eq!(r.cores.len(), 2);
    assert_eq!((r.cores[0].0, r.cores[0].1.percent), (0, 12));
    assert_eq!((r.cores[1].0, r.cores[1].1.percent), (3, 50));
    assert_eq!(r.threads.percent, 25);
}

#[test]
fn small_goes_to_the_slab_and_large_goes_to_the_heap() {
    assert_eq!(heap::use_slab(Some(3)), Owner::Slab);
    assert_eq!(heap::use_slab(None), Owner::Heap);
    assert_eq!(heap::realloc(false, None, None, 1, 2), Resize::Refuse);
    assert_eq!(heap::realloc(true, Some(2), Some(2), 20, 30), Resize::Stay);
    assert_eq!(heap::realloc(true, None, None, 4000, 5000), Resize::InPlace);
    assert_eq!(heap::realloc(true, Some(2), None, 30, 5000), Resize::Move { copy: 30 });
    assert_eq!(heap::realloc(true, None, Some(2), 5000, 30), Resize::Move { copy: 30 });
    assert_eq!(heap::realloc(true, Some(2), Some(3), 30, 60), Resize::Move { copy: 30 });
    assert_eq!(heap::moving(9, 4), Resize::Move { copy: 4 });
    let u = Usage {
        heap_allocated: 100,
        heap_total: 1 << 20,
        slab_allocated: 50,
        slab_capacity: 8192,
    };
    assert_eq!(heap::stats(&u), (100, 1 << 20));
    assert_eq!(heap::slab_stats(&u), (50, 8192));
    assert_eq!(heap::summary(&u), ((50, 8), (100, 1024)));
}

#[test]
fn the_console_is_set_up_in_order() {
    let w = console::init(0x1000);
    let seen: Vec<(usize, u8)> = w.iter().map(|w| (w.addr, w.value)).collect();
    assert_eq!(
        seen,
        vec![(0x1001, 0), (0x1003, 0x80), (0x1000, 1), (0x1001, 0), (0x1003, 3), (0x1002, 7)]
    );
    assert_eq!(console::rx_enable(0x1000).value, 1);
    assert_eq!(console::raise_uart_interrupt(0x1000).value, 2);
    assert_eq!(console::quiet_uart_interrupt(0x1000).value, 0);
    assert_eq!(console::uart_base(), 0xffff_ffc0_1000_0000);
    let port = Ns16550::new(0x1000);
    assert_eq!(port.write_byte(65, 0), None);
    assert_eq!(port.write_byte(65, 0x20).unwrap().value, 65);
    assert_eq!(port.write_str(&b"a\nb".to_vec()), b"a\r\nb".to_vec());
}

#[test]
fn the_interrupt_controller_has_a_bit_for_each_source_and_context() {
    let base = 0xc00_0000;
    let (priority, bit) = plic::enable(base, 33, 3, 0b1);
    assert_eq!((priority.addr, priority.value), (base + 132, 1));
    assert_eq!((bit.addr, bit.value), (base + 0x2000 + 3 * 0x80 + 4, 0b11));
    assert_eq!(plic::enable_register(base, 33, 3), bit.addr);
    assert_eq!(plic::disable(base, 33, 3, 0b11).value, 0b1);
    // Enabled and disabled again: its bit is clear, and the other one as it was.
    let off = plic::disable(base, 33, 3, bit.value);
    assert_eq!((off.addr, off.value), (bit.addr, 0b1));
    assert_eq!(plic::init(base, 1).addr, base + 0x20_1000);
    assert_eq!(plic::open_context(base, 7).value, 0);
    assert_eq!(plic::claim(base, 1), base + 0x20_1004);
    let w = plic::complete(base, 10, 1);
    assert_eq!((w.addr, w.value), (base + 0x20_1004, 10));
}

fn disk() -> Vec<Function> {
    let f = |dev, device| Function { bdf: Bdf { bus: 0, dev, func: 0 }, vendor: 0x1af4, device };
    vec![
        Function { vendor: 0x1b36, ..f(0, 0x1042) },
        f(1, pci::VIRTIO_BLK_TRANSITIONAL),
        f(2, pci::VIRTIO_BLK_MODERN),
        f(3, pci::VIRTIO_BLK_MODERN),
    ]
}

fn caps() -> Vec<VirtioCap> {
    let c = |cfg_type, offset| VirtioCap {
        cfg_type,
        bar: 4,
        offset,
        length: 0x1000,
        notify_off_multiplier: 4,
    };
    vec![c(1, 0), c(3, 0x1000), c(9, 0), c(2, 0x3000), c(2, 0x2000)]
}

fn bars() -> Vec<Option<Bar>> {
    vec![
        None,
        Some(Bar { base: 0, size: 0x1000, is_64: false }),
        None,
        None,
        Some(Bar { base: 0, size: 0x4000, is_64: true }),
        None,
    ]
}

#[test]
fn the_disk_is_found_placed_and_switched_on() {
    let mut b = bars();
    let r = pci::find_block_device(&disk(), &mut b, &caps(), 0xffff_0001, 0x0000_0100);
    assert_eq!(b[1].unwrap().base, 0x4000_0000);
    assert_eq!(b[4].unwrap().base, 0x4000_4000);
    assert_eq!(
        r.writes,
        vec![
            CfgWrite { off: 0x14, value: 0x4000_0000 },
            CfgWrite { off: 0x20, value: 0x4000_4004 },
            CfgWrite { off: 0x24, value: 0 },
            CfgWrite { off: 0x04, value: 0x7 },
        ]
    );
    let d = r.device.unwrap();
    assert_eq!(d.bdf.dev, 2);
    assert_eq!((d.common, d.isr), (0x4000_4000, 0x4000_5000));
    assert_eq!((d.notify_base, d.notify_mult), (0x4000_7000, 4));
    assert_eq!(d.intid, 34);
    assert_eq!(pci::intx_irq(3, 2), 32);
}

#[test]
fn a_disk_that_cannot_be_used_is_never_switched_on() {
    let mut b = bars();
    let r = pci::find_block_device(&vec![], &mut b, &caps(), 0, 0x100);
    assert!(r.device.is_none() && r.writes.is_empty());
    assert_eq!(b, bars());
    assert_eq!(pci::pick(&vec![]), None);
    // Too large for the window.
    let mut b = bars();
    b[4] = Some(Bar { base: 0, size: 0x40_0000, is_64: true });
    let r = pci::find_block_device(&disk(), &mut b, &caps(), 0, 0x100);
    assert!(r.device.is_none());
    assert_eq!(r.writes, vec![CfgWrite { off: 0x14, value: 0x4000_0000 }]);
    // A part is missing.
    let mut b = bars();
    let r = pci::find_block_device(&disk(), &mut b, &caps()[..2].to_vec(), 0, 0x100);
    assert!(r.device.is_none());
    assert_eq!(r.writes.len(), 3);
    // It says it has no interrupt.
    let mut b = bars();
    let r = pci::find_block_device(&disk(), &mut b, &caps(), 0, 0);
    assert!(r.device.is_none());
    // Beyond the end of its register.
    let far = VirtioCap { offset: 0x3001, ..caps()[0] };
    assert_eq!(pci::resolve(&b, far), None);
    let none = VirtioCap { bar: 9, ..caps()[0] };
    assert_eq!(pci::resolve(&b, none), None);
    assert_eq!(pci::find_blocks(&b, &vec![far]).common, None);
}
