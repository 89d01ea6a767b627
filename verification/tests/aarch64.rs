use cricker_os::arch::aarch64::context::Context;
use cricker_os::arch::aarch64::exceptions;
use cricker_os::arch::aarch64::exceptions::{Outcome, TrapFrame};
use cricker_os::arch::aarch64::isa;
use cricker_os::arch::aarch64::isa::{Granules, Isa, Missing};
use cricker_os::arch::aarch64::mmu;
use cricker_os::arch::aarch64::mmu::{Unsound, KERNEL_VA_BASE};
use cricker_os::arch::aarch64::semihosting;
use cricker_os::arch::aarch64::timer;
use cricker_os::arch::kernel_map::ImageLayout;
use cricker_os::frames::Region;
use cricker_os::paging::{Flags, MapError, PageMap};
use cricker_os::tables::Tables;

fn at(off: u64) -> u64 {
    KERNEL_VA_BASE + 0x4008_0000 + off
}

fn layout() -> ImageLayout {
    ImageLayout {
        image_start: at(0),
        image_end: at(0x40_0000),
        text_start: at(0),
        text_end: at(0x10_0000),
        rodata_start: at(0x10_0000),
        rodata_end: at(0x18_0000),
        data_start: at(0x18_0000),
        bss_end: at(0x20_0000),
        stack_guard: at(0x20_0000),
        stack_bottom: at(0x20_1000),
        stack_top: at(0x21_1000),
        secondary_stacks: at(0x21_1000),
    }
}

fn kernel() -> PageMap {
    let ram = vec![Region { start: 0x4000_0000, size: 0x800_0000 }];
    match mmu::init(layout(), &ram, at(0x100), at(0x21_0000)) {
        Ok(map) => map,
        Err(e) => panic!("{e:?}"),
    }
}

fn frame() -> TrapFrame {
    let mut x = [0; 31];
    x[7] = 77;
    TrapFrame { x, elr: 0x1000, spsr: 5, pad: 0 }
}

#[test]
fn the_direct_map_is_an_offset_here_too() {
    assert_eq!(mmu::phys_to_virt(0x4008_0000), 0xffff_0000_4008_0000);
    assert_eq!(mmu::virt_to_phys(0xffff_0000_4008_0000), 0x4008_0000);
    assert!(mmu::is_enabled(1));
    assert!(!mmu::is_enabled(0x30d0_0800));
}

#[test]
fn every_section_has_its_own_permissions() {
    let m = kernel();
    assert_eq!(mmu::translate(&m, at(0)), Some((0x4008_0000, Flags::kernel_code())));
    assert_eq!(mmu::translate(&m, at(0x10_0000)), Some((0x4018_0000, Flags::kernel_rodata())));
    assert_eq!(mmu::translate(&m, at(0x18_0000)), Some((0x4020_0000, Flags::kernel_data())));
    assert_eq!(mmu::translate(&m, at(0x20_0000)), None);
    assert_eq!(mmu::translate(&m, at(0x20_1000)), Some((0x4028_1000, Flags::kernel_data())));
    let uart = mmu::translate(&m, KERNEL_VA_BASE + mmu::UART_BASE);
    assert_eq!(uart, Some((mmu::UART_BASE, Flags::device())));
    assert_eq!(mmu::translate(&m, 0x4008_0000), None);
}

#[test]
fn the_stack_is_looked_at_before_the_switch() {
    let m = kernel();
    let guard = at(0x20_0000);
    assert_eq!(mmu::verify(&m, at(0x100), at(0x21_0000), layout()), Ok(()));
    assert_eq!(mmu::verify(&m, guard, at(0x21_0000), layout()), Err(Unsound::CodeUnmapped));
    assert_eq!(
        mmu::verify(&m, at(0x18_0000), at(0x21_0000), layout()),
        Err(Unsound::CodeNotExecutable)
    );
    assert_eq!(mmu::verify(&m, at(0x100), guard, layout()), Err(Unsound::StackUnmapped));
    assert_eq!(mmu::verify(&m, at(0x100), at(0x10_0000), layout()), Err(Unsound::StackNotWritable));
    assert_eq!(
        mmu::verify(
            &m,
            at(0x100),
            at(0x21_0000),
            ImageLayout { stack_guard: at(0x20_1000), ..layout() }
        ),
        Err(Unsound::GuardMapped)
    );
    assert_eq!(
        mmu::verify(
            &m,
            at(0x100),
            at(0x21_0000),
            ImageLayout { secondary_stacks: at(0x21_2000), ..layout() }
        ),
        Err(Unsound::SecondaryGuardMapped)
    );
}

#[test]
fn pages_come_and_go() {
    let mut m = kernel();
    let va = KERNEL_VA_BASE + 0x1_0000_0000;
    let mut t = Tables::new(mmu::TOP_SHIFT);
    let mut supply = vec![0x4600_0000, 0x4600_1000];
    let data = Flags::kernel_data();
    // Three tables on the way down, and frames for two.
    assert_eq!(
        mmu::map_page(&mut m, &mut t, &mut supply, va, 0x4700_0000, data),
        Err(MapError::OutOfFrames)
    );
    supply.push(0x4600_2000);
    assert_eq!(mmu::map_page(&mut m, &mut t, &mut supply, va, 0x4700_0000, data), Ok(()));
    assert_eq!(
        mmu::map_page(&mut m, &mut t, &mut supply, va, 0x4700_0000, data),
        Err(MapError::AlreadyMapped)
    );
    assert_eq!(mmu::unmap_page(&mut m, va), Ok(0x4700_0000));
    assert_eq!(mmu::unmap_page(&mut m, va), Err(MapError::NotMapped));
    assert_eq!(mmu::flush_tlb(0xffff_0000_4008_0000), 0xf_fff0_0004_0080);
}

#[test]
fn breakpoint_is_caught_and_execution_resumes() {
    let mut f = frame();
    let mut n = 0;
    let o = exceptions::exception_dispatch(&mut f, &mut n, 0x3c << 26, 0);
    assert!(matches!(o, Outcome::Resume));
    assert_eq!((f.elr, n, f.x[7]), (0x1004, 1, 77));
}

#[test]
fn anything_else_is_fatal_and_fully_reported() {
    let mut f = frame();
    let mut n = 0;
    match exceptions::exception_dispatch(&mut f, &mut n, (0x25 << 26) | 0x46, 0xdead) {
        Outcome::Fatal(r) => {
            assert_eq!((r.class, r.esr & 0x3f, r.far), (0x25, 6, Some(0xdead)));
            assert_eq!((r.elr, r.spsr, r.x[7]), (0x1000, 5, 77));
            assert_eq!(exceptions::ec_name(r.class), "Data abort from the same EL");
        }
        Outcome::Resume => panic!("a data abort went on"),
    }
    match exceptions::exception_dispatch(&mut f, &mut n, 0, 0xdead) {
        Outcome::Fatal(r) => assert_eq!((r.class, r.far), (0, None)),
        Outcome::Resume => panic!("an unknown exception went on"),
    }
    assert_eq!((f.elr, n), (0x1000, 0));
}

#[test]
fn vectors_and_classes_have_names() {
    assert_eq!(exceptions::vector_name(0), ("Current EL, SP_EL0", "Synchronous"));
    assert_eq!(exceptions::vector_name(5), ("Current EL, SP_ELx", "IRQ"));
    assert_eq!(exceptions::vector_name(10), ("Lower EL, AArch64", "FIQ"));
    assert_eq!(exceptions::vector_name(15), ("Lower EL, AArch32", "SError"));
    assert_eq!(exceptions::vector_name(16), ("<vector index out of range>", ""));
    assert_eq!(exceptions::ec_name(0x3f), "unrecognized exception class");
    assert!(exceptions::far_is_meaningful(exceptions::EC_PC_ALIGNMENT_FAULT));
    assert!(!exceptions::far_is_meaningful(exceptions::EC_SP_ALIGNMENT_FAULT));
}

#[test]
fn the_register_dump_leaves_nothing_out() {
    let mut shown = Vec::new();
    for row in 0..8 {
        let (from, to) = exceptions::print_reg_row(row);
        for r in from..to {
            shown.push(r);
        }
    }
    let all: Vec<usize> = (0..31).collect();
    assert_eq!(shown, all);
}

#[test]
fn a_processor_that_lacks_something_is_refused() {
    let good = Isa {
        implementer: 0x41,
        part: 0xd08,
        variant: 0,
        revision: 3,
        pa_range: 4,
        va_bits: 48,
        asid_bits: Some(16),
        granules: Granules { k4: true, k16: false, k64: true },
    };
    let mut record = None;
    let bad = Isa { asid_bits: None, granules: Granules { k4: false, ..good.granules }, ..good };
    assert_eq!(
        isa::init(&mut record, bad),
        Err(Missing { granule_4k: true, asid_bits: true })
    );
    assert!(record.is_none());
    assert_eq!(isa::init(&mut record, good), Ok(()));
    assert_eq!(isa::get(&record), good);
    assert_eq!(
        isa::missing_requirements(&good),
        Missing { granule_4k: false, asid_bits: false }
    );
}

#[test]
fn the_timer_takes_its_interval_from_the_frequency() {
    let mut t = timer::stopped();
    assert_eq!(timer::init(&mut t, 62_500_000, 10), 625_010);
    assert_eq!(timer::interval(&t), 625_000);
    assert_eq!(timer::tick(&mut t, 625_400), 1_250_010);
    assert_eq!((timer::ticks(&t), timer::missed_ticks(&t)), (1, 0));
    assert_eq!(timer::tick(&mut t, 9_000_000), 9_625_000);
    assert_eq!((timer::ticks(&t), timer::missed_ticks(&t)), (2, 1));
    assert_eq!(timer::uptime_ms(125_000_000, 62_500_000), 2000);
    assert_eq!(timer::uptime_ms(5, 0), 0);
    assert!(timer::spin_for(5, 15, 10));
    assert!(!timer::spin_for(5, 14, 10));
}

#[test]
fn contexts_and_the_exit_block() {
    let c = Context::for_kernel_thread(0x100, 0x200, 0x300);
    assert_eq!((c.x30, c.x19, c.x20), (0x100, 0x200, 0x300));
    let c = Context::for_user_thread(0x100, 0x1_0000, 0x2_0000, [1, 2, 3]);
    assert_eq!((c.x30, c.x19, c.x20), (0x100, 0x1_0000, 0x2_0000));
    assert_eq!((c.x21, c.x22, c.x23), (1, 2, 3));
    assert_eq!(semihosting::exit(semihosting::EXIT_FAILURE), [0x2_0026, 1]);
}

#[test]
fn only_the_upper_half_is_walked() {
    let i = mmu::install(0x4800_3000, 5);
    assert_eq!(i.tcr, 0x5_b510_3590);
    assert_eq!((i.tcr >> 7) & 1, 1);
    assert_eq!((i.tcr >> 16) & 0x3f, 16);
    assert_eq!(mmu::install(0, 0xd).tcr, i.tcr);
    assert_eq!(mmu::kernel_root(i.ttbr1), 0x4800_3000);
    assert_eq!(mmu::kernel_root(0x12_0000_4800_3001), 0x4800_3000);
}
