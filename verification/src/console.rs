//! The console: the one device whose address is fixed, because it has to work before anything can
//! be read that would tell.
use vstd::prelude::*;

use crate::arch::riscv64::mmu;
use crate::drivers::ns16550;
use crate::drivers::ns16550::{Ns16550, Write8};

verus! {

/// The console's port, as the kernel names it.
fn port(base: usize) -> (p: Ns16550)
    ensures
        p.base == base,
{
    Ns16550::new(base)
}

/// Where the console's registers are, as the kernel names them.
pub fn uart_base() -> (va: u64)
    ensures
        va == mmu::UART_BASE + mmu::KERNEL_VA_BASE,
{
    mmu::phys_to_virt(mmu::UART_BASE)
}

/// Set the console up.
pub fn init(base: usize) -> (w: Vec<Write8>)
    requires
        base + 8 <= usize::MAX,
    ensures
        w@ == seq![
            Write8 { addr: (base + ns16550::IER) as usize, value: 0 },
            Write8 { addr: (base + ns16550::LCR) as usize, value: ns16550::LCR_DLAB },
            Write8 { addr: (base + ns16550::THR) as usize, value: 1 },
            Write8 { addr: (base + ns16550::IER) as usize, value: 0 },
            Write8 { addr: (base + ns16550::LCR) as usize, value: ns16550::LCR_8N1 },
            Write8 { addr: (base + ns16550::FCR) as usize, value: ns16550::FCR_ENABLE_CLEAR },
        ],
{
    port(base).init()
}

/// Have the console interrupt while a keystroke waits.
pub fn rx_enable(base: usize) -> (w: Write8)
    requires
        base + 8 <= usize::MAX,
    ensures
        w == (Write8 { addr: (base + ns16550::IER) as usize, value: ns16550::IER_ERBFI }),
{
    port(base).enable_rx_interrupt()
}

/// Raise the console's interrupt. What it sends it sends by waiting, so nothing else answers to it.
pub fn raise_uart_interrupt(base: usize) -> (w: Write8)
    requires
        base + 8 <= usize::MAX,
    ensures
        w == (Write8 { addr: (base + ns16550::IER) as usize, value: ns16550::IER_ETBEI }),
{
    port(base).enable_tx_interrupt()
}

/// Lower it again.
pub fn quiet_uart_interrupt(base: usize) -> (w: Write8)
    requires
        base + 8 <= usize::MAX,
    ensures
        w == (Write8 { addr: (base + ns16550::IER) as usize, value: 0 }),
{
    port(base).disable_interrupts()
}

} // verus!
