//! The serial port: eight byte-wide registers, of which the console uses five.
use vstd::prelude::*;

verus! {

/// What is written to is the byte to send; with the divisor latch open, the divisor's low half.
pub const THR: usize = 0;

/// Which interrupts are on; with the divisor latch open, the divisor's high half.
pub const IER: usize = 1;

pub const FCR: usize = 2;

pub const LCR: usize = 3;

pub const LSR: usize = 5;

/// Eight data bits, no parity, one stop bit.
pub const LCR_8N1: u8 = 3;

/// Opens the divisor latch.
pub const LCR_DLAB: u8 = 0x80;

/// The queues on, and empty.
pub const FCR_ENABLE_CLEAR: u8 = 7;

/// There is room for another byte.
pub const LSR_THRE: u8 = 0x20;

/// Interrupt while a byte waits to be read.
pub const IER_ERBFI: u8 = 1;

/// Interrupt while there is room for another byte.
pub const IER_ETBEI: u8 = 2;

/// A register of the port, and what goes into it.
#[derive(Debug, Clone, Copy, PartialEq, Eq, Structural)]
pub struct Write8 {
    pub addr: usize,
    pub value: u8,
}

/// One serial port.
#[derive(Debug, Clone, Copy, PartialEq, Eq, Structural)]
pub struct Ns16550 {
    pub base: usize,
}

/// The bytes as a terminal wants them: a carriage return in front of every line feed.
pub open spec fn with_returns(s: Seq<u8>) -> Seq<u8>
    decreases s.len(),
{
    if s.len() == 0 {
        Seq::empty()
    } else if s.last() == 10 {
        with_returns(s.drop_last()).push(13).push(10)
    } else {
        with_returns(s.drop_last()).push(s.last())
    }
}

impl Ns16550 {
    /// Do the port's registers all have addresses?
    pub open spec fn fits(self) -> bool {
        self.base + 8 <= usize::MAX
    }

    /// The port whose registers are at `base`.
    pub fn new(base: usize) -> (p: Ns16550)
        ensures
            p.base == base,
    {
        Ns16550 { base }
    }

    /// **Set the port up**: interrupts off, the divisor behind its latch, eight bits without parity,
    /// the queues on. In this order.
    pub fn init(&self) -> (w: Vec<Write8>)
        requires
            self.fits(),
        ensures
            w@ == seq![
                Write8 { addr: (self.base + IER) as usize, value: 0 },
                Write8 { addr: (self.base + LCR) as usize, value: LCR_DLAB },
                Write8 { addr: (self.base + THR) as usize, value: 1 },
                Write8 { addr: (self.base + IER) as usize, value: 0 },
                Write8 { addr: (self.base + LCR) as usize, value: LCR_8N1 },
                Write8 { addr: (self.base + FCR) as usize, value: FCR_ENABLE_CLEAR },
            ],
    {
        let mut w: Vec<Write8> = Vec::new();
        w.push(Write8 { addr: self.base + IER, value: 0 });
        w.push(Write8 { addr: self.base + LCR, value: LCR_DLAB });
        w.push(Write8 { addr: self.base + THR, value: 1 });
        w.push(Write8 { addr: self.base + IER, value: 0 });
        w.push(Write8 { addr: self.base + LCR, value: LCR_8N1 });
        w.push(Write8 { addr: self.base + FCR, value: FCR_ENABLE_CLEAR });
        w
    }

    /// Send one byte, `lsr` being what the status register says. `None` if there is no room yet.
    pub fn write_byte(&self, byte: u8, lsr: u8) -> (w: Option<Write8>)
        requires
            self.fits(),
        ensures
            w == (if lsr & LSR_THRE == 0 {
                None
            } else {
                Some(Write8 { addr: (self.base + THR) as usize, value: byte })
            }),
    {
        if lsr & LSR_THRE == 0 {
            None
        } else {
            Some(Write8 { addr: self.base + THR, value: byte })
        }
    }

    /// Interrupt from now on while a byte waits to be read.
    pub fn enable_rx_interrupt(&self) -> (w: Write8)
        requires
            self.fits(),
        ensures
            w == (Write8 { addr: (self.base + IER) as usize, value: IER_ERBFI }),
    {
        Write8 { addr: self.base + IER, value: IER_ERBFI }
    }

    /// Interrupt from now on while there is room for another byte: at once, that is, for nothing
    /// here is sent by interrupt.
    pub fn enable_tx_interrupt(&self) -> (w: Write8)
        requires
            self.fits(),
        ensures
            w == (Write8 { addr: (self.base + IER) as usize, value: IER_ETBEI }),
    {
        Write8 { addr: self.base + IER, value: IER_ETBEI }
    }

    /// Never interrupt, as [`Ns16550::init`] left it.
    pub fn disable_interrupts(&self) -> (w: Write8)
        requires
            self.fits(),
        ensures
            w == (Write8 { addr: (self.base + IER) as usize, value: 0 }),
    {
        Write8 { addr: self.base + IER, value: 0 }
    }

    /// The bytes that are sent for `text`, in order.
    pub fn write_str(&self, text: &Vec<u8>) -> (sent: Vec<u8>)
        ensures
            sent@ == with_returns(text@),
    {
        let mut sent: Vec<u8> = Vec::new();
        let mut i: usize = 0;
        while i < text.len()
            invariant
                i <= text@.len(),
                sent@ == with_returns(text@.take(i as int)),
            decreases text@.len() - i,
        {
            assert(text@.take(i + 1).drop_last() =~= text@.take(i as int));
            if text[i] == 10 {
                sent.push(13);
            }
            sent.push(text[i]);
            i += 1;
        }
        assert(text@.take(i as int) =~= text@);
        sent
    }
}

/// **Every byte is sent, and a line feed with a return in front of it.** A text is sent as its parts
/// are, one after another; a line feed is sent as two bytes, and any other byte as itself.
pub proof fn law_every_byte_is_sent(a: Seq<u8>, b: Seq<u8>, byte: u8)
    ensures
        with_returns(a + b) == with_returns(a) + with_returns(b),
        byte == 10 ==> with_returns(seq![byte]) == seq![13u8, 10u8],
        byte != 10 ==> with_returns(seq![byte]) == seq![byte],
    decreases b.len(),
{
    let one = seq![byte];
    assert(one.drop_last() =~= Seq::<u8>::empty());
    assert(with_returns(one.drop_last()) =~= Seq::<u8>::empty());
    assert(byte == 10 ==> with_returns(one) =~= seq![13u8, 10u8]);
    assert(byte != 10 ==> with_returns(one) =~= seq![byte]);
    if b.len() == 0 {
        assert(a + b =~= a);
        assert(with_returns(a) + with_returns(b) =~= with_returns(a));
    } else {
        law_every_byte_is_sent(a, b.drop_last(), byte);
        assert((a + b).drop_last() =~= a + b.drop_last());
        assert((a + b).last() == b.last());
        assert(with_returns(a + b) =~= with_returns(a) + with_returns(b));
    }
}

} // verus!
