//! Traps: what a saved frame holds, what a cause means, and what is done about it.
use vstd::prelude::*;

use crate::arch::heartbeat;
use crate::arch::heartbeat::Heartbeat;
use crate::arch::riscv64::timer;
use crate::cpu::{CpuView, MAX_CPUS, NO_TID};
use crate::machine::{Machine, MAX_INTID};
use crate::model::delivery;
use crate::model::laws;
use crate::model::place;
use crate::model::turns;
use crate::model::MView;
use crate::sched;
use crate::sched::Switch;
use crate::thread::State;

verus! {

/// The registers a trap saves.
#[derive(Debug, Clone, Copy)]
pub struct TrapFrame {
    /// The general registers. The first is always zero, so that an index is a register's number.
    pub x: [u64; 32],
    /// Where the interrupted code goes on.
    pub sepc: u64,
    pub scause: u64,
    /// The address or the instruction that trapped.
    pub stval: u64,
    pub sstatus: u64,
}

impl TrapFrame {
    /// The number of the system call.
    pub fn syscall_nr(&self) -> (nr: u64)
        ensures
            nr == self.x@[17],
    {
        self.x[17]
    }

    /// Argument `i` of the system call.
    pub fn arg(&self, i: usize) -> (v: u64)
        requires
            i < 22,
        ensures
            v == self.x@[10 + i],
    {
        self.x[10 + i]
    }

    /// Set argument, or result, `i` of the system call.
    pub fn set_arg(&mut self, i: usize, v: u64)
        requires
            i < 22,
        ensures
            final(self).x@ == old(self).x@.update(10 + i, v),
            final(self).sepc == old(self).sepc,
            final(self).scause == old(self).scause,
            final(self).stval == old(self).stval,
            final(self).sstatus == old(self).sstatus,
    {
        self.x[10 + i] = v;
    }

    /// **The frame that drops a new thread into user mode** at `entry`, on the stack `user_sp`, with
    /// the three arguments. It returns to user mode, to 64 bits, and with interrupts on afterwards;
    /// none of the kernel's pointers is left in a register.
    pub fn for_user_entry(entry: u64, user_sp: u64, args: [u64; 3]) -> (f: TrapFrame)
        ensures
            f.sepc == entry,
            f.scause == 0,
            f.stval == 0,
            f.sstatus == user_status(),
            forall|i: int|
                0 <= i < 32 ==> #[trigger] f.x@[i] == (if i == 2 {
                    user_sp
                } else if 10 <= i <= 12 {
                    args@[i - 10]
                } else {
                    0
                }),
    {
        let mut x: [u64; 32] = [0; 32];
        x[10] = args[0];
        x[11] = args[1];
        x[12] = args[2];
        x[2] = user_sp;
        TrapFrame { x, sepc: entry, scause: 0, stval: 0, sstatus: (1 << 5) | (2 << 32) }
    }
}

/// The status a new user thread starts with: interrupts on after the return, and 64 bits.
pub open spec fn user_status() -> u64 {
    (1u64 << 5) | (2u64 << 32)
}

/// **A frame made up for user mode neither returns to the kernel nor opens interrupts before the
/// return**, and it returns to 64 bits.
pub proof fn law_a_made_up_frame_is_harmless()
    ensures
        user_status() & (1u64 << 1) == 0,
        user_status() & (1u64 << 8) == 0,
        user_status() & (1u64 << 5) != 0,
        (user_status() >> 32) & 3 == 2,
{
    assert(((1u64 << 5) | (2u64 << 32)) & (1u64 << 1) == 0 && ((1u64 << 5) | (2u64 << 32)) & (1u64
        << 8) == 0 && ((1u64 << 5) | (2u64 << 32)) & (1u64 << 5) != 0 && (((1u64 << 5) | (2u64
        << 32)) >> 32) & 3 == 2) by (bit_vector);
}

/// Where a user thread's frame would have its program counter, for a report. The frame is not at a
/// fixed place on the stack, so nothing is claimed of it.
pub fn user_pc(stack_top: u64) -> (pc: u64)
    ensures
        pc == 0,
{
    0
}

/// What a trap is.
#[derive(Debug, Clone, Copy, PartialEq, Eq, Structural)]
pub enum Trap {
    /// The timer.
    Timer,
    /// A device, through the interrupt controller.
    External,
    /// Another core.
    Software,
    /// An interrupt nobody asked for.
    Spurious,
    /// A system call.
    Syscall,
    /// A breakpoint in the kernel.
    Breakpoint,
    /// A user thread did what it may not do.
    UserFault,
    /// The kernel did.
    KernelFault,
}

/// What the trap with this cause and this status is.
pub open spec fn trap_of(scause: u64, sstatus: u64) -> Trap {
    let code = scause & 0xff;
    if scause & (1u64 << 63) != 0 {
        if code == 5 {
            Trap::Timer
        } else if code == 9 {
            Trap::External
        } else if code == 1 {
            Trap::Software
        } else {
            Trap::Spurious
        }
    } else if code == 8 {
        Trap::Syscall
    } else if code == 3 && sstatus & (1u64 << 8) != 0 {
        Trap::Breakpoint
    } else if sstatus & (1u64 << 8) == 0 {
        Trap::UserFault
    } else {
        Trap::KernelFault
    }
}

/// What kind of trap is this? A breakpoint in user mode is a fault: a program that asks to be
/// stopped is stopped.
pub fn classify(frame: &TrapFrame) -> (t: Trap)
    ensures
        t == trap_of(frame.scause, frame.sstatus),
{
    let code: u64 = frame.scause & 0xff;
    if frame.scause & (1u64 << 63) != 0 {
        if code == timer::TIMER_INTID as u64 {
            Trap::Timer
        } else if code == 9 {
            Trap::External
        } else if code == 1 {
            Trap::Software
        } else {
            Trap::Spurious
        }
    } else {
        let from_user = frame.sstatus & (1u64 << 8) == 0;
        if code == 8 {
            Trap::Syscall
        } else if code == 3 && !from_user {
            Trap::Breakpoint
        } else if from_user {
            Trap::UserFault
        } else {
            Trap::KernelFault
        }
    }
}

/// **No exception from user mode is the kernel's.** Whatever a program does that traps and is no
/// interrupt is a system call, if that is the cause, and the program's own fault otherwise; and what
/// is called the kernel's fault happened in the kernel, and is neither a system call nor a
/// breakpoint. An interrupt is what its number says, wherever it came from, and never a fault.
pub proof fn law_a_trap_is_whose_it_is(scause: u64, sstatus: u64)
    ensures
        ({
            let t = trap_of(scause, sstatus);
            let interrupt = scause >= 0x8000_0000_0000_0000;
            let number = scause % 256;
            let kernel = (sstatus / 256) % 2 == 1;
            &&& !interrupt && !kernel ==> t == (if number == 8 {
                Trap::Syscall
            } else {
                Trap::UserFault
            })
            &&& !interrupt && kernel ==> t == (if number == 8 {
                Trap::Syscall
            } else if number == 3 {
                Trap::Breakpoint
            } else {
                Trap::KernelFault
            })
            &&& t == Trap::KernelFault ==> kernel && !interrupt
            &&& t == Trap::UserFault ==> !kernel && !interrupt
            &&& t == Trap::Breakpoint ==> kernel && !interrupt
            &&& interrupt ==> t == (if number == 5 {
                Trap::Timer
            } else if number == 9 {
                Trap::External
            } else if number == 1 {
                Trap::Software
            } else {
                Trap::Spurious
            })
        }),
{
    assert((scause & (1u64 << 63) != 0) == (scause >= 0x8000_0000_0000_0000) && scause & 0xff
        == scause % 256 && (sstatus & (1u64 << 8) != 0) == ((sstatus / 256) % 2 == 1))
        by (bit_vector);
}

/// How often each thing has happened. Each count wraps, as an atomic counter does.
#[derive(Debug, Clone, Copy, PartialEq, Eq, Structural)]
pub struct Counts {
    pub routed_irqs: u64,
    pub spurious_irqs: u64,
    pub syscalls: u64,
    pub user_faults: u64,
    pub breakpoints: u64,
}

/// What the kernel does about an exception.
#[derive(Debug, Clone, Copy, PartialEq, Eq, Structural)]
pub enum Verdict {
    /// Serve the system call, and go on behind it.
    Serve,
    /// Go on behind the instruction.
    Resume,
    /// End the thread: it trapped at `pc`, over `addr`.
    Kill { pc: u64, addr: u64 },
    /// Stop the machine.
    Panic,
}

/// How long the instruction is whose first half word is `low`.
pub open spec fn insn_len(low: u16) -> int {
    if low & 0b11 == 0b11 {
        4
    } else {
        2
    }
}

/// **Decide about an exception**, `low` being the first half word of the instruction that trapped.
/// A system call and a breakpoint go on behind the instruction; a user thread that faults dies; a
/// fault in the kernel is the end.
pub fn handle_exception(frame: &mut TrapFrame, counts: &mut Counts, low: u16) -> (v: Verdict)
    requires
        match trap_of(old(frame).scause, old(frame).sstatus) {
            Trap::Syscall => old(frame).sepc <= u64::MAX - 4,
            Trap::Breakpoint => old(frame).sepc + insn_len(low) <= u64::MAX,
            _ => true,
        },
    ensures
        final(frame).x@ == old(frame).x@,
        final(frame).scause == old(frame).scause,
        final(frame).stval == old(frame).stval,
        final(frame).sstatus == old(frame).sstatus,
        old(frame).scause < 0x8000_0000_0000_0000 && (old(frame).sstatus / 256) % 2 == 0 ==> v
            == Verdict::Serve || v == (Verdict::Kill {
            pc: old(frame).sepc,
            addr: old(frame).stval,
        }),
        v == Verdict::Panic ==> (old(frame).sstatus / 256) % 2 == 1,
        match trap_of(old(frame).scause, old(frame).sstatus) {
            Trap::Syscall => {
                &&& v == Verdict::Serve
                &&& final(frame).sepc == old(frame).sepc + 4
                &&& *final(counts) == (Counts {
                    syscalls: heartbeat::bump(old(counts).syscalls),
                    ..*old(counts)
                })
            },
            Trap::Breakpoint => {
                &&& v == Verdict::Resume
                &&& final(frame).sepc == old(frame).sepc + insn_len(low)
                &&& *final(counts) == (Counts {
                    breakpoints: heartbeat::bump(old(counts).breakpoints),
                    ..*old(counts)
                })
            },
            Trap::UserFault => {
                &&& v == (Verdict::Kill { pc: old(frame).sepc, addr: old(frame).stval })
                &&& final(frame).sepc == old(frame).sepc
                &&& *final(counts) == (Counts {
                    user_faults: heartbeat::bump(old(counts).user_faults),
                    ..*old(counts)
                })
            },
            Trap::KernelFault => {
                &&& v == Verdict::Panic
                &&& final(frame).sepc == old(frame).sepc
                &&& *final(counts) == *old(counts)
            },
            _ => {
                &&& v == Verdict::Resume
                &&& final(frame).sepc == old(frame).sepc
                &&& *final(counts) == *old(counts)
            },
        },
{
    proof {
        law_a_trap_is_whose_it_is(frame.scause, frame.sstatus);
    }
    match classify(frame) {
        Trap::Syscall => {
            counts.syscalls = counts.syscalls.wrapping_add(1);
            frame.sepc = frame.sepc + 4;
            Verdict::Serve
        },
        Trap::Breakpoint => {
            counts.breakpoints = counts.breakpoints.wrapping_add(1);
            let step: u64 = if low & 0b11 == 0b11 {
                4
            } else {
                2
            };
            frame.sepc = frame.sepc + step;
            Verdict::Resume
        },
        Trap::UserFault => {
            counts.user_faults = counts.user_faults.wrapping_add(1);
            Verdict::Kill { pc: frame.sepc, addr: frame.stval }
        },
        Trap::KernelFault => Verdict::Panic,
        _ => Verdict::Resume,
    }
}

/// **An instruction is four bytes long exactly if its two lowest bits are set**, and two otherwise.
pub proof fn law_how_long_an_instruction_is(low: u16)
    ensures
        insn_len(low) == (if low % 4 == 3 {
            4int
        } else {
            2
        }),
{
    assert(low & 0b11 == low % 4) by (bit_vector);
}

/// What an interrupt leaves for the caller to do at the hardware, and the switch to carry out after
/// that.
#[derive(Debug, Clone, Copy, PartialEq, Eq, Structural)]
pub struct Reaction {
    /// The timer's next deadline.
    pub deadline: Option<u64>,
    /// The source to mask, until its driver has quieted the device.
    pub mask: Option<u32>,
    /// The source whose claim is to be ended.
    pub complete: Option<u32>,
    /// The core to poke.
    pub poke: Option<usize>,
    pub switch: Option<Switch>,
}

/// The endpoint interrupt `source` is bound to.
pub open spec fn route(m: MView, source: u32) -> Option<u64> {
    if source < MAX_INTID && m.irq_routes[source as int] != 0 {
        Some((m.irq_routes[source as int] - 1) as u64)
    } else {
        None
    }
}

/// The machine after the event itself: a beat asks for a scheduling decision, a device's interrupt
/// that is bound becomes a message, and another core's poke means that there is something in the
/// inbox or somebody without work.
pub open spec fn after_event(m: MView, c: int, trap: Trap, source: u32) -> MView {
    match trap {
        Trap::Timer => m.with_cpu(c, CpuView { need_resched: true, ..m.cpus[c] }),
        Trap::External => match route(m, source) {
            Some(ep) if source != 0 => m.notified(c, m.lightest(c), ep),
            _ => m,
        },
        Trap::Software => m.drained(c).steal_served(c),
        _ => m,
    }
}

/// The machine after the wish for a scheduling decision was granted, if there was one: the switch
/// happens here, at the end of the handler, and nowhere in it.
pub open spec fn preempted(m: MView, c: int) -> MView {
    let m1 = m.with_cpu(c, CpuView { need_resched: false, ..m.cpus[c] });
    if m.cpus[c].need_resched && m.running {
        MView { preemptions: heartbeat::bump(m.preemptions), ..m1 }.scheduled(c)
    } else {
        m1
    }
}

/// Can core `c` be interrupted? It has arrived in the thread it runs, and it has something to fall
/// back on.
pub open spec fn interruptible(m: MView, c: int) -> bool {
    let cpu = m.cpus[c];
    &&& cpu.switched_from == NO_TID
    &&& m.running ==> {
        &&& m.threads.contains_key(cpu.current)
        &&& cpu.idle != NO_TID
        &&& cpu.current == cpu.idle ==> m.threads[cpu.current].state == State::Running
            && !m.threads[cpu.current].killed
    }
}

/// No event changes that.
proof fn lemma_event(m: MView, c: int, trap: Trap, source: u32)
    requires
        m.inv(),
        0 <= c < m.cpus.len(),
        interruptible(m, c),
        trap == Trap::External && source != 0 && route(m, source) is Some ==> 0 <= m.lightest(c)
            < m.cpus.len(),
        m.cpus[c].steal_request <= m.cpus.len(),
    ensures
        interruptible(after_event(m, c, trap, source), c),
        after_event(m, c, trap, source).running == m.running,
        after_event(m, c, trap, source).cpus.len() == m.cpus.len(),
{
    reveal(MView::inv);
    let b = after_event(m, c, trap, source);
    if trap == Trap::External && source != 0 && route(m, source) is Some {
        let ep = route(m, source)->0;
        if m.endpoints.contains_key(ep) && m.endpoints[ep].on_signal() is Some {
            let r = m.endpoints[ep].on_signal()->0;
            let p = crate::model::Place::Receivers(ep);
            assert(m.queue(p)[0] == r);
            assert(m.fits(p, m.threads[r]));
        }
    }
}

/// What is masked, ended and poked on account of the event.
pub open spec fn event_actions(m: MView, c: int, trap: Trap, source: u32) -> (
    Option<u32>,
    Option<u32>,
    Option<usize>,
) {
    match trap {
        Trap::External => if source == 0 {
            (None, None, None)
        } else {
            match route(m, source) {
                Some(ep) => (
                    Some(source),
                    Some(source),
                    sched::irq::notify_poke(m, c, m.lightest(c), ep),
                ),
                None => (None, Some(source), None),
            }
        },
        Trap::Software => (
            None,
            None,
            match m.drained(c).thief(c) {
                Some(t) => Some(t as usize),
                None => None,
            },
        ),
        _ => (None, None, None),
    }
}

/// The counts after the event.
pub open spec fn event_counts(m: MView, counts: Counts, trap: Trap, source: u32) -> Counts {
    match trap {
        Trap::External if source != 0 => match route(m, source) {
            Some(_) => Counts { routed_irqs: heartbeat::bump(counts.routed_irqs), ..counts },
            None => Counts { spurious_irqs: heartbeat::bump(counts.spurious_irqs), ..counts },
        },
        Trap::Spurious => Counts { spurious_irqs: heartbeat::bump(counts.spurious_irqs), ..counts },
        _ => counts,
    }
}

/// The event itself, without the switch that may follow.
fn take_event(m: &mut Machine, cpu: usize, counts: &mut Counts, trap: Trap, source: u32) -> (r: (
    Option<u32>,
    Option<u32>,
    Option<usize>,
))
    requires
        old(m).wf(),
        cpu < MAX_CPUS,
        interruptible(old(m)@, cpu as int),
    ensures
        final(m).wf(),
        old(m).same_room(*final(m)),
        old(m)@.settled(final(m)@),
        final(m)@ == after_event(old(m)@, cpu as int, trap, source),
        interruptible(final(m)@, cpu as int),
        r == event_actions(old(m)@, cpu as int, trap, source),
        *final(counts) == event_counts(old(m)@, *old(counts), trap, source),
{
    proof {
        assert(m.ref_ok(m@.cpus[cpu as int]));
        if trap != Trap::External || source == 0 || route(m@, source) is None {
            lemma_event(m@, cpu as int, trap, source);
        }
    }
    match trap {
        Trap::Timer => {
            sched::on_tick(m, cpu);
            (None, None, None)
        },
        Trap::External => {
            if source == 0 {
                return (None, None, None);
            }
            match sched::irq_route(m, source) {
                Some(ep) => {
                    counts.routed_irqs = counts.routed_irqs.wrapping_add(1);
                    let poke = sched::irq_notify(m, cpu, ep);
                    proof {
                        lemma_event(old(m)@, cpu as int, trap, source);
                    }
                    (Some(source), Some(source), poke)
                },
                None => {
                    counts.spurious_irqs = counts.spurious_irqs.wrapping_add(1);
                    (None, Some(source), None)
                },
            }
        },
        Trap::Software => {
            sched::drain_inbox(m, cpu);
            let poke = sched::serve_steal_request(m, cpu);
            (None, None, poke)
        },
        Trap::Spurious => {
            counts.spurious_irqs = counts.spurious_irqs.wrapping_add(1);
            (None, None, None)
        },
        _ => (None, None, None),
    }
}

/// With the wish for a decision taken back and the preemption counted, the core can still decide.
proof fn lemma_can_schedule(m: MView, c: int, preemptions: u64)
    requires
        m.inv(),
        0 <= c < m.cpus.len(),
        interruptible(m, c),
        m.running,
    ensures
        ({
            let m1 = m.with_cpu(c, CpuView { need_resched: false, ..m.cpus[c] });
            (MView { preemptions, ..m1 }).can_schedule(c)
        }),
{
}

/// **An interrupt goes to whom it was bound to.** Once `intid` is bound to `ep` it goes there, every
/// other goes where it went, and one that is bound to nothing, or has no number, goes nowhere.
pub proof fn law_an_interrupt_goes_where_it_is_bound(m: MView, intid: u32, ep: u64, other: u32)
    requires
        m.irq_routes.len() == MAX_INTID,
        intid < MAX_INTID,
        ep < u64::MAX,
    ensures
        ({
            let bound = MView { irq_routes: m.irq_routes.update(intid as int, (ep + 1) as u64), ..m };
            &&& route(bound, intid) == Some(ep)
            &&& other != intid ==> route(bound, other) == route(m, other)
            &&& other >= MAX_INTID ==> route(m, other) is None
            &&& other < MAX_INTID && m.irq_routes[other as int] == 0 ==> route(m, other) is None
        }),
{
}

/// **What a wish for a scheduling decision comes to.** The wish is taken back. If there was one, and
/// the scheduler is up, the core was taken away once more, and whoever has waited longest has it,
/// with the thread that had it last in line if that could have gone on. Without a wish nobody loses
/// a core.
pub proof fn law_what_a_wish_comes_to(m: MView, c: int)
    requires
        m.inv(),
        0 <= c < m.cpus.len(),
        interruptible(m, c),
    ensures
        ({
            let (cpu, b) = (m.cpus[c], preempted(m, c));
            let me = cpu.current;
            let t = m.threads[me];
            &&& !b.cpus[c].need_resched
            &&& b.endpoints == m.endpoints
            &&& turns::other_cores_kept(m, b, c)
            &&& b.cpus[c].inbox == cpu.inbox
            &&& b.cpus[c].steal_request == cpu.steal_request
            &&& !(cpu.need_resched && m.running) ==> {
                &&& b == (MView { cpus: b.cpus, ..m })
                &&& b.cpus[c] == (CpuView { need_resched: false, ..cpu })
            }
            &&& cpu.need_resched && m.running ==> {
                &&& b.preemptions == (if m.preemptions < u64::MAX {
                    m.preemptions + 1
                } else {
                    0
                })
                &&& cpu.runq.len() > 0 ==> {
                    &&& b.cpus[c].current == cpu.runq[0]
                    &&& b.cpus[c].switched_from == me
                    &&& b.threads[cpu.runq[0]].state == State::Running
                    &&& t.state == State::Running && !t.killed && me != cpu.idle ==> {
                        &&& b.threads[me].state == State::Ready
                        &&& b.cpus[c].runq == cpu.runq.skip(1).push(me)
                    }
                    &&& t.state == State::Running && t.killed ==> b.threads[me].state
                        == State::Finished
                }
                &&& cpu.runq.len() == 0 && t.state == State::Running && !t.killed
                    ==> b.cpus[c].current == me && b.threads == m.threads
            }
        }),
{
    let m1 = m.with_cpu(c, CpuView { need_resched: false, ..m.cpus[c] });
    if m.cpus[c].need_resched && m.running {
        let m2 = MView { preemptions: heartbeat::bump(m.preemptions), ..m1 };
        lemma_can_schedule(m, c, heartbeat::bump(m.preemptions));
        place::lemma_plain_cpu(m, c, CpuView { need_resched: false, ..m.cpus[c] });
        place::lemma_beside(m1, m1.irq_routes, heartbeat::bump(m.preemptions));
        turns::law_what_a_decision_does(m2, c);
    }
}

/// **A thread that has had its turn loses the core.** On a beat, with the scheduler up and others
/// waiting, the core goes to whoever has waited longest, whether the thread that ran yields or not;
/// and that thread, if it could have gone on, is ready and last in line.
pub proof fn law_a_beat_ends_a_turn(m: MView, c: int, source: u32)
    requires
        m.inv(),
        0 <= c < m.cpus.len(),
        interruptible(m, c),
        m.running,
        m.cpus[c].runq.len() > 0,
    ensures
        ({
            let cpu = m.cpus[c];
            let me = cpu.current;
            let t = m.threads[me];
            let b = preempted(after_event(m, c, Trap::Timer, source), c);
            &&& b.cpus[c].current == cpu.runq[0]
            &&& b.threads[cpu.runq[0]].state == State::Running
            &&& t.state == State::Running && !t.killed && me != cpu.idle ==> b.threads[me].state
                == State::Ready && b.cpus[c].runq == cpu.runq.skip(1).push(me)
            &&& event_actions(m, c, Trap::Timer, source) == (None::<u32>, None::<u32>, None::<usize>)
        }),
{
    let e = after_event(m, c, Trap::Timer, source);
    place::lemma_plain_cpu(m, c, CpuView { need_resched: true, ..m.cpus[c] });
    law_what_a_wish_comes_to(e, c);
}

/// **What a poke does.** Afterwards no request for work is left with the core. If one was waiting,
/// and somebody waited for this core or was on the way to it, the first of them stands last in the
/// inbox of the core that asked, and that is the core to poke; otherwise nobody is, and no other core
/// changes. Whatever other cores had handed over is taken in. No source is masked or ended.
pub proof fn law_what_a_poke_does(m: MView, c: int, source: u32)
    requires
        m.inv(),
        0 <= c < m.cpus.len(),
        m.cpus.len() == MAX_CPUS,
        interruptible(m, c),
        m.cpus[c].steal_request <= m.cpus.len(),
    ensures
        ({
            let cpu = m.cpus[c];
            let line = cpu.runq + cpu.inbox;
            let t = cpu.steal_request - 1;
            let b = preempted(after_event(m, c, Trap::Software, source), c);
            let acts = event_actions(m, c, Trap::Software, source);
            &&& acts.0 is None && acts.1 is None
            &&& b.cpus[c].steal_request == 0
            &&& b.endpoints == m.endpoints
            &&& cpu.steal_request == 0 || line.len() == 0 ==> {
                &&& acts.2 is None
                &&& turns::other_cores_kept(m, b, c)
                &&& b.cpus[c].inbox.len() == 0
            }
            &&& cpu.steal_request > 0 && line.len() > 0 ==> {
                &&& acts.2 == Some(t as usize)
                &&& b.cpus[t].inbox.last() == line[0]
                &&& t != c ==> {
                    &&& b.cpus[t] == (CpuView {
                        inbox: m.cpus[t].inbox.push(line[0]),
                        ..m.cpus[t]
                    })
                    &&& b.cpus[c].inbox.len() == 0
                }
                &&& forall|d: int|
                    0 <= d < m.cpus.len() && d != c && d != t ==> #[trigger] b.cpus[d] == m.cpus[d]
            }
            &&& cpu.steal_request == 0 && m.running && cpu.inbox.len() > 0 ==> b.cpus[c].current
                == line[0]
        }),
{
    let cpu = m.cpus[c];
    let line = cpu.runq + cpu.inbox;
    let d1 = m.drained(c);
    turns::law_what_emptying_the_inbox_does(m, c);
    assert(d1.cpus[c].runq =~= line);
    place::lemma_drain(m, c);
    turns::law_what_answering_a_request_does(d1, c);
    place::lemma_serve_steal(d1, c);
    let e = after_event(m, c, Trap::Software, source);
    lemma_event(m, c, Trap::Software, source);
    law_what_a_wish_comes_to(e, c);
}

/// **What a device's interrupt does.** One that is bound becomes a message: a driver that waits on
/// the endpoint it is bound to will run again with a one in its mailbox, and with nobody waiting the
/// signal is counted; the source is masked until the driver has quieted the device, and its claim is
/// ended. One that is bound to nothing only has its claim ended. No source at all means nothing.
pub proof fn law_what_a_device_does(m: MView, c: int, source: u32)
    requires
        m.inv(),
        0 <= c < m.cpus.len(),
        m.irq_routes.len() == MAX_INTID,
        0 <= m.lightest(c) < m.cpus.len(),
    ensures
        ({
            let e = after_event(m, c, Trap::External, source);
            let acts = event_actions(m, c, Trap::External, source);
            let bound = source != 0 && source < MAX_INTID && m.irq_routes[source as int] != 0;
            let ep = (m.irq_routes[source as int] - 1) as u64;
            let ends = m.endpoints[ep];
            &&& source == 0 ==> e == m && acts == (None::<u32>, None::<u32>, None::<usize>)
            &&& source != 0 && !bound ==> e == m && acts == (None::<u32>, Some(source), None::<usize>)
            &&& bound ==> acts.0 == Some(source) && acts.1 == Some(source)
            &&& bound && m.endpoints.contains_key(ep) && ends.receivers.len() > 0 ==> {
                let r = ends.receivers[0];
                &&& e.awake(r)
                &&& e.threads[r].mailbox[0] == 1
                &&& e.endpoints[ep].receivers == ends.receivers.skip(1)
            }
            &&& bound && m.endpoints.contains_key(ep) && ends.receivers.len() == 0 ==> {
                &&& e.threads == m.threads
                &&& e.endpoints[ep].pending == (if ends.pending < u64::MAX {
                    ends.pending + 1
                } else {
                    u64::MAX as int
                })
            }
        }),
{
    if source != 0 {
        if let Some(ep) = route(m, source) {
            let t = m.lightest(c);
            delivery::law_what_an_interrupt_does(m, c, t, ep);
            if m.endpoints.contains_key(ep) && m.endpoints[ep].receivers.len() > 0 {
                laws::law_an_interrupt_wakes_its_driver(m, c, t, ep);
            }
        }
    }
}

/// **Every interrupt that is nobody's is counted, every one that is somebody's is counted apart, and
/// nothing else is.**
pub proof fn law_what_is_counted(m: MView, k: Counts, trap: Trap, source: u32)
    requires
        m.irq_routes.len() == MAX_INTID,
    ensures
        ({
            let n = event_counts(m, k, trap, source);
            let bound = source < MAX_INTID && m.irq_routes[source as int] != 0;
            let hit = trap == Trap::External && source != 0 && bound;
            let miss = trap == Trap::Spurious || (trap == Trap::External && source != 0 && !bound);
            &&& n.syscalls == k.syscalls
            &&& n.user_faults == k.user_faults
            &&& n.breakpoints == k.breakpoints
            &&& n.routed_irqs == (if !hit {
                k.routed_irqs as int
            } else if k.routed_irqs < u64::MAX {
                k.routed_irqs + 1
            } else {
                0
            })
            &&& n.spurious_irqs == (if !miss {
                k.spurious_irqs as int
            } else if k.spurious_irqs < u64::MAX {
                k.spurious_irqs + 1
            } else {
                0
            })
        }),
{
}

/// **React to an interrupt**, `source` being what the interrupt controller said and `now` the
/// counter's reading. The beat is counted and the next one set; a device's interrupt becomes a
/// message and its source is masked; the inbox is emptied and work is given away. A thread that has
/// had its turn loses the core at the end of it, whether it yields or not.
pub fn handle_interrupt(
    m: &mut Machine,
    cpu: usize,
    beat: &mut Heartbeat,
    counts: &mut Counts,
    trap: Trap,
    source: u32,
    now: u64,
    reserved_root: u64,
) -> (r: Reaction)
    requires
        old(m).wf(),
        cpu < MAX_CPUS,
        interruptible(old(m)@, cpu as int),
        old(beat).deadline + 100_000 <= u64::MAX,
        now + 100_000 <= u64::MAX,
    ensures
        final(m).wf(),
        old(m).same_room(*final(m)),
        old(m)@.settled(final(m)@),
        final(m)@ == preempted(after_event(old(m)@, cpu as int, trap, source), cpu as int),
        *final(counts) == event_counts(old(m)@, *old(counts), trap, source),
        if trap == Trap::Timer {
            &&& *final(beat) == heartbeat::beaten(*old(beat), now, 100_000)
            &&& r.deadline == Some(final(beat).deadline)
        } else {
            *final(beat) == *old(beat) && r.deadline is None
        },
        (r.mask, r.complete, r.poke) == event_actions(old(m)@, cpu as int, trap, source),
        ({
            let e = after_event(old(m)@, cpu as int, trap, source);
            let m1 = e.with_cpu(cpu as int, CpuView { need_resched: false, ..e.cpus[cpu as int] });
            let next = m1.buried(cpu as int).next_thread(cpu as int);
            if e.cpus[cpu as int].need_resched && e.running {
                match r.switch {
                    None => next is None,
                    Some(s) => {
                        &&& next == Some(s.next)
                        &&& s.prev == e.current(cpu as int)
                        &&& s.root == sched::root_of(e.threads[s.next], reserved_root)
                    },
                }
            } else {
                r.switch is None
            }
        }),
        trap == Trap::Software ==> final(m)@.cpus[cpu as int].steal_request == 0,
        trap == Trap::Software ==> ({
            let block = old(m)@.cpus[cpu as int];
            let line = block.runq + block.inbox;
            let t = block.steal_request - 1;
            if block.steal_request > 0 && line.len() > 0 {
                r.poke == Some(t as usize) && final(m)@.cpus[t].inbox.last() == line[0]
            } else {
                r.poke is None
            }
        }),
        r.switch matches Some(s) ==> {
            let core = final(m)@.cpus[cpu as int];
            let t = final(m)@.threads[s.next];
            &&& core.current == s.next && core.switched_from == s.prev && !core.need_resched
            &&& t.state == State::Running && t.on_cpu
            &&& t.space is Some ==> s.root == (t.space->0).ttbr0
            &&& t.space is None ==> s.root == reserved_root
        },
{
    proof {
        if trap == Trap::Software {
            assert(m.ref_ok(m@.cpus[cpu as int]));
            law_what_a_poke_does(m@, cpu as int, source);
        }
    }
    let deadline: Option<u64> = if trap == Trap::Timer {
        Some(timer::tick(beat, now))
    } else {
        None
    };
    let (mask, complete, poke) = take_event(m, cpu, counts, trap, source);
    let ghost e = m@;
    let mut switch: Option<Switch> = None;
    let wanted = sched::take_need_resched(m, cpu);
    if wanted && sched::is_running(m) {
        proof {
            lemma_can_schedule(e, cpu as int, heartbeat::bump(e.preemptions));
        }
        sched::count_preemption(m);
        switch = sched::schedule(m, cpu, reserved_root);
    }
    Reaction { deadline, mask, complete, poke, switch }
}

} // verus!
