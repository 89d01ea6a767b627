//! The order the machine comes up in. Which step may follow which is the part of a boot that goes
//! wrong silently: a lock taken before the per-CPU block exists, a fault before the console can
//! report it, a timer tick before the scheduler has somewhere to go.

use vstd::prelude::*;

verus! {

#[derive(Clone, Copy, Debug, PartialEq, Eq, Structural)]
pub enum Board {
    Aarch64,
    Riscv64,
}

/// What the image was built for. With nothing set the boot ends in the demonstration tour.
#[derive(Clone, Copy, Debug, PartialEq, Eq, Structural)]
pub struct Build {
    pub test: bool,
    pub bench: bool,
    pub shell: bool,
    pub initboot: bool,
}

/// What the machine turned out to have, known once its device tree is parsed.
#[derive(Clone, Copy, Debug, PartialEq, Eq, Structural)]
pub struct Facts {
    /// A platform interrupt controller.
    pub plic: bool,
    /// An initrd.
    pub initrd: bool,
    /// The initrd is an archive with a program called `init`.
    pub init_entry: bool,
    /// The initrd is an archive with a program called `driver`.
    pub driver_entry: bool,
}

#[derive(Clone, Copy, Debug, PartialEq, Eq, Structural)]
pub enum Step {
    /// Point this core at its own block. Taking a lock reads it.
    PerCpu,
    Console,
    /// Install the trap vector.
    Traps,
    /// Take a breakpoint and come back from it.
    TrapCheck,
    Timer,
    InterruptsOn,
    /// Watch the timer tick for a fifth of a second.
    TimerCheck,
    /// Paint the boot stack and plant its canary.
    Stack,
    /// Parse the device tree and set up the frame allocator.
    Memory,
    /// Take a first frame from the allocator.
    FirstFrame,
    /// Replace the coarse boot table with the fine kernel map.
    Paging,
    MaskInterrupts,
    Scheduler,
    /// Put interrupts back as they were before they were masked.
    RestoreInterrupts,
    /// Listen for reschedule interrupts on this core.
    Ipi,
    /// Bring the interrupt controller up, where it is not brought up by [`Step::Plic`].
    Controller,
    /// Start the other cores.
    Secondaries,
    Bench,
    Tests,
    /// Bring the platform interrupt controller up.
    Plic,
    /// Let device interrupts through to this core.
    External,
    /// Hand the machine to the initrd's system builder.
    ShellBoot,
    /// Say that there is no initrd to boot a shell from.
    NoShell,
    MapCheck,
    SwitchCheck,
    SpaceCheck,
    UserModeCheck,
    CapabilityCheck,
    /// Let the archive's `init` build a child.
    BuildChild,
    /// Run the initrd as one program.
    RunProgram,
    /// Say that there is no program to run.
    NoProgram,
    PreemptionCheck,
    /// Start the user-mode serial driver.
    UartDriver,
    /// Say that there is no driver to start.
    NoDriver,
    VirtioProbe,
    PcieProbe,
    Summary,
    Tour,
    /// Hand the system to the initrd's `init`.
    InitBoot,
    /// Start the interactive shell.
    Shell,
    /// Wait for interrupts forever.
    Park,
    /// Adopt the kernel map the boot core built.
    KernelMap,
    /// Adopt the context a core came up in as its idle thread.
    IdleThread,
    /// Leave a thread on this core's own queue, to see that it is run from there.
    Probe,
    /// Be counted, and be in the mask of those that are up.
    Online,
    /// Run what is queued, and then the idle thread's loop.
    Idle,
}

/// The core the kernel boots on. Firmware elects the boot hart on RISC-V, and a core's number there
/// is its hart id; the other board always boots on core 0.
pub fn boot_cpu_id(board: Board, boot_hartid: usize) -> (id: usize)
    ensures
        board == Board::Riscv64 ==> id == boot_hartid,
        board == Board::Aarch64 ==> id == 0,
{
    match board {
        Board::Riscv64 => boot_hartid,
        Board::Aarch64 => 0,
    }
}

/// The steps that bring the kernel up.
pub open spec fn bring_up(board: Board) -> Seq<Step> {
    match board {
        Board::Aarch64 => seq![
            Step::PerCpu,
            Step::Console,
            Step::Traps,
            Step::Stack,
            Step::Memory,
            Step::Paging,
            Step::Scheduler,
            Step::Controller,
            Step::Timer,
            Step::InterruptsOn,
            Step::Secondaries,
        ],
        Board::Riscv64 => seq![
            Step::PerCpu,
            Step::Console,
            Step::Traps,
            Step::TrapCheck,
            Step::Timer,
            Step::InterruptsOn,
            Step::TimerCheck,
            Step::Stack,
            Step::Memory,
            Step::FirstFrame,
            Step::Paging,
            Step::MaskInterrupts,
            Step::Scheduler,
            Step::RestoreInterrupts,
            Step::Ipi,
            Step::Secondaries,
        ],
    }
}

/// The steps in which another core comes up.
pub open spec fn secondary_up(build: Build) -> Seq<Step> {
    seq![
        Step::PerCpu,
        Step::Traps,
        Step::KernelMap,
        Step::IdleThread,
        Step::Ipi,
        Step::Timer,
    ] + (if build.test {
        seq![Step::Probe]
    } else {
        seq![]
    }) + seq![Step::Online, Step::InterruptsOn, Step::Idle]
}

/// What the RISC-V tour shows.
pub open spec fn riscv_tour(facts: Facts) -> Seq<Step> {
    seq![
        Step::MapCheck,
        Step::SwitchCheck,
        Step::SpaceCheck,
        Step::UserModeCheck,
        Step::CapabilityCheck,
        if !facts.initrd {
            Step::NoProgram
        } else if facts.init_entry {
            Step::BuildChild
        } else {
            Step::RunProgram
        },
        Step::PreemptionCheck,
    ] + (if facts.plic {
        seq![
            Step::Plic,
            if facts.initrd && facts.driver_entry {
                Step::UartDriver
            } else {
                Step::NoDriver
            },
        ]
    } else {
        seq![]
    }) + seq![Step::VirtioProbe, Step::PcieProbe]
}

/// What follows once the kernel is up, on each board.
pub open spec fn handover(board: Board, build: Build, facts: Facts) -> Seq<Step> {
    (match board {
        Board::Riscv64 => if build.bench {
            seq![Step::Bench]
        } else if build.shell {
            (if facts.plic {
                seq![Step::Plic]
            } else {
                seq![]
            }) + seq![
                if facts.initrd {
                    Step::ShellBoot
                } else {
                    Step::NoShell
                },
            ]
        } else if build.test {
            (if facts.plic {
                seq![Step::Plic, Step::External]
            } else {
                seq![]
            }) + seq![Step::Tests]
        } else {
            riscv_tour(facts)
        },
        Board::Aarch64 => if build.test {
            seq![Step::Tests]
        } else if build.bench {
            seq![Step::Bench]
        } else {
            seq![Step::Summary] + (if !build.shell && !build.initboot {
                seq![Step::Tour]
            } else {
                seq![]
            }) + (if !facts.initrd {
                seq![]
            } else if build.initboot {
                seq![Step::InitBoot]
            } else {
                seq![Step::Shell]
            })
        },
    }).push(Step::Park)
}

/// The whole boot.
pub open spec fn boot(board: Board, build: Build, facts: Facts) -> Seq<Step> {
    bring_up(board) + handover(board, build, facts)
}

/// The steps that bring the kernel up. See [`bring_up`].
pub fn bring_up_steps(board: Board) -> (steps: Vec<Step>)
    ensures
        steps@ == bring_up(board),
{
    let mut s: Vec<Step> = Vec::new();
    s.push(Step::PerCpu);
    // The fault handler prints, so it is of no use before the console works.
    s.push(Step::Console);
    s.push(Step::Traps);
    match board {
        Board::Aarch64 => {
            s.push(Step::Stack);
            s.push(Step::Memory);
            s.push(Step::Paging);
            // Before interrupts, so that the first tick has somewhere to send a reschedule.
            s.push(Step::Scheduler);
            s.push(Step::Controller);
            s.push(Step::Timer);
            s.push(Step::InterruptsOn);
        },
        Board::Riscv64 => {
            s.push(Step::TrapCheck);
            s.push(Step::Timer);
            s.push(Step::InterruptsOn);
            s.push(Step::TimerCheck);
            s.push(Step::Stack);
            s.push(Step::Memory);
            s.push(Step::FirstFrame);
            s.push(Step::Paging);
            // A tick in the middle would run the scheduler before there is an idle thread.
            s.push(Step::MaskInterrupts);
            s.push(Step::Scheduler);
            s.push(Step::RestoreInterrupts);
            s.push(Step::Ipi);
        },
    }
    s.push(Step::Secondaries);
    assert(s@ =~= bring_up(board));
    s
}

/// The steps in which another core comes up. See [`secondary_up`].
pub fn secondary_steps(build: Build) -> (steps: Vec<Step>)
    ensures
        steps@ == secondary_up(build),
{
    let mut s: Vec<Step> = Vec::new();
    s.push(Step::PerCpu);
    // Each core has a vector of its own, and whatever comes first would trap to nowhere.
    s.push(Step::Traps);
    s.push(Step::KernelMap);
    s.push(Step::IdleThread);
    s.push(Step::Ipi);
    s.push(Step::Timer);
    if build.test {
        s.push(Step::Probe);
    }
    s.push(Step::Online);
    s.push(Step::InterruptsOn);
    s.push(Step::Idle);
    assert(s@ =~= secondary_up(build));
    s
}

/// What follows once the kernel is up. See [`handover`].
pub fn handover_steps(board: Board, build: Build, facts: Facts) -> (steps: Vec<Step>)
    ensures
        steps@ == handover(board, build, facts),
{
    let mut s: Vec<Step> = Vec::new();
    match board {
        Board::Riscv64 => {
            if build.bench {
                s.push(Step::Bench);
            } else if build.shell {
                if facts.plic {
                    s.push(Step::Plic);
                }
                if facts.initrd {
                    s.push(Step::ShellBoot);
                } else {
                    s.push(Step::NoShell);
                }
            } else if build.test {
                if facts.plic {
                    s.push(Step::Plic);
                    s.push(Step::External);
                }
                s.push(Step::Tests);
            } else {
                s.push(Step::MapCheck);
                s.push(Step::SwitchCheck);
                s.push(Step::SpaceCheck);
                s.push(Step::UserModeCheck);
                s.push(Step::CapabilityCheck);
                if !facts.initrd {
                    s.push(Step::NoProgram);
                } else if facts.init_entry {
                    s.push(Step::BuildChild);
                } else {
                    s.push(Step::RunProgram);
                }
                s.push(Step::PreemptionCheck);
                if facts.plic {
                    s.push(Step::Plic);
                    if facts.initrd && facts.driver_entry {
                        s.push(Step::UartDriver);
                    } else {
                        s.push(Step::NoDriver);
                    }
                }
                s.push(Step::VirtioProbe);
                s.push(Step::PcieProbe);
            }
        },
        Board::Aarch64 => {
            if build.test {
                s.push(Step::Tests);
            } else if build.bench {
                s.push(Step::Bench);
            } else {
                s.push(Step::Summary);
                if !build.shell && !build.initboot {
                    s.push(Step::Tour);
                }
                if facts.initrd {
                    if build.initboot {
                        s.push(Step::InitBoot);
                    } else {
                        s.push(Step::Shell);
                    }
                }
            }
        },
    }
    s.push(Step::Park);
    assert(s@ =~= handover(board, build, facts));
    s
}

/// Whether interrupts are on once the first `n` steps are done. Masking keeps what was there, and
/// [`Step::RestoreInterrupts`] only ever follows it with interrupts on before.
pub open spec fn interrupts_on(steps: Seq<Step>, n: nat) -> bool
    decreases n,
{
    if n == 0 {
        false
    } else {
        match steps[n - 1] {
            Step::InterruptsOn => true,
            Step::RestoreInterrupts => true,
            Step::MaskInterrupts => false,
            _ => interrupts_on(steps, (n - 1) as nat),
        }
    }
}

/// Step `a` is done before step `b` whenever `b` is done at all.
pub open spec fn before(steps: Seq<Step>, a: Step, b: Step) -> bool {
    forall|j: int|
        0 <= j < steps.len() && #[trigger] steps[j] == b ==> has_earlier(steps, a, j)
}

/// Step `a` is done somewhere before the `j`-th step.
pub open spec fn has_earlier(steps: Seq<Step>, a: Step, j: int) -> bool {
    exists|i: int| 0 <= i < j && #[trigger] steps[i] == a
}

/// Every boot starts with the per-CPU block, which the first lock needs, and ends parked, with
/// nothing after it.
pub proof fn law_a_boot_has_two_ends(board: Board, build: Build, facts: Facts)
    ensures
        ({
            let b = boot(board, build, facts);
            &&& b.len() > 0
            &&& b[0] == Step::PerCpu
            &&& forall|i: int| 0 <= i < b.len() ==> (#[trigger] b[i] == Step::Park <==> i == b.len() - 1)
        }),
{
}

/// Nothing is used before it is there: the console before the traps that print on it, the traps
/// before the code that may fault, memory before the tables built from it, paging before threads,
/// and the scheduler before any other core joins it.
pub proof fn law_nothing_is_used_early(board: Board, build: Build, facts: Facts)
    ensures
        before(boot(board, build, facts), Step::PerCpu, Step::Console),
        before(boot(board, build, facts), Step::Console, Step::Traps),
        before(boot(board, build, facts), Step::Traps, Step::Memory),
        before(boot(board, build, facts), Step::Stack, Step::Memory),
        before(boot(board, build, facts), Step::Memory, Step::Paging),
        before(boot(board, build, facts), Step::Paging, Step::Scheduler),
        before(boot(board, build, facts), Step::Scheduler, Step::Secondaries),
        before(boot(board, build, facts), Step::Timer, Step::InterruptsOn),
        before(boot(board, build, facts), Step::Plic, Step::External),
        before(boot(board, build, facts), Step::Plic, Step::UartDriver),
{
    let b = boot(board, build, facts);
    assert(b[0] == Step::PerCpu && b[1] == Step::Console && b[2] == Step::Traps);
    match board {
        Board::Aarch64 => {
            assert(b[3] == Step::Stack && b[4] == Step::Memory && b[5] == Step::Paging);
            assert(b[6] == Step::Scheduler && b[8] == Step::Timer);
        },
        Board::Riscv64 => {
            assert(b[4] == Step::Timer && b[7] == Step::Stack && b[8] == Step::Memory);
            assert(b[10] == Step::Paging && b[12] == Step::Scheduler);
        },
    }
    assert forall|j: int| 0 <= j < b.len() && #[trigger] b[j] == Step::External implies has_earlier(
        b,
        Step::Plic,
        j,
    ) by {
        assert(b[j - 1] == Step::Plic);
    }
    assert forall|j: int|
        0 <= j < b.len() && #[trigger] b[j] == Step::UartDriver implies has_earlier(
        b,
        Step::Plic,
        j,
    ) by {
        assert(b[j - 1] == Step::Plic);
    }
}

/// **A core is counted only once it can do its share, and interrupted only once it is counted.** Its
/// block comes first and its vector next; the map before anything runs in it, an idle thread before
/// the timer can take the core away from it.
pub proof fn law_a_core_joins_in_order(build: Build)
    ensures
        secondary_up(build)[0] == Step::PerCpu,
        secondary_up(build)[1] == Step::Traps,
        before(secondary_up(build), Step::KernelMap, Step::IdleThread),
        before(secondary_up(build), Step::IdleThread, Step::Timer),
        before(secondary_up(build), Step::IdleThread, Step::Probe),
        before(secondary_up(build), Step::Ipi, Step::Online),
        before(secondary_up(build), Step::Timer, Step::Online),
        before(secondary_up(build), Step::Online, Step::InterruptsOn),
        secondary_up(build).last() == Step::Idle,
{
    let s = secondary_up(build);
    assert(s[2] == Step::KernelMap && s[3] == Step::IdleThread);
    assert(s[4] == Step::Ipi && s[5] == Step::Timer);
    assert(s[s.len() - 3] == Step::Online);
}

/// A step that does not touch interrupts leaves them as they were.
proof fn lemma_off(steps: Seq<Step>, n: nat)
    requires
        n <= steps.len(),
        forall|i: int|
            0 <= i < n ==> #[trigger] steps[i] != Step::InterruptsOn && steps[i]
                != Step::RestoreInterrupts,
    ensures
        !interrupts_on(steps, n),
    decreases n,
{
    if n > 0 {
        lemma_off(steps, (n - 1) as nat);
    }
}

/// The scheduler is set up with interrupts off, so that no tick lands before there is a thread to
/// go to, and by the time anything runs on the machine they are on.
pub proof fn law_no_tick_lands_early(board: Board, build: Build, facts: Facts)
    ensures
        forall|i: int|
            0 <= i < boot(board, build, facts).len() && #[trigger] boot(board, build, facts)[i]
                == Step::Scheduler ==> !interrupts_on(boot(board, build, facts), i as nat),
        interrupts_on(boot(board, build, facts), bring_up(board).len()),
{
    let b = boot(board, build, facts);
    match board {
        Board::Aarch64 => {
            assert(b[9] == Step::InterruptsOn && b[10] == Step::Secondaries);
            assert(interrupts_on(b, 10));
            assert(interrupts_on(b, 11));
            lemma_off(b, 6);
            assert(forall|i: int| 0 <= i < b.len() && #[trigger] b[i] == Step::Scheduler ==> i == 6);
        },
        Board::Riscv64 => {
            assert(b[11] == Step::MaskInterrupts && b[12] == Step::Scheduler);
            assert(b[13] == Step::RestoreInterrupts);
            assert(b[14] == Step::Ipi && b[15] == Step::Secondaries);
            assert(!interrupts_on(b, 12));
            assert(interrupts_on(b, 14));
            assert(interrupts_on(b, 15));
            assert(interrupts_on(b, 16));
            assert(forall|i: int|
                0 <= i < b.len() && #[trigger] b[i] == Step::Scheduler ==> i == 12);
        },
    }
}

/// **A boot ends in what its image was built for.** On aarch64 an image for tests runs them, and one
/// for benchmarks those; any other sums up, gives the tour if it is for nothing else, and hands over to
/// `init` if it is built for that and to the shell if it is not, exactly if there is an initrd. On
/// RISC-V an image for benchmarks runs them; one for the shell boots it exactly if there is an initrd,
/// and says so if there is none; one for tests runs them; and any other gives the tour.
pub proof fn law_a_boot_ends_in_what_it_is_for(board: Board, build: Build, facts: Facts)
    ensures
        ({
            let s = handover(board, build, facts);
            let arm = board == Board::Aarch64;
            let plain = arm && !build.test && !build.bench;
            let riscv = board == Board::Riscv64 && !build.bench;
            &&& s.contains(Step::Shell) <==> plain && !build.initboot && facts.initrd
            &&& s.contains(Step::InitBoot) <==> plain && build.initboot && facts.initrd
            &&& s.contains(Step::Summary) <==> plain
            &&& s.contains(Step::Tour) <==> plain && !build.shell && !build.initboot
            &&& s.contains(Step::Tests) <==> (arm && build.test) || (riscv && !build.shell
                && build.test)
            &&& s.contains(Step::Bench) <==> build.bench && !(arm && build.test)
            &&& s.contains(Step::ShellBoot) <==> riscv && build.shell && facts.initrd
            &&& s.contains(Step::NoShell) <==> riscv && build.shell && !facts.initrd
            &&& s.contains(Step::Plic) <==> riscv && facts.plic
            &&& s.contains(Step::External) <==> riscv && !build.shell && build.test && facts.plic
            &&& s.contains(Step::Park)
        }),
{
    broadcast use vstd::seq_lib::group_seq_properties;

}

/// **The RISC-V tour shows everything it can**: each check once, the archive's `init` building a child
/// if there is one and the initrd as one program if there is none, and the serial driver exactly if
/// there is a controller to bring its interrupts and a driver to start.
pub proof fn law_the_tour_shows_everything(board: Board, build: Build, facts: Facts)
    ensures
        ({
            let s = handover(board, build, facts);
            let tour = board == Board::Riscv64 && !build.bench && !build.shell && !build.test;
            let driver = facts.initrd && facts.driver_entry;
            &&& s.contains(Step::MapCheck) <==> tour
            &&& s.contains(Step::SwitchCheck) <==> tour
            &&& s.contains(Step::SpaceCheck) <==> tour
            &&& s.contains(Step::UserModeCheck) <==> tour
            &&& s.contains(Step::CapabilityCheck) <==> tour
            &&& s.contains(Step::PreemptionCheck) <==> tour
            &&& s.contains(Step::VirtioProbe) <==> tour
            &&& s.contains(Step::PcieProbe) <==> tour
            &&& s.contains(Step::NoProgram) <==> tour && !facts.initrd
            &&& s.contains(Step::BuildChild) <==> tour && facts.initrd && facts.init_entry
            &&& s.contains(Step::RunProgram) <==> tour && facts.initrd && !facts.init_entry
            &&& s.contains(Step::UartDriver) <==> tour && facts.plic && driver
            &&& s.contains(Step::NoDriver) <==> tour && facts.plic && !driver
        }),
{
    broadcast use vstd::seq_lib::group_seq_properties;

}

/// When in a handover a step is due. Steps that bring the kernel up are never due in one.
pub open spec fn due(step: Step) -> Option<int> {
    match step {
        Step::Summary => Some(0),
        Step::Bench => Some(0),
        Step::MapCheck => Some(0),
        Step::SwitchCheck => Some(1),
        Step::SpaceCheck => Some(2),
        Step::UserModeCheck => Some(3),
        Step::CapabilityCheck => Some(4),
        Step::NoProgram => Some(5),
        Step::BuildChild => Some(5),
        Step::RunProgram => Some(5),
        Step::PreemptionCheck => Some(6),
        Step::Plic => Some(7),
        Step::External => Some(8),
        Step::UartDriver => Some(8),
        Step::NoDriver => Some(8),
        Step::VirtioProbe => Some(9),
        Step::PcieProbe => Some(10),
        Step::Tour => Some(11),
        Step::Tests => Some(12),
        Step::ShellBoot => Some(12),
        Step::NoShell => Some(12),
        Step::InitBoot => Some(12),
        Step::Shell => Some(12),
        Step::Park => Some(13),
        _ => None,
    }
}

/// **A handover is in order**: the summary before the tour and the tour before the shell, the
/// controller before whatever needs its interrupts, each check after the one it builds on, and nothing
/// twice.
pub proof fn law_a_handover_is_in_order(board: Board, build: Build, facts: Facts)
    ensures
        ({
            let s = handover(board, build, facts);
            &&& forall|i: int| 0 <= i < s.len() ==> due(#[trigger] s[i]) is Some
            &&& forall|i: int, j: int|
                0 <= i < j < s.len() ==> due(#[trigger] s[i])->0 < due(#[trigger] s[j])->0
        }),
{
}

/// When on this board a step that brings the kernel up is due.
pub open spec fn due_early(board: Board, step: Step) -> Option<int> {
    let arm = board == Board::Aarch64;
    match step {
        Step::PerCpu => Some(0),
        Step::Console => Some(1),
        Step::Traps => Some(2),
        Step::TrapCheck if !arm => Some(3),
        Step::Timer => if arm {
            Some(15)
        } else {
            Some(4)
        },
        Step::InterruptsOn => if arm {
            Some(16)
        } else {
            Some(5)
        },
        Step::TimerCheck if !arm => Some(6),
        Step::Stack => Some(7),
        Step::Memory => Some(8),
        Step::FirstFrame if !arm => Some(9),
        Step::Paging => Some(10),
        Step::MaskInterrupts if !arm => Some(11),
        Step::Scheduler => Some(12),
        Step::RestoreInterrupts if !arm => Some(13),
        Step::Ipi if !arm => Some(14),
        Step::Controller if arm => Some(14),
        Step::Secondaries => Some(17),
        _ => None,
    }
}

/// **Everything that brings the kernel up is done, once and when it is due**: on aarch64 the timer
/// last, once there is a scheduler for its ticks to reach, and on RISC-V early, checked, and masked
/// while the scheduler comes up.
pub proof fn law_everything_is_brought_up(board: Board, step: Step)
    ensures
        ({
            let s = bring_up(board);
            &&& s.contains(step) <==> due_early(board, step) is Some
            &&& forall|i: int, j: int|
                0 <= i < j < s.len() ==> due_early(board, #[trigger] s[i])->0 < due_early(
                    board,
                    #[trigger] s[j],
                )->0
        }),
{
    broadcast use vstd::seq_lib::group_seq_properties;

    let s = bring_up(board);
    assert forall|i: int, j: int| 0 <= i < j < s.len() implies due_early(board, #[trigger] s[i])->0
        < due_early(board, #[trigger] s[j])->0 by {}
}

/// **Another core does all of what makes it one**, and leaves a thread to be found on its queue only
/// under test.
pub proof fn law_a_core_does_all_it_has_to(build: Build)
    ensures
        ({
            let s = secondary_up(build);
            &&& s.contains(Step::PerCpu)
            &&& s.contains(Step::Traps)
            &&& s.contains(Step::KernelMap)
            &&& s.contains(Step::IdleThread)
            &&& s.contains(Step::Ipi)
            &&& s.contains(Step::Timer)
            &&& s.contains(Step::Probe) <==> build.test
            &&& s.contains(Step::Online)
            &&& s.contains(Step::InterruptsOn)
            &&& s.contains(Step::Idle)
            &&& s.no_duplicates()
            &&& s.len() == (if build.test {
                10int
            } else {
                9
            })
            &&& before(s, Step::Traps, Step::KernelMap)
            &&& before(s, Step::IdleThread, Step::Ipi)
            &&& before(s, Step::Ipi, Step::Timer)
            &&& before(s, Step::Timer, Step::Probe)
            &&& before(s, Step::Probe, Step::Online) || !build.test
            &&& before(s, Step::InterruptsOn, Step::Idle)
        }),
{
    broadcast use vstd::seq_lib::group_seq_properties;

    let s = secondary_up(build);
    assert(s[1] == Step::Traps && s[3] == Step::IdleThread && s[4] == Step::Ipi);
    assert(s[5] == Step::Timer && s[s.len() - 2] == Step::InterruptsOn);
    if build.test {
        assert(s[6] == Step::Probe);
    }
}

} // verus!
