//! A thread: everything the scheduler and the capability system remember about one.
use vstd::prelude::*;

use crate::cap::{Cap, CSpace, Tid, CSPACE_SLOTS, NO_CAP};

verus! {

/// Where a thread is in its life.
#[derive(Debug, Clone, Copy, PartialEq, Eq, Structural)]
pub enum State {
    /// Built but never started. In no queue.
    Embryo,
    /// Can run, and waits on a run queue or an inbox for its turn.
    Ready,
    /// Running, or an idle thread between two turns.
    Running,
    /// Waiting for a rendezvous, a signal or a reply.
    Blocked,
    /// Done, and to be collected once it is off its stack.
    Finished,
    /// Done, and kept for its supervisor to collect. It never runs again.
    Dead,
}

/// A process's address space, as the scheduler sees it.
#[derive(Debug, Clone, Copy, PartialEq, Eq, Structural)]
pub struct AddressSpace {
    /// The physical address of the root table.
    pub root: u64,
    /// The word that installs it: the root, tagged with the address-space number.
    pub ttbr0: u64,
}

/// A thread control block.
#[derive(Clone, Copy)]
pub struct Thread {
    pub id: Tid,
    pub state: State,
    /// What a rendezvous leaves for this thread, or what this thread leaves for a rendezvous.
    pub mailbox: [u64; 5],
    /// The capability this thread parked last, until a receiver takes it out.
    pub outgoing_cap: Option<Cap>,
    /// The message this thread parked last takes that capability along.
    pub carries_cap: bool,
    /// The receive it is blocked in takes a capability along.
    pub wants_cap: bool,
    pub cspace: CSpace,
    /// Where this thread's death is reported. Fixed when the thread is started.
    pub fault_ep: Option<u64>,
    /// The message a corpse keeps for its postmortem.
    pub fault_msg: Option<[u64; 5]>,
    /// Torn down by its owner: the next scheduling decision makes it a corpse.
    pub killed: bool,
    /// Its registers are on a core, so its saved context is stale.
    pub on_cpu: bool,
    /// Woken while still on a core. Completed once the context is saved.
    pub wake_pending: bool,
    /// Its last rendezvous was called off.
    pub ipc_aborted: bool,
    /// The budget its slot goes back to.
    pub quota: Option<usize>,
    pub space: Option<AddressSpace>,
    /// Entry point and user stack.
    pub entry: (u64, u64),
    pub start_args: [u64; 3],
    /// Does its page come from the kernel's own budget?
    pub tcb_kmem: bool,
    /// The region its page was retyped from.
    pub tcb_region: Option<u64>,
    /// The top of its kernel stack, if it owns one.
    pub stack_top: Option<u64>,
    /// The physical page it lives in.
    pub page: u64,
}

/// A thread as the contracts see it.
#[verifier::ext_equal]
pub struct TView {
    pub id: Tid,
    pub state: State,
    pub mailbox: Seq<u64>,
    pub outgoing_cap: Option<Cap>,
    pub carries_cap: bool,
    pub wants_cap: bool,
    pub cspace: Seq<Option<Cap>>,
    pub fault_ep: Option<u64>,
    pub fault_msg: Option<Seq<u64>>,
    pub killed: bool,
    pub on_cpu: bool,
    pub wake_pending: bool,
    pub ipc_aborted: bool,
    pub quota: Option<usize>,
    pub space: Option<AddressSpace>,
    pub entry: (u64, u64),
    pub start_args: Seq<u64>,
    pub tcb_kmem: bool,
    pub tcb_region: Option<u64>,
    pub stack_top: Option<u64>,
    pub page: u64,
}

/// Five zero words.
pub open spec fn no_words() -> Seq<u64> {
    seq![0u64, 0u64, 0u64, 0u64, 0u64]
}

/// A capability table with nothing in it.
pub open spec fn no_caps() -> Seq<Option<Cap>> {
    Seq::new(CSPACE_SLOTS as nat, |i: int| None::<Cap>)
}

/// A thread fresh out of its constructor: nothing held, nothing pending.
pub open spec fn fresh(state: State, on_cpu: bool, stack_top: Option<u64>, page: u64) -> TView {
    TView {
        id: 0,
        state,
        mailbox: no_words(),
        outgoing_cap: None,
        carries_cap: false,
        wants_cap: false,
        cspace: no_caps(),
        fault_ep: None,
        fault_msg: None,
        killed: false,
        on_cpu,
        wake_pending: false,
        ipc_aborted: false,
        quota: None,
        space: None,
        entry: (0, 0),
        start_args: seq![0u64, 0u64, 0u64],
        tcb_kmem: true,
        tcb_region: None,
        stack_top,
        page,
    }
}

impl TView {
    /// Can it still be scheduled?
    pub open spec fn is_live(self) -> bool {
        self.state == State::Ready || self.state == State::Running || self.state == State::Blocked
    }

    /// The capability that goes to whoever takes the message this thread has parked. A plain message
    /// carries none, whatever an earlier one left behind.
    pub open spec fn carried(self) -> Option<Cap> {
        if self.carries_cap {
            self.outgoing_cap
        } else {
            None
        }
    }

    /// The thread with a message that carries no capability in its mailbox: the words as they are,
    /// or, for one that asked for a capability, the first word, no slot, and the second word.
    pub open spec fn delivered(self, msg: Seq<u64>) -> TView {
        TView {
            mailbox: if self.wants_cap {
                seq![msg[0], NO_CAP, msg[1], 0u64, 0u64]
            } else {
                msg
            },
            ..self
        }
    }

    /// Does its page lie in `[base, end)`?
    pub open spec fn resides(self, base: int, end: int) -> bool {
        base <= self.page < end
    }
}

impl Thread {
    pub open spec fn view(self) -> TView {
        TView {
            id: self.id,
            state: self.state,
            mailbox: self.mailbox@,
            outgoing_cap: self.outgoing_cap,
            carries_cap: self.carries_cap,
            wants_cap: self.wants_cap,
            cspace: self.cspace@,
            fault_ep: self.fault_ep,
            fault_msg: match self.fault_msg {
                Some(m) => Some(m@),
                None => None,
            },
            killed: self.killed,
            on_cpu: self.on_cpu,
            wake_pending: self.wake_pending,
            ipc_aborted: self.ipc_aborted,
            quota: self.quota,
            space: self.space,
            entry: self.entry,
            start_args: self.start_args@,
            tcb_kmem: self.tcb_kmem,
            tcb_region: self.tcb_region,
            stack_top: self.stack_top,
            page: self.page,
        }
    }

    fn bare(state: State, on_cpu: bool, stack_top: Option<u64>, page: u64) -> (t: Thread)
        ensures
            t@ == fresh(state, on_cpu, stack_top, page),
    {
        let t = Thread {
            id: 0,
            state,
            mailbox: [0, 0, 0, 0, 0],
            outgoing_cap: None,
            carries_cap: false,
            wants_cap: false,
            cspace: CSpace::empty(),
            fault_ep: None,
            fault_msg: None,
            killed: false,
            on_cpu,
            wake_pending: false,
            ipc_aborted: false,
            quota: None,
            space: None,
            entry: (0, 0),
            start_args: [0, 0, 0],
            tcb_kmem: true,
            tcb_region: None,
            stack_top,
            page,
        };
        assert(t@ =~= fresh(state, on_cpu, stack_top, page));
        t
    }

    /// Leave a message that carries no capability in the mailbox.
    pub fn deliver(&mut self, msg: [u64; 5])
        ensures
            final(self)@ == old(self)@.delivered(msg@),
    {
        if self.wants_cap {
            self.mailbox = [msg[0], NO_CAP, msg[1], 0, 0];
        } else {
            self.mailbox = msg;
        }
        assert(self@ =~= old(self)@.delivered(msg@));
    }

    /// The context the machine booted in, adopted as a thread. It runs already, on a stack it does
    /// not own.
    pub fn boot(page: u64) -> (t: Thread)
        ensures
            t@ == fresh(State::Running, true, None, page),
    {
        Thread::bare(State::Running, true, None, page)
    }

    /// The context a secondary core came up in, adopted as that core's idle thread.
    pub fn adopt_current(page: u64) -> (t: Thread)
        ensures
            t@ == fresh(State::Running, true, None, page),
    {
        Thread::bare(State::Running, true, None, page)
    }

    /// A kernel thread with a stack of its own, ready for its first turn.
    pub fn spawn(page: u64, stack_top: u64) -> (t: Thread)
        ensures
            t@ == fresh(State::Ready, false, Some(stack_top), page),
    {
        Thread::bare(State::Ready, false, Some(stack_top), page)
    }

    /// A thread that is only a page yet, paid for by `region`.
    pub fn embryo(page: u64, region: u64) -> (t: Thread)
        ensures
            t@ == (TView {
                tcb_kmem: false,
                tcb_region: Some(region),
                ..fresh(State::Embryo, false, None, page)
            }),
    {
        let mut t = Thread::bare(State::Embryo, false, None, page);
        t.tcb_kmem = false;
        t.tcb_region = Some(region);
        t
    }
}

/// **A new thread has nothing and owes nothing**: no capability, no message, nobody to report its death
/// to, no budget, no address space. It is what it was made to be.
pub proof fn law_a_new_thread_has_nothing(
    state: State,
    on_cpu: bool,
    stack_top: Option<u64>,
    page: u64,
    i: int,
)
    ensures
        ({
            let t = fresh(state, on_cpu, stack_top, page);
            &&& t.state == state && t.on_cpu == on_cpu && t.stack_top == stack_top && t.page == page
            &&& t.id == 0 && t.entry == (0u64, 0u64)
            &&& t.mailbox.len() == 5 && t.start_args.len() == 3 && t.cspace.len() == 16
            &&& 0 <= i < 5 ==> t.mailbox[i] == 0
            &&& 0 <= i < 3 ==> t.start_args[i] == 0
            &&& 0 <= i < 16 ==> t.cspace[i] is None
            &&& t.outgoing_cap is None && t.carried() is None && !t.carries_cap && !t.wants_cap
            &&& t.fault_ep is None && t.fault_msg is None && t.quota is None && t.space is None
            &&& !t.killed && !t.wake_pending && !t.ipc_aborted
            &&& t.tcb_kmem && t.tcb_region is None
        }),
{
}

/// **What a plain message leaves behind.** One who asked for no capability finds the words as they were
/// sent. One who did finds the first word where it was, that no capability came, and the second word
/// after that. Nothing else about the thread changes.
pub proof fn law_what_a_plain_message_leaves(t: TView, msg: Seq<u64>)
    requires
        msg.len() == 5,
    ensures
        ({
            let d = t.delivered(msg);
            &&& d.mailbox.len() == 5
            &&& d.mailbox[0] == msg[0]
            &&& !t.wants_cap ==> d.mailbox == msg
            &&& t.wants_cap ==> {
                &&& d.mailbox[1] == 0xffff_ffff_ffff_ffff
                &&& d.mailbox[2] == msg[1]
                &&& d.mailbox[3] == 0 && d.mailbox[4] == 0
            }
            &&& (TView { mailbox: t.mailbox, ..d }) == t
        }),
{
}

/// **Who can still be scheduled**: who waits, runs, or is blocked; not who was never started or is done.
pub proof fn law_who_can_be_scheduled(t: TView)
    ensures
        t.is_live() <==> t.state != State::Embryo && t.state != State::Finished && t.state
            != State::Dead,
{
}

/// **Only a message that takes one along carries a capability.**
pub proof fn law_what_a_message_carries(t: TView)
    ensures
        t.carried() is Some ==> t.carries_cap && t.carried() == t.outgoing_cap,
        t.carries_cap ==> t.carried() == t.outgoing_cap,
{
}

} // verus!
