//! What can be read off the machine from outside.
use vstd::prelude::*;

use crate::cap::Tid;
use crate::cpu::CpuView;
use crate::ipc::EpView;
use crate::machine::{Machine, MAX_THREADS};
use crate::model::MView;
use crate::thread::{State, TView};

verus! {

/// The message a corpse keeps for its postmortem.
pub fn corpse_fault_msg(m: &Machine, tid: Tid) -> (r: Option<[u64; 5]>)
    requires
        m.wf(),
    ensures
        ({
            let t = m@.threads[tid];
            match r {
                Some(msg) => {
                    &&& m@.threads.contains_key(tid)
                    &&& t.state == State::Dead
                    &&& t.fault_msg == Some(msg@)
                },
                None => !m@.threads.contains_key(tid) || t.state != State::Dead
                    || t.fault_msg is None,
            }
        }),
{
    match m.thread(tid) {
        Some(t) => if t.state == State::Dead {
            t.fault_msg
        } else {
            None
        },
        None => None,
    }
}

/// How many threads there are, in whatever state.
pub fn thread_count(m: &Machine) -> (n: usize)
    requires
        m.wf(),
    ensures
        n == m@.threads.dom().len(),
        n <= MAX_THREADS,
{
    assert(m@.threads.dom() =~= m.threads@.dom());
    m.threads.len()
}

/// How many senders are parked on an endpoint; 0 for a name that does not resolve.
pub fn endpoint_waiting_senders(m: &Machine, ep: u64) -> (n: usize)
    requires
        m.wf(),
    ensures
        n == (if m@.endpoints.contains_key(ep) {
            m@.endpoints[ep].senders.len()
        } else {
            0
        }),
{
    match m.endpoints.get(ep) {
        Some(o) => o.endpoint.debug_counts().0,
        None => 0,
    }
}

/// How many of the names in `s` name a thread that runs besides `exclude` and the idle threads.
spec fn tally(m: MView, exclude: Tid, s: Seq<Tid>) -> nat
    decreases s.len(),
{
    if s.len() == 0 {
        0
    } else {
        tally(m, exclude, s.drop_last()) + if m.runs_besides(exclude, s.last()) {
            1nat
        } else {
            0nat
        }
    }
}

/// Counting along a list that names nobody twice counts the set.
proof fn lemma_tally(m: MView, exclude: Tid, s: Seq<Tid>)
    requires
        s.no_duplicates(),
    ensures
        s.to_set().filter(|t: Tid| m.runs_besides(exclude, t)).len() == tally(m, exclude, s),
        s.to_set().finite(),
        tally(m, exclude, s) <= s.len(),
    decreases s.len(),
{
    let runs = |t: Tid| m.runs_besides(exclude, t);
    if s.len() == 0 {
        assert(s.to_set().filter(runs) =~= Set::<Tid>::empty());
        assert(s.to_set() =~= Set::<Tid>::empty());
    } else {
        let rest = s.drop_last();
        let last = s.last();
        lemma_tally(m, exclude, rest);
        assert(s =~= rest.push(last));
        assert forall|t: Tid| s.contains(t) <==> rest.contains(t) || t == last by {
            if rest.contains(t) {
                let i = choose|i: int| 0 <= i < rest.len() && rest[i] == t;
                assert(s[i] == t);
            }
            if s.contains(t) && t != last {
                let i = choose|i: int| 0 <= i < s.len() && s[i] == t;
                assert(rest[i] == t);
            }
            assert(s[s.len() - 1] == last);
        }
        assert(s.to_set() =~= rest.to_set().insert(last));
        assert(!rest.contains(last));
        if runs(last) {
            assert(s.to_set().filter(runs) =~= rest.to_set().filter(runs).insert(last));
        } else {
            assert(s.to_set().filter(runs) =~= rest.to_set().filter(runs));
        }
    }
}

/// How many threads could run that are neither `exclude` nor an online core's idle thread. From a
/// quiet system this counts the threads that spin for ever instead of waiting.
pub fn runnable_non_idle_count(m: &Machine, exclude: Tid) -> (n: usize)
    requires
        m.wf(),
    ensures
        n == m@.threads.dom().filter(|t: Tid| m@.runs_besides(exclude, t)).len(),
{
    let names = m.threads.names();
    let mut n: usize = 0;
    let mut i: usize = 0;
    while i < names.len()
        invariant
            m.wf(),
            i <= names@.len(),
            names@.no_duplicates(),
            forall|t: Tid| #[trigger] names@.contains(t) <==> m.threads@.contains_key(t),
            n == tally(m@, exclude, names@.take(i as int)),
            n <= i,
        decreases names@.len() - i,
    {
        let tid: Tid = names[i];
        assert(names@.contains(tid));
        assert(m@.threads.contains_key(tid));
        let mut counts = match m.thread(tid) {
            Some(t) => (t.state == State::Ready || t.state == State::Running) && tid != exclude,
            None => false,
        };
        let mut c: usize = 0;
        let mut idles = false;
        while c < m.online
            invariant
                m.wf(),
                c <= m.online,
                idles <==> exists|d: int| 0 <= d < c && (#[trigger] m@.cpus[d]).idle == tid,
            decreases m.online - c,
        {
            assert(m@.cpus[c as int].idle == m.cpus@[c as int].idle);
            if m.cpus[c].idle == tid {
                idles = true;
            }
            c += 1;
        }
        proof {
            assert(names@.take(i + 1).drop_last() =~= names@.take(i as int));
        }
        if counts && !idles {
            n += 1;
        }
        i += 1;
    }
    proof {
        assert(names@.take(i as int) =~= names@);
        lemma_tally(m@, exclude, names@);
        assert(names@.to_set() =~= m@.threads.dom());
    }
    n
}

/// One thread in a dump.
#[derive(Debug, Clone, Copy, PartialEq, Eq, Structural)]
pub struct ThreadLine {
    pub tid: Tid,
    pub state: State,
    pub on_cpu: bool,
    pub wake_pending: bool,
    pub has_outgoing_cap: bool,
    /// Where its trap frame lies, if it owns a stack: the caller reads the user address out of it.
    pub stack_top: Option<u64>,
    /// The root of its address space, which tells processes apart; 0 for a kernel thread.
    pub root: u64,
}

/// One endpoint somebody waits on, or a signal does, in a dump.
#[derive(Debug, Clone, Copy, PartialEq, Eq, Structural)]
pub struct EndpointLine {
    pub ep: u64,
    pub senders: usize,
    pub receivers: usize,
    pub pending: u64,
}

/// One core in a dump.
#[derive(Debug, Clone, Copy, PartialEq, Eq, Structural)]
pub struct CoreLine {
    pub core: usize,
    pub current: Tid,
    pub idle: Tid,
    pub switched_from: Tid,
    pub need_resched: bool,
    pub inbox_len: usize,
}

/// The state of every thread, of every endpoint that is not quiet, and of every online core.
pub struct Dump {
    pub threads: Vec<ThreadLine>,
    pub endpoints: Vec<EndpointLine>,
    pub cores: Vec<CoreLine>,
}

/// The line for thread `t`.
pub open spec fn thread_line(t: TView) -> ThreadLine {
    ThreadLine {
        tid: t.id,
        state: t.state,
        on_cpu: t.on_cpu,
        wake_pending: t.wake_pending,
        has_outgoing_cap: t.outgoing_cap is Some,
        stack_top: t.stack_top,
        root: match t.space {
            Some(s) => s.root,
            None => 0,
        },
    }
}

/// The line for endpoint `ep`.
pub open spec fn endpoint_line(ep: u64, e: EpView) -> EndpointLine {
    EndpointLine {
        ep,
        senders: e.senders.len() as usize,
        receivers: e.receivers.len() as usize,
        pending: e.pending,
    }
}

/// Does anybody wait on the endpoint, or any signal?
pub open spec fn busy(e: EpView) -> bool {
    e.senders.len() != 0 || e.receivers.len() != 0 || e.pending != 0
}

/// The lines for those of the endpoints `names` that are not quiet, in order.
pub open spec fn endpoint_lines(m: MView, names: Seq<u64>) -> Seq<EndpointLine>
    decreases names.len(),
{
    if names.len() == 0 {
        Seq::empty()
    } else {
        let rest = endpoint_lines(m, names.drop_last());
        let e = m.endpoints[names.last()];
        if busy(e) {
            rest.push(endpoint_line(names.last(), e))
        } else {
            rest
        }
    }
}

/// The line for core `c`.
pub open spec fn core_line(c: int, cpu: CpuView) -> CoreLine {
    CoreLine {
        core: c as usize,
        current: cpu.current,
        idle: cpu.idle,
        switched_from: cpu.switched_from,
        need_resched: cpu.need_resched,
        inbox_len: cpu.inbox.len() as usize,
    }
}

/// **Everything a hang can be read from**: a thread blocked with nobody to wake it, a wake that was
/// noted and not completed, a sender without a receiver.
pub fn dump_threads(m: &Machine) -> (d: Dump)
    requires
        m.wf(),
    ensures
        ({
            let names = crate::slots::live_names(m.threads.slots@);
            &&& d.threads@.len() == names.len()
            &&& forall|i: int|
                0 <= i < names.len() ==> #[trigger] d.threads@[i] == thread_line(
                    m@.threads[names[i]],
                )
        }),
        d.endpoints@ == endpoint_lines(m@, crate::slots::live_names(m.endpoints.slots@)),
        d.cores@.len() == m@.online,
        forall|c: int|
            0 <= c < m@.online ==> #[trigger] d.cores@[c] == core_line(c, m@.cpus[c]),
{
    let names = m.threads.names();
    let mut threads: Vec<ThreadLine> = Vec::new();
    let mut i: usize = 0;
    while i < names.len()
        invariant
            m.wf(),
            i <= names@.len(),
            names@ == crate::slots::live_names(m.threads.slots@),
            forall|t: Tid| #[trigger] names@.contains(t) <==> m.threads@.contains_key(t),
            threads@.len() == i,
            forall|j: int|
                0 <= j < i ==> #[trigger] threads@[j] == thread_line(m@.threads[names@[j]]),
        decreases names@.len() - i,
    {
        let tid: Tid = names[i];
        assert(names@.contains(tid));
        assert(m@.threads.contains_key(tid));
        if let Some(t) = m.thread(tid) {
            threads.push(
                ThreadLine {
                    tid: t.id,
                    state: t.state,
                    on_cpu: t.on_cpu,
                    wake_pending: t.wake_pending,
                    has_outgoing_cap: t.outgoing_cap.is_some(),
                    stack_top: t.stack_top,
                    root: match &t.space {
                        Some(s) => s.root,
                        None => 0,
                    },
                },
            );
        }
        i += 1;
    }
    let eps = m.endpoints.names();
    let mut endpoints: Vec<EndpointLine> = Vec::new();
    let mut i: usize = 0;
    while i < eps.len()
        invariant
            m.wf(),
            i <= eps@.len(),
            forall|e: u64| #[trigger] eps@.contains(e) <==> m.endpoints@.contains_key(e),
            endpoints@ == endpoint_lines(m@, eps@.take(i as int)),
        decreases eps@.len() - i,
    {
        let ep: u64 = eps[i];
        assert(eps@.contains(ep));
        assert(m@.endpoints.contains_key(ep));
        assert(eps@.take(i + 1).drop_last() =~= eps@.take(i as int));
        if let Some(o) = m.endpoints.get(ep) {
            let (senders, receivers, pending) = o.endpoint.debug_counts();
            if senders != 0 || receivers != 0 || pending != 0 {
                endpoints.push(EndpointLine { ep, senders, receivers, pending });
            }
        }
        i += 1;
    }
    assert(eps@.take(i as int) =~= eps@);
    let mut cores: Vec<CoreLine> = Vec::new();
    let mut c: usize = 0;
    while c < m.online
        invariant
            m.wf(),
            c <= m.online,
            cores@.len() == c,
            forall|j: int| 0 <= j < c ==> #[trigger] cores@[j] == core_line(j, m@.cpus[j]),
        decreases m.online - c,
    {
        let block = &m.cpus[c];
        cores.push(
            CoreLine {
                core: c,
                current: block.current,
                idle: block.idle,
                switched_from: block.switched_from,
                need_resched: block.need_resched,
                inbox_len: block.inbox.len(),
            },
        );
        c += 1;
    }
    Dump { threads, endpoints, cores }
}

/// **A dump says of everybody what is so.** A thread's line gives its name, its state, whether a core is
/// on it, whether a wake is noted, whether a capability is on its way, its stack, and its address space
/// or none. A core's gives who runs, who idles, whom it left, whether it is to switch, and how many
/// wait in its inbox. An endpoint's gives how many wait on either side, and how many signals.
pub proof fn law_what_a_dump_says(t: TView, c: int, cpu: CpuView, ep: u64, e: EpView)
    requires
        0 <= c <= usize::MAX,
        cpu.inbox.len() <= usize::MAX,
        e.senders.len() <= usize::MAX,
        e.receivers.len() <= usize::MAX,
    ensures
        ({
            let l = thread_line(t);
            &&& l.tid == t.id && l.state == t.state && l.stack_top == t.stack_top
            &&& l.on_cpu == t.on_cpu && l.wake_pending == t.wake_pending
            &&& l.has_outgoing_cap <==> t.outgoing_cap is Some
            &&& t.space is Some ==> l.root == (t.space->0).root
            &&& t.space is None ==> l.root == 0
        }),
        ({
            let l = core_line(c, cpu);
            &&& l.core == c && l.current == cpu.current && l.idle == cpu.idle
            &&& l.switched_from == cpu.switched_from && l.need_resched == cpu.need_resched
            &&& l.inbox_len == cpu.inbox.len()
        }),
        ({
            let l = endpoint_line(ep, e);
            &&& l.ep == ep && l.senders == e.senders.len() && l.receivers == e.receivers.len()
            &&& l.pending == e.pending
        }),
{
}

/// **Which endpoints a dump shows**: each on which somebody or some signal waits, and no other.
pub proof fn law_which_endpoints_a_dump_shows(m: MView, names: Seq<u64>, ep: u64, k: int)
    ensures
        ({
            let lines = endpoint_lines(m, names);
            let e = m.endpoints[ep];
            let quiet = e.senders.len() == 0 && e.receivers.len() == 0 && e.pending == 0;
            &&& lines.len() <= names.len()
            &&& names.contains(ep) && !quiet <==> exists|j: int|
                0 <= j < lines.len() && (#[trigger] lines[j]).ep == ep
            &&& 0 <= k < lines.len() ==> lines[k] == endpoint_line(
                lines[k].ep,
                m.endpoints[lines[k].ep],
            ) && names.contains(lines[k].ep)
        }),
    decreases names.len(),
{
    let lines = endpoint_lines(m, names);
    if names.len() > 0 {
        let front = names.drop_last();
        let rest = endpoint_lines(m, front);
        let last = names.last();
        law_which_endpoints_a_dump_shows(m, front, ep, k);
        assert(names.contains(ep) <==> front.contains(ep) || ep == last) by {
            if front.contains(ep) {
                let i = choose|i: int| 0 <= i < front.len() && front[i] == ep;
                assert(names[i] == ep);
            }
            if names.contains(ep) && ep != last {
                let i = choose|i: int| 0 <= i < names.len() && names[i] == ep;
                assert(front[i] == ep);
            }
            assert(names[names.len() - 1] == last);
        }
        if 0 <= k < rest.len() {
            let i = choose|i: int| 0 <= i < front.len() && front[i] == rest[k].ep;
            assert(names[i] == rest[k].ep);
            assert(lines[k] == rest[k]);
        } else if 0 <= k < lines.len() {
            assert(names[names.len() - 1] == last);
        }
        if busy(m.endpoints[last]) {
            assert(lines[rest.len() as int].ep == last);
        }
        if exists|j: int| 0 <= j < rest.len() && (#[trigger] rest[j]).ep == ep {
            let j = choose|j: int| 0 <= j < rest.len() && (#[trigger] rest[j]).ep == ep;
            assert(lines[j].ep == ep);
        }
        if exists|j: int| 0 <= j < lines.len() && (#[trigger] lines[j]).ep == ep {
            let j = choose|j: int| 0 <= j < lines.len() && (#[trigger] lines[j]).ep == ep;
            if j < rest.len() {
                assert(rest[j].ep == ep);
            }
        }
    } else {
        assert(!names.contains(ep));
    }
}

/// **Who counts as running besides somebody**: who is ready or running, other than that one, and idles
/// on no core that is up.
pub proof fn law_who_runs_besides(m: MView, exclude: Tid, t: Tid, c: int)
    requires
        0 <= c < m.online,
    ensures
        m.runs_besides(exclude, t) ==> {
            &&& m.threads.contains_key(t)
            &&& m.threads[t].state == State::Ready || m.threads[t].state == State::Running
            &&& t != exclude
            &&& m.cpus[c].idle != t
        },
        m.threads.contains_key(t) && (m.threads[t].state == State::Ready || m.threads[t].state
            == State::Running) && t != exclude && (forall|d: int|
            0 <= d < m.online ==> (#[trigger] m.cpus[d]).idle != t) ==> m.runs_besides(exclude, t),
{
}

} // verus!
