//! The microbenchmarks: what each is called, how much work it does, and how its numbers come
//! about from counter readings.

use vstd::prelude::*;

use crate::cap;
use crate::cap::{Cap, Object, Rights};

verus! {

pub const YIELD_ITERS: u64 = 2000;

pub const IPC_ITERS: u64 = 1000;

pub const RELAY_ITERS: u64 = 1000;

pub const CALL_ITERS: u64 = 1000;

pub const SPAWN_ITERS: u64 = 64;

pub const MAP_ITERS: u64 = 64;

pub const COREMARK_ITERS: u64 = 256;

/// Rounds that run before the clock starts: thread startup, first rendezvous, cold paths.
pub const WARMUP: u64 = 32;

/// The spawner's budget in pages. Each child is destroyed before the next is built, so the budget
/// funds one child, not one per round.
pub const SPAWN_EL0_BUDGET: u64 = 64;

pub const MAP_EL0_ITERS: u64 = 500;

pub const MAP_EL0_WARMUP: u64 = 8;

pub const MAP_EL0_OVERHEAD: u64 = 32;

/// Independent ping-pong pipelines.
pub const TP_PIPES: usize = 16;

/// Round trips per pipeline in a batch.
pub const TP_RTT: u64 = 2000;

/// Batches per measurement; the least contended one counts.
pub const TP_REPEAT: usize = 4;

/// Rounds of the grind per compute worker.
pub const TC_WORK: u64 = 300000;

/// Where the grind starts.
pub const GRIND_SEED: u64 = 0x9E37_79B9_7F4A_7C15;

pub const GRIND_FACTOR: u64 = 6364136223846793005;

pub const GRIND_STEP: u64 = 1442695040888963407;

/// The word that tells a server its client is done.
pub const SENTINEL: u64 = u64::MAX;

#[derive(Clone, Copy, Debug, PartialEq, Eq, Structural)]
pub enum Bench {
    YieldSwitch,
    IpcRtt,
    RelayRtt,
    CallReply,
    SpawnReap,
    MapNew,
    Coremark,
    NullSyscall,
    CtxSwitch,
    IpcRttEl0,
    MapEl0,
    SpawnEl0,
    SmpComputeSolo,
    SmpComputeAll,
    SmpPipeSolo,
    SmpPipeAll,
    SmpCores,
    FsRead,
}

/// One line of the report: a name, the counter ticks it took and the rounds it ran.
#[derive(Clone, Copy, Debug, PartialEq, Eq, Structural)]
pub struct Line {
    pub bench: Bench,
    pub ticks: u64,
    pub iters: u64,
}

/// The name a benchmark is reported under.
pub open spec fn title(b: Bench) -> Seq<char> {
    match b {
        Bench::YieldSwitch => "yield_switch"@,
        Bench::IpcRtt => "ipc_rtt"@,
        Bench::RelayRtt => "relay_rtt"@,
        Bench::CallReply => "call_reply"@,
        Bench::SpawnReap => "spawn_reap"@,
        Bench::MapNew => "map_new"@,
        Bench::Coremark => "coremark"@,
        Bench::NullSyscall => "null_syscall"@,
        Bench::CtxSwitch => "ctx_switch"@,
        Bench::IpcRttEl0 => "ipc_rtt_el0"@,
        Bench::MapEl0 => "map_el0"@,
        Bench::SpawnEl0 => "spawn_el0"@,
        Bench::SmpComputeSolo => "smp_compute_solo"@,
        Bench::SmpComputeAll => "smp_compute_all"@,
        Bench::SmpPipeSolo => "smp_pipe_solo"@,
        Bench::SmpPipeAll => "smp_pipe_all"@,
        Bench::SmpCores => "smp_cores"@,
        Bench::FsRead => "fs_read"@,
    }
}

/// The name a benchmark is reported under.
pub fn name(b: Bench) -> (s: &'static str)
    ensures
        s@ == title(b),
{
    match b {
        Bench::YieldSwitch => "yield_switch",
        Bench::IpcRtt => "ipc_rtt",
        Bench::RelayRtt => "relay_rtt",
        Bench::CallReply => "call_reply",
        Bench::SpawnReap => "spawn_reap",
        Bench::MapNew => "map_new",
        Bench::Coremark => "coremark",
        Bench::NullSyscall => "null_syscall",
        Bench::CtxSwitch => "ctx_switch",
        Bench::IpcRttEl0 => "ipc_rtt_el0",
        Bench::MapEl0 => "map_el0",
        Bench::SpawnEl0 => "spawn_el0",
        Bench::SmpComputeSolo => "smp_compute_solo",
        Bench::SmpComputeAll => "smp_compute_all",
        Bench::SmpPipeSolo => "smp_pipe_solo",
        Bench::SmpPipeAll => "smp_pipe_all",
        Bench::SmpCores => "smp_cores",
        Bench::FsRead => "fs_read",
    }
}

/// A capability to receive from `ep`, and nothing else.
pub open spec fn receiving(ep: u64) -> Cap {
    Cap {
        object: Object::Endpoint(ep),
        rights: Rights { read: true, write: false, grant: false },
    }
}

/// A capability to send to `ep`, and nothing else.
pub open spec fn sending(ep: u64) -> Cap {
    Cap {
        object: Object::Endpoint(ep),
        rights: Rights { read: false, write: true, grant: false },
    }
}

/// What the two user programs of the round-trip benchmark hold, slot by slot: the server first, which
/// takes requests and sends replies, and then the client, which reports its result, sends requests
/// and takes replies.
pub fn ipc_rtt_el0_grants(request: u64, reply: u64, report: u64) -> (r: (Vec<Cap>, Vec<Cap>))
    ensures
        r.0@ == seq![receiving(request), sending(reply)],
        r.1@ == seq![sending(report), sending(request), receiving(reply)],
{
    let mut server: Vec<Cap> = Vec::new();
    server.push(cap::endpoint_cap(request, Rights::read()));
    server.push(cap::endpoint_cap(reply, Rights::write()));
    let mut client: Vec<Cap> = Vec::new();
    client.push(cap::endpoint_cap(report, Rights::write()));
    client.push(cap::endpoint_cap(request, Rights::write()));
    client.push(cap::endpoint_cap(reply, Rights::read()));
    assert(server@ =~= seq![receiving(request), sending(reply)]);
    assert(client@ =~= seq![sending(report), sending(request), receiving(reply)]);
    (server, client)
}

/// The line for a loop of `iters` rounds between two readings of the counter, which never runs
/// backwards.
pub fn timed(bench: Bench, iters: u64, t0: u64, t1: u64) -> (line: Line)
    requires
        t0 <= t1,
    ensures
        line == (Line { bench, ticks: (t1 - t0) as u64, iters }),
{
    Line { bench, ticks: t1 - t0, iters }
}

/// What a bench server does with a request: nothing more after the sentinel, otherwise it answers
/// with the request's first word.
pub fn serve(m: [u64; 3]) -> (r: Option<[u64; 3]>)
    ensures
        m[0] == SENTINEL ==> r is None,
        m[0] != SENTINEL ==> r is Some && r->0@ == seq![m[0], 0u64, 0u64],
{
    if m[0] == SENTINEL {
        None
    } else {
        let answer: [u64; 3] = [m[0], 0, 0];
        assert(answer@ =~= seq![m[0], 0u64, 0u64]);
        Some(answer)
    }
}

/// The pages the map benchmark's target region needs: one for every map of the warmup and of the
/// timed loop, and the tables and records on top.
pub fn map_el0_pages() -> (pages: u64)
    ensures
        pages == MAP_EL0_WARMUP + MAP_EL0_ITERS + MAP_EL0_OVERHEAD,
{
    MAP_EL0_WARMUP + MAP_EL0_ITERS + MAP_EL0_OVERHEAD
}

/// One round of the grind: a multiply-and-add mixed with a shift.
pub open spec fn mix(x: u64, i: u64) -> u64 {
    let y = x.wrapping_mul(GRIND_FACTOR).wrapping_add(GRIND_STEP ^ i);
    y ^ (y >> 29u64)
}

/// What the grind holds after `n` rounds.
pub open spec fn grind(n: nat) -> u64
    decreases n,
{
    if n == 0 {
        GRIND_SEED
    } else {
        mix(grind((n - 1) as nat), (n - 1) as u64)
    }
}

/// Pure computation that cannot be left out, since its result is used: no calls, no memory, so a
/// running worker touches no other core.
pub fn busy(iters: u64) -> (x: u64)
    ensures
        x == grind(iters as nat),
{
    let mut x: u64 = GRIND_SEED;
    let mut i: u64 = 0;
    while i < iters
        invariant
            i <= iters,
            x == grind(i as nat),
        decreases iters - i,
    {
        let y: u64 = x.wrapping_mul(GRIND_FACTOR).wrapping_add(GRIND_STEP ^ i);
        x = y ^ (y >> 29u64);
        i = i + 1;
    }
    x
}

/// `r` is the least of the samples, or the greatest number there is when there are none.
pub open spec fn is_best(samples: Seq<u64>, r: u64) -> bool {
    &&& forall|i: int| 0 <= i < samples.len() ==> r <= #[trigger] samples[i]
    &&& samples.len() == 0 ==> r == u64::MAX
    &&& samples.len() > 0 ==> samples.contains(r)
}

/// The least contended of several batches: whatever else runs on the host only ever adds ticks.
pub fn best(samples: &[u64]) -> (r: u64)
    ensures
        is_best(samples@, r),
{
    let mut r: u64 = u64::MAX;
    let mut i: usize = 0;
    while i < samples.len()
        invariant
            i <= samples@.len(),
            is_best(samples@.take(i as int), r),
        decreases samples@.len() - i,
    {
        let ghost before = samples@.take(i as int);
        let ghost after = samples@.take(i as int + 1);
        let s: u64 = samples[i];
        assert(after == before.push(s));
        assert(after[i as int] == s);
        if s < r {
            r = s;
        } else if i > 0 {
            let ghost k = choose|k: int| 0 <= k < before.len() && before[k] == r;
            assert(after[k] == r);
        }
        assert(forall|k: int| 0 <= k < before.len() ==> after[k] == #[trigger] before[k]);
        i = i + 1;
    }
    assert(samples@.take(i as int) == samples@);
    r
}

/// The report of the throughput benchmarks, from the best ticks of each batch. A machine with one
/// core has nothing to report.
pub open spec fn throughput(
    compute_solo: u64,
    compute_all: u64,
    pipe_solo: u64,
    pipe_all: u64,
    cores: usize,
) -> Seq<Line> {
    if cores <= 1 {
        Seq::empty()
    } else {
        seq![
            Line { bench: Bench::SmpComputeSolo, ticks: compute_solo, iters: TC_WORK },
            Line {
                bench: Bench::SmpComputeAll,
                ticks: compute_all,
                iters: (TP_PIPES * TC_WORK) as u64,
            },
            Line { bench: Bench::SmpPipeSolo, ticks: pipe_solo, iters: TP_RTT },
            Line { bench: Bench::SmpPipeAll, ticks: pipe_all, iters: (TP_PIPES * TP_RTT) as u64 },
            Line { bench: Bench::SmpCores, ticks: cores as u64, iters: cores as u64 },
        ]
    }
}

/// The report of the throughput benchmarks. See [`throughput`].
pub fn smp_throughput(
    compute_solo: u64,
    compute_all: u64,
    pipe_solo: u64,
    pipe_all: u64,
    cores: usize,
) -> (r: Vec<Line>)
    ensures
        r@ == throughput(compute_solo, compute_all, pipe_solo, pipe_all, cores),
{
    let mut r: Vec<Line> = Vec::new();
    if cores > 1 {
        r.push(Line { bench: Bench::SmpComputeSolo, ticks: compute_solo, iters: TC_WORK });
        r.push(
            Line {
                bench: Bench::SmpComputeAll,
                ticks: compute_all,
                iters: TP_PIPES as u64 * TC_WORK,
            },
        );
        r.push(Line { bench: Bench::SmpPipeSolo, ticks: pipe_solo, iters: TP_RTT });
        r.push(
            Line { bench: Bench::SmpPipeAll, ticks: pipe_all, iters: TP_PIPES as u64 * TP_RTT },
        );
        r.push(Line { bench: Bench::SmpCores, ticks: cores as u64, iters: cores as u64 });
    }
    r
}

/// Whether the file-read benchmark runs: only where there is more than one core, which is where
/// the disk is attached, and only with all three programs of the service at hand.
pub fn fs_read_runs(cores: usize, block: bool, server: bool, client: bool) -> (r: bool)
    ensures
        r == (cores > 1 && block && server && client),
{
    cores > 1 && block && server && client
}

/// The batch on the whole machine does exactly the work of as many solo batches as there are
/// pipelines, so the scaling factor of each workload is the ratio of its two rates.
pub proof fn law_all_is_every_pipe(
    compute_solo: u64,
    compute_all: u64,
    pipe_solo: u64,
    pipe_all: u64,
    cores: usize,
)
    requires
        cores > 1,
    ensures
        ({
            let r = throughput(compute_solo, compute_all, pipe_solo, pipe_all, cores);
            &&& r[1].iters == TP_PIPES * r[0].iters
            &&& r[3].iters == TP_PIPES * r[2].iters
        }),
{
}

/// **Every benchmark is reported under a name of its own**: under the name belongs that benchmark, and
/// no other.
pub proof fn law_every_benchmark_has_a_name_of_its_own(b: Bench)
    ensures
        b is YieldSwitch <==> title(b) == "yield_switch"@,
        b is IpcRtt <==> title(b) == "ipc_rtt"@,
        b is RelayRtt <==> title(b) == "relay_rtt"@,
        b is CallReply <==> title(b) == "call_reply"@,
        b is SpawnReap <==> title(b) == "spawn_reap"@,
        b is MapNew <==> title(b) == "map_new"@,
        b is Coremark <==> title(b) == "coremark"@,
        b is NullSyscall <==> title(b) == "null_syscall"@,
        b is CtxSwitch <==> title(b) == "ctx_switch"@,
        b is IpcRttEl0 <==> title(b) == "ipc_rtt_el0"@,
        b is MapEl0 <==> title(b) == "map_el0"@,
        b is SpawnEl0 <==> title(b) == "spawn_el0"@,
        b is SmpComputeSolo <==> title(b) == "smp_compute_solo"@,
        b is SmpComputeAll <==> title(b) == "smp_compute_all"@,
        b is SmpPipeSolo <==> title(b) == "smp_pipe_solo"@,
        b is SmpPipeAll <==> title(b) == "smp_pipe_all"@,
        b is SmpCores <==> title(b) == "smp_cores"@,
        b is FsRead <==> title(b) == "fs_read"@,
{
    reveal_strlit("yield_switch");
    reveal_strlit("ipc_rtt");
    reveal_strlit("relay_rtt");
    reveal_strlit("call_reply");
    reveal_strlit("spawn_reap");
    reveal_strlit("map_new");
    reveal_strlit("coremark");
    reveal_strlit("null_syscall");
    reveal_strlit("ctx_switch");
    reveal_strlit("ipc_rtt_el0");
    reveal_strlit("map_el0");
    reveal_strlit("spawn_el0");
    reveal_strlit("smp_compute_solo");
    reveal_strlit("smp_compute_all");
    reveal_strlit("smp_pipe_solo");
    reveal_strlit("smp_pipe_all");
    reveal_strlit("smp_cores");
    reveal_strlit("fs_read");
    assert("yield_switch"@.len() == 12 && "yield_switch"@[0] == 'y' && "yield_switch"@[1] == 'i' && "yield_switch"@[4] == 'd');
    assert("ipc_rtt"@.len() == 7 && "ipc_rtt"@[0] == 'i' && "ipc_rtt"@[1] == 'p' && "ipc_rtt"@[4] == 'r');
    assert("relay_rtt"@.len() == 9 && "relay_rtt"@[0] == 'r' && "relay_rtt"@[1] == 'e' && "relay_rtt"@[4] == 'y');
    assert("call_reply"@.len() == 10 && "call_reply"@[0] == 'c' && "call_reply"@[1] == 'a' && "call_reply"@[4] == '_');
    assert("spawn_reap"@.len() == 10 && "spawn_reap"@[0] == 's' && "spawn_reap"@[1] == 'p' && "spawn_reap"@[4] == 'n');
    assert("map_new"@.len() == 7 && "map_new"@[0] == 'm' && "map_new"@[1] == 'a' && "map_new"@[4] == 'n');
    assert("coremark"@.len() == 8 && "coremark"@[0] == 'c' && "coremark"@[1] == 'o' && "coremark"@[4] == 'm');
    assert("null_syscall"@.len() == 12 && "null_syscall"@[0] == 'n' && "null_syscall"@[1] == 'u' && "null_syscall"@[4] == '_');
    assert("ctx_switch"@.len() == 10 && "ctx_switch"@[0] == 'c' && "ctx_switch"@[1] == 't' && "ctx_switch"@[4] == 's');
    assert("ipc_rtt_el0"@.len() == 11 && "ipc_rtt_el0"@[0] == 'i' && "ipc_rtt_el0"@[1] == 'p' && "ipc_rtt_el0"@[4] == 'r');
    assert("map_el0"@.len() == 7 && "map_el0"@[0] == 'm' && "map_el0"@[1] == 'a' && "map_el0"@[4] == 'e');
    assert("spawn_el0"@.len() == 9 && "spawn_el0"@[0] == 's' && "spawn_el0"@[1] == 'p' && "spawn_el0"@[4] == 'n');
    assert("smp_compute_solo"@.len() == 16 && "smp_compute_solo"@[0] == 's' && "smp_compute_solo"@[1] == 'm' && "smp_compute_solo"@[4] == 'c');
    assert("smp_compute_all"@.len() == 15 && "smp_compute_all"@[0] == 's' && "smp_compute_all"@[1] == 'm' && "smp_compute_all"@[4] == 'c');
    assert("smp_pipe_solo"@.len() == 13 && "smp_pipe_solo"@[0] == 's' && "smp_pipe_solo"@[1] == 'm' && "smp_pipe_solo"@[4] == 'p');
    assert("smp_pipe_all"@.len() == 12 && "smp_pipe_all"@[0] == 's' && "smp_pipe_all"@[1] == 'm' && "smp_pipe_all"@[4] == 'p');
    assert("smp_cores"@.len() == 9 && "smp_cores"@[0] == 's' && "smp_cores"@[1] == 'm' && "smp_cores"@[4] == 'c');
    assert("fs_read"@.len() == 7 && "fs_read"@[0] == 'f' && "fs_read"@[1] == 's' && "fs_read"@[4] == 'e');
}

/// **What the throughput report says.** On one core nothing; on more, the two workloads alone and all
/// together, each with its own ticks, and then the number of cores.
pub proof fn law_what_the_throughput_report_says(
    compute_solo: u64,
    compute_all: u64,
    pipe_solo: u64,
    pipe_all: u64,
    cores: usize,
)
    ensures
        ({
            let r = throughput(compute_solo, compute_all, pipe_solo, pipe_all, cores);
            &&& cores <= 1 <==> r.len() == 0
            &&& cores > 1 ==> {
                &&& r.len() == 5
                &&& r[0].bench is SmpComputeSolo && r[0].ticks == compute_solo
                &&& r[1].bench is SmpComputeAll && r[1].ticks == compute_all
                &&& r[2].bench is SmpPipeSolo && r[2].ticks == pipe_solo
                &&& r[3].bench is SmpPipeAll && r[3].ticks == pipe_all
                &&& r[4].bench is SmpCores && r[4].ticks == cores && r[4].iters == cores
                &&& r[0].iters == 300_000 && r[1].iters == 4_800_000
                &&& r[2].iters == 2_000 && r[3].iters == 32_000
            }
        }),
{
}

/// **Whoever may send may not receive, and the other way round**, on one endpoint, and neither may pass
/// its end on.
pub proof fn law_the_two_ends_of_a_pipe(ep: u64)
    ensures
        sending(ep).object == Object::Endpoint(ep),
        receiving(ep).object == Object::Endpoint(ep),
        sending(ep).rights.write && !sending(ep).rights.read && !sending(ep).rights.grant,
        receiving(ep).rights.read && !receiving(ep).rights.write && !receiving(ep).rights.grant,
{
}

/// **One round of the grind.** No rounds leave the seed; each round multiplies, adds the step with the
/// round's number mixed in, and mixes the upper bits of that into the lower ones. That last mixing never
/// makes one number out of two.
pub proof fn law_one_round_of_the_grind(n: nat, x: u64, y: u64)
    requires
        n < u64::MAX,
    ensures
        grind(0) == 0x9E37_79B9_7F4A_7C15u64,
        ({
            let z = grind(n + 1);
            let w = (grind(n) * 6364136223846793005 + (1442695040888963407u64 ^ n as u64))
                % 0x1_0000_0000_0000_0000;
            z == (w as u64) ^ ((w as u64) >> 29u64)
        }),
        x ^ (x >> 29u64) == y ^ (y >> 29u64) ==> x == y,
{
    assert(x ^ (x >> 29u64) == y ^ (y >> 29u64) ==> x == y) by (bit_vector);
}

} // verus!
