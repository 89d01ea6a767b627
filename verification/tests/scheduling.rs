use cricker_os::cpu::{NO_TID, MAX_CPUS};
use cricker_os::machine::{Machine, MAX_THREADS};
use cricker_os::sched;
use cricker_os::thread::{AddressSpace, State};

const ROOT: u64 = 0x8000_0000_0008_0000;

fn one_core() -> Machine {
    let mut m = Machine::new(1, vec![2, 0]);
    sched::init(&mut m, 0, 0x1000, 0x2000, 0x9000);
    m
}

fn cores(n: usize) -> Machine {
    let mut m = Machine::new(n, vec![]);
    sched::init(&mut m, 0, 0x1000, 0x2000, 0x9000);
    for c in 1..n {
        let tid = sched::adopt_secondary_idle(&mut m, c, 0x3000 + c as u64 * 0x1000);
        assert_eq!(sched::current(&m, c), tid);
        assert_eq!(m.cpus[c].idle, tid);
    }
    m
}

fn go(m: &mut Machine, cpu: usize) -> Option<u64> {
    let r = sched::yield_now(m, cpu, ROOT);
    sched::finish_switch(m, cpu);
    r.map(|s| s.next)
}

#[test]
fn nothing_runs_before_the_scheduler_is_up() {
    let mut m = Machine::new(1, vec![]);
    assert!(!sched::is_running(&m));
    assert_eq!(sched::thread_count(&m), 0);
    assert!(sched::schedule(&mut m, 0, ROOT).is_none());
    assert!(sched::spawn(&mut m, 0, (0, 0), 0x4000, 0xa000).is_none());
    assert!(!sched::take_need_resched(&mut m, 0));
}

#[test]
fn bringing_up_adopts_the_boot_thread() {
    let m = one_core();
    assert!(sched::is_running(&m));
    assert_eq!(sched::thread_count(&m), 2);
    let boot = sched::current(&m, 0);
    assert_eq!(boot, 0);
    assert_eq!(m.thread(boot).unwrap().state, State::Running);
    assert!(m.thread(boot).unwrap().on_cpu);
    let idle = m.cpus[0].idle;
    assert_ne!(idle, NO_TID);
    assert_eq!(m.thread(idle).unwrap().state, State::Ready);
    assert_eq!(m.thread(idle).unwrap().stack_top, Some(0x9000));
    assert_eq!(sched::runnable_non_idle_count(&m, NO_TID), 1);
    assert_eq!(sched::runnable_non_idle_count(&m, boot), 0);
}

#[test]
fn threads_round_robin() {
    let mut m = one_core();
    let boot = sched::current(&m, 0);
    let a = sched::spawn(&mut m, 0, (3, 4), 0x4000, 0xa000).unwrap();
    let b = sched::spawn(&mut m, 0, (5, 6), 0x5000, 0xb000).unwrap();
    assert_eq!(a.poke, None);
    assert_eq!(b.poke, None);
    assert_eq!(go(&mut m, 0), Some(a.tid));
    assert_eq!(go(&mut m, 0), Some(b.tid));
    assert_eq!(go(&mut m, 0), Some(boot));
    assert_eq!(go(&mut m, 0), Some(a.tid));
    assert_eq!(m.cpus[0].runq_len(), 2);
}

#[test]
fn a_lone_thread_carries_on() {
    let mut m = one_core();
    assert_eq!(go(&mut m, 0), None);
    assert_eq!(sched::current(&m, 0), 0);
    assert_eq!(m.thread(0).unwrap().state, State::Running);
}

#[test]
fn the_idle_thread_runs_when_nobody_can_and_is_never_queued() {
    let mut m = one_core();
    let ep = m.insert_endpoint(0x8000).unwrap();
    let idle = m.cpus[0].idle;
    assert_eq!(sched::ipc_recv(&mut m, 0, ep), None);
    assert_eq!(go(&mut m, 0), Some(idle));
    assert_eq!(m.cpus[0].runq_len(), 0);
    let a = sched::spawn(&mut m, 0, (0, 0), 0x4000, 0xa000).unwrap();
    assert_eq!(go(&mut m, 0), Some(a.tid));
    assert_eq!(m.cpus[0].runq_len(), 0);
    assert_eq!(m.thread(idle).unwrap().state, State::Running);
    assert!(!m.thread(idle).unwrap().on_cpu);
}

#[test]
fn a_switch_names_the_root_to_install() {
    let mut m = one_core();
    let a = sched::spawn(&mut m, 0, (0, 0), 0x4000, 0xa000).unwrap();
    m.thread_mut(a.tid).unwrap().space = Some(AddressSpace { root: 0x77000, ttbr0: 0x1_0007_7000 });
    let s = sched::schedule(&mut m, 0, ROOT).unwrap();
    assert_eq!(s.root, 0x1_0007_7000);
    assert_eq!(s.prev, 0);
    sched::finish_switch(&mut m, 0);
    assert_eq!(sched::schedule(&mut m, 0, ROOT).unwrap().root, ROOT);
}

#[test]
fn a_torn_down_thread_does_not_run_on() {
    let mut m = one_core();
    let a = sched::spawn(&mut m, 0, (0, 0), 0x4000, 0xa000).unwrap();
    assert_eq!(go(&mut m, 0), Some(a.tid));
    m.thread_mut(a.tid).unwrap().killed = true;
    let s = sched::schedule(&mut m, 0, ROOT).unwrap();
    assert_eq!(s.prev, a.tid);
    assert_eq!(m.thread(a.tid).unwrap().state, State::Finished);
    assert_eq!(m.cpus[0].runq_len(), 0);
    let r = sched::finish_switch(&mut m, 0).unwrap();
    assert_eq!(r.page, Some(0x4000));
    assert!(m.thread(a.tid).is_none());
}

#[test]
fn a_tick_asks_for_a_decision() {
    let mut m = one_core();
    sched::on_tick(&mut m, 0);
    assert!(sched::take_need_resched(&mut m, 0));
    assert!(!sched::take_need_resched(&mut m, 0));
    let n = sched::preemptions(&m);
    sched::count_preemption(&mut m);
    assert_eq!(sched::preemptions(&m), n + 1);
}

#[test]
fn a_spawn_quota_caps_live_children_and_replenishes_on_reap() {
    let mut m = one_core();
    assert!(sched::spawn_with_quota(&mut m, 0, 0, None).is_none());
    assert_eq!(m.quotas, vec![2, 0]);
    let a = sched::spawn_with_quota(&mut m, 0, 0, Some((0x4000, 0xa000))).unwrap();
    let _ = sched::spawn_with_quota(&mut m, 0, 0, Some((0x5000, 0xb000))).unwrap();
    assert!(sched::spawn_with_quota(&mut m, 0, 0, Some((0x6000, 0xc000))).is_none());
    assert!(sched::spawn_with_quota(&mut m, 0, 1, Some((0x6000, 0xc000))).is_none());
    assert_eq!(m.quotas, vec![0, 0]);
    assert_eq!(go(&mut m, 0), Some(a));
    m.thread_mut(a).unwrap().killed = true;
    go(&mut m, 0);
    assert!(m.thread(a).is_none());
    assert_eq!(m.quotas, vec![1, 0]);
    assert!(sched::spawn_with_quota(&mut m, 0, 0, Some((0x6000, 0xc000))).is_some());
}

#[test]
fn a_full_table_spawns_nobody() {
    let mut m = one_core();
    for i in 0..(MAX_THREADS - 2) {
        assert!(sched::spawn(&mut m, 0, (0, 0), 0x4000 + i as u64, 0xa000).is_some());
    }
    assert!(sched::spawn(&mut m, 0, (0, 0), 0x1, 0x2).is_none());
    assert_eq!(sched::thread_count(&m), MAX_THREADS);
}

#[test]
fn work_can_be_placed_on_every_core() {
    let mut m = cores(MAX_CPUS);
    for c in 0..MAX_CPUS {
        let s = sched::spawn_on(&mut m, 0, c, 0x10000 + c as u64 * 0x1000, 0xa000).unwrap();
        assert_eq!(s.poke, if c == 0 { None } else { Some(c) });
        assert_eq!(m.cpus[c].runnable(), 1);
        sched::drain_inbox(&mut m, c);
        if c > 0 {
            assert!(sched::take_need_resched(&mut m, c));
        }
        assert_eq!(go(&mut m, c), Some(s.tid));
    }
}

#[test]
fn a_spawn_goes_to_the_lighter_of_two_cores() {
    let mut m = cores(2);
    assert_eq!(sched::pick_spawn_target(&m, 0, (0, 1)), 0);
    sched::spawn_on(&mut m, 0, 0, 0x10000, 0xa000).unwrap();
    assert_eq!(sched::pick_spawn_target(&m, 0, (0, 1)), 1);
    assert_eq!(sched::pick_spawn_target(&m, 0, (4, 6)), 0);
    assert_eq!(sched::pick_spawn_target(&m, 0, (u64::MAX, 0)), 1);
    let s = sched::spawn(&mut m, 0, (0, 1), 0x11000, 0xb000).unwrap();
    assert_eq!(s.poke, Some(1));
    assert_eq!(m.cpus[1].inbox.len(), 1);
}

#[test]
fn an_idle_core_takes_what_waits_and_never_what_runs() {
    let mut m = cores(2);
    let boot = sched::current(&m, 0);
    assert_eq!(sched::run_idle(&mut m, 1), None);
    let a = sched::spawn_on(&mut m, 0, 0, 0x10000, 0xa000).unwrap();
    assert_eq!(sched::run_idle(&mut m, 1), Some(0));
    assert_eq!(m.cpus[0].steal_request, 2);
    // The request is waiting there already.
    assert_eq!(sched::run_idle(&mut m, 1), None);
    assert_eq!(sched::serve_steal_request(&mut m, 0), Some(1));
    assert_eq!(m.cpus[0].steal_request, 0);
    assert_eq!(sched::current(&m, 0), boot);
    assert_eq!(m.cpus[1].inbox.len(), 1);
    // Something is on its way, so nothing more is asked for.
    assert_eq!(sched::run_idle(&mut m, 1), None);
    sched::drain_inbox(&mut m, 1);
    assert_eq!(go(&mut m, 1), Some(a.tid));
    // Nothing to spare: the request is taken and nobody is poked.
    m.cpus[0].steal_request = 2;
    assert_eq!(sched::serve_steal_request(&mut m, 0), None);
    assert_eq!(m.cpus[0].steal_request, 0);
    assert_eq!(sched::serve_steal_request(&mut m, 0), None);
}

#[test]
fn an_interrupt_wakes_its_driver_on_the_lightest_core() {
    let mut m = cores(2);
    let ep = m.insert_endpoint(0x8000).unwrap();
    let driver = sched::current(&m, 0);
    assert_eq!(sched::ipc_recv(&mut m, 0, ep), None);
    go(&mut m, 0);
    sched::spawn_on(&mut m, 0, 0, 0x10000, 0xa000).unwrap();
    assert_eq!(sched::irq_notify(&mut m, 0, ep), Some(1));
    assert_eq!(m.cpus[1].inbox.len(), 1);
    assert_eq!(m.thread(driver).unwrap().state, State::Ready);
}

#[test]
fn the_dump_shows_every_thread_endpoint_and_core() {
    let mut m = cores(2);
    let ep = m.insert_endpoint(0x8000).unwrap();
    let boot = sched::current(&m, 0);
    assert!(sched::ipc_send(&mut m, 0, ep, [1, 2, 3]));
    let d = sched::dump_threads(&m);
    assert_eq!(d.threads.len(), 3);
    assert_eq!(d.threads[0].tid, boot);
    assert_eq!(d.threads[0].state, State::Blocked);
    assert!(d.threads[0].on_cpu);
    assert_eq!(d.threads[0].root, 0);
    assert_eq!(d.endpoints.len(), 1);
    assert_eq!(d.endpoints[0].ep, ep);
    assert_eq!(d.endpoints[0].senders, 1);
    assert_eq!(d.endpoints[0].receivers, 0);
    assert_eq!(d.cores.len(), 2);
    assert_eq!(d.cores[0].current, boot);
    assert_eq!(d.cores[1].current, m.cpus[1].idle);
}
