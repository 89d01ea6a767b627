use cricker_os::abi::FaultAbi;
use cricker_os::cap::{endpoint_cap, reply_cap, Object, Rights, Tid, CSPACE_SLOTS, NO_CAP};
use cricker_os::ipc::{Endpoint, Recv, Send};
use cricker_os::machine::Machine;
use cricker_os::sched;
use cricker_os::thread::State;

const ABI: FaultAbi = FaultAbi { event_exit: 1, event_fault: 2, fault_ep_slot: 15 };

const ROOT: u64 = 0x8000_0000_0008_0000;

/// Two cores: the boot thread on core 0, and a thread of its own on core 1.
fn two_cores() -> (Machine, Tid, Tid) {
    let mut m = Machine::new(2, vec![]);
    sched::init(&mut m, 0, 0x1000, 0x2000, 0x9000);
    sched::adopt_secondary_idle(&mut m, 1, 0x3000);
    let s = sched::spawn_on(&mut m, 0, 1, 0x4000, 0xa000).unwrap();
    assert_eq!(s.poke, Some(1));
    sched::drain_inbox(&mut m, 1);
    let sw = sched::schedule(&mut m, 1, ROOT).unwrap();
    assert_eq!(sw.next, s.tid);
    assert!(sched::finish_switch(&mut m, 1).is_none());
    let boot = sched::current(&m, 0);
    (m, boot, s.tid)
}

fn state(m: &Machine, tid: Tid) -> State {
    m.thread(tid).unwrap().state
}

/// Core `cpu` goes elsewhere because its thread blocked.
fn leave(m: &mut Machine, cpu: usize) {
    assert!(sched::schedule(m, cpu, ROOT).is_some());
    assert!(sched::finish_switch(m, cpu).is_none());
}

#[test]
fn an_endpoint_serves_senders_in_order() {
    let mut e = Endpoint::new();
    assert_eq!(e.send(1), Send::Blocked);
    assert_eq!(e.send(2), Send::Blocked);
    assert_eq!(e.send(3), Send::Blocked);
    assert_eq!(e.debug_counts(), (3, 0, 0));
    assert_eq!(e.recv(9), Recv::FromSender(1));
    e.remove_sender(2);
    assert_eq!(e.recv(9), Recv::FromSender(3));
    assert_eq!(e.recv(9), Recv::Blocked);
    assert_eq!(e.send(4), Send::Rendezvous(9));
    assert_eq!(e.debug_counts(), (0, 0, 0));
}

#[test]
fn a_signal_is_taken_before_a_sender() {
    let mut e = Endpoint::new();
    assert_eq!(e.signal(), None);
    assert_eq!(e.signal(), None);
    assert_eq!(e.send(1), Send::Blocked);
    assert_eq!(e.recv(9), Recv::Signal);
    assert_eq!(e.recv(9), Recv::Signal);
    assert_eq!(e.recv(9), Recv::FromSender(1));
    assert_eq!(e.recv(9), Recv::Blocked);
    assert_eq!(e.signal(), Some(9));
    assert_eq!(e.debug_counts(), (0, 0, 0));
}

#[test]
fn draining_empties_both_sides() {
    let mut e = Endpoint::new();
    e.recv(5);
    e.recv(6);
    assert_eq!(e.drain_waiters(), vec![5, 6]);
    assert_eq!(e.debug_counts(), (0, 0, 0));
}

#[test]
fn a_sender_blocks_until_a_receiver_arrives() {
    let (mut m, boot, other) = two_cores();
    let ep = m.insert_endpoint(0x8000).unwrap();
    assert!(sched::ipc_send(&mut m, 0, ep, [7, 8, 9]));
    assert_eq!(state(&m, boot), State::Blocked);
    assert_eq!(sched::endpoint_waiting_senders(&m, ep), 1);
    leave(&mut m, 0);
    assert_eq!(sched::ipc_recv(&mut m, 1, ep), Some([7, 8, 9, 0, 0]));
    assert_eq!(state(&m, other), State::Running);
    // Off its core by now, so it is in line on the core that woke it.
    assert_eq!(state(&m, boot), State::Ready);
    assert_eq!(m.cpus[1].runq.len(), 1);
    assert_eq!(sched::endpoint_waiting_senders(&m, ep), 0);
}

#[test]
fn a_receiver_blocks_until_a_sender_arrives() {
    let (mut m, boot, other) = two_cores();
    let ep = m.insert_endpoint(0x8000).unwrap();
    assert_eq!(sched::ipc_recv(&mut m, 0, ep), None);
    assert_eq!(state(&m, boot), State::Blocked);
    leave(&mut m, 0);
    assert!(!sched::ipc_send(&mut m, 1, ep, [1, 2, 3]));
    assert_eq!(state(&m, other), State::Running);
    assert_eq!(state(&m, boot), State::Ready);
    // It finds the words in its mailbox once it runs again.
    leave_and_return(&mut m, boot);
    assert_eq!(sched::mailbox(&m, 1), Some([1, 2, 3, 0, 0]));
}

/// Core 1 yields to the thread first in line, which has to be `tid`.
fn leave_and_return(m: &mut Machine, tid: Tid) {
    let sw = sched::yield_now(m, 1, ROOT).unwrap();
    assert_eq!(sw.next, tid);
    sched::finish_switch(m, 1);
    assert_eq!(sched::current(m, 1), tid);
}

#[test]
fn a_wake_that_comes_early_is_completed() {
    let (mut m, boot, _) = two_cores();
    let ep = m.insert_endpoint(0x8000).unwrap();
    assert_eq!(sched::ipc_recv(&mut m, 0, ep), None);
    let sw = sched::schedule(&mut m, 0, ROOT).unwrap();
    assert_eq!(sw.prev, boot);
    // Core 0 is between two threads: the receiver's context is not saved yet.
    assert!(!sched::ipc_send(&mut m, 1, ep, [5, 0, 0]));
    assert_eq!(state(&m, boot), State::Blocked);
    assert!(m.thread(boot).unwrap().wake_pending);
    assert_eq!(m.cpus[0].runq.len() + m.cpus[1].runq.len(), 0);
    sched::finish_switch(&mut m, 0);
    assert_eq!(state(&m, boot), State::Ready);
    assert!(!m.thread(boot).unwrap().wake_pending);
    assert!(!m.thread(boot).unwrap().on_cpu);
    assert_eq!(m.cpus[0].runq.len(), 1);
}

#[test]
fn a_stale_endpoint_aborts() {
    let (mut m, boot, _) = two_cores();
    let ep = m.insert_endpoint(0x8000).unwrap();
    m.remove_endpoint(ep);
    let again = m.insert_endpoint(0x8000).unwrap();
    assert_ne!(again, ep);
    assert!(!sched::ipc_send(&mut m, 0, ep, [1, 2, 3]));
    assert!(sched::take_ipc_aborted(&mut m, 0));
    assert!(!sched::take_ipc_aborted(&mut m, 0));
    assert_eq!(sched::ipc_recv(&mut m, 0, ep), Some([0, 0, 0, 0, 0]));
    assert!(sched::take_ipc_aborted(&mut m, 0));
    assert_eq!(sched::ipc_recv_cap(&mut m, 0, ep), Some([0, 0, 0]));
    assert!(sched::take_ipc_aborted(&mut m, 0));
    assert!(!sched::ipc_call(&mut m, 0, ep, [1, 2]));
    assert!(sched::take_ipc_aborted(&mut m, 0));
    assert!(!sched::ipc_send_cap(&mut m, 0, ep, 1, reply_cap(1)));
    assert!(sched::take_ipc_aborted(&mut m, 0));
    assert_eq!(state(&m, boot), State::Running);
}

#[test]
fn a_capability_travels_with_a_word() {
    let (mut m, boot, other) = two_cores();
    let ep = m.insert_endpoint(0x8000).unwrap();
    let gift = endpoint_cap(ep, Rights::write());
    assert!(sched::ipc_send_cap(&mut m, 0, ep, 42, gift));
    leave(&mut m, 0);
    assert_eq!(sched::ipc_recv_cap(&mut m, 1, ep), Some([42, 0, 0]));
    assert_eq!(sched::current_cap(&m, 1, 0), Ok(gift));
    assert!(m.thread(boot).unwrap().outgoing_cap.is_none());
    assert_eq!(state(&m, boot), State::Ready);
    // The other way round: the receiver is there first.
    assert_eq!(sched::ipc_recv_cap(&mut m, 1, ep), None);
    leave(&mut m, 1);
    assert_eq!(sched::current(&m, 1), boot);
    assert!(!sched::ipc_send_cap(&mut m, 1, ep, 43, gift));
    assert_eq!(m.thread(other).unwrap().mailbox, [43, 1, 0, 0, 0]);
    assert!(m.thread(other).unwrap().cspace.get(1) == Ok(gift));
}

#[test]
fn a_full_table_drops_the_capability_and_keeps_the_word() {
    let (mut m, _, other) = two_cores();
    let ep = m.insert_endpoint(0x8000).unwrap();
    let gift = endpoint_cap(ep, Rights::read());
    for i in 0..CSPACE_SLOTS {
        assert_eq!(sched::grant(&mut m, 1, gift), Ok(i as u64));
    }
    assert!(sched::ipc_send_cap(&mut m, 0, ep, 42, gift));
    assert_eq!(sched::ipc_recv_cap(&mut m, 1, ep), Some([42, NO_CAP, 0]));
    assert_eq!(m.thread(other).unwrap().cspace.len(), CSPACE_SLOTS);
}

#[test]
fn a_plain_sender_carries_no_capability() {
    let (mut m, _, _) = two_cores();
    let ep = m.insert_endpoint(0x8000).unwrap();
    assert!(sched::ipc_send(&mut m, 0, ep, [42, 43, 44]));
    assert_eq!(sched::ipc_recv_cap(&mut m, 1, ep), Some([42, NO_CAP, 43]));
}

#[test]
fn a_call_gets_a_reply() {
    let (mut m, boot, other) = two_cores();
    let ep = m.insert_endpoint(0x8000).unwrap();
    // The server waits.
    assert_eq!(sched::ipc_recv_cap(&mut m, 1, ep), None);
    leave(&mut m, 1);
    assert!(sched::ipc_call(&mut m, 0, ep, [10, 11]));
    assert_eq!(state(&m, boot), State::Blocked);
    assert_eq!(m.thread(other).unwrap().mailbox, [10, 0, 11, 0, 0]);
    assert!(m.thread(other).unwrap().cspace.get(0) == Ok(reply_cap(boot)));
    leave(&mut m, 0);
    assert_eq!(sched::current(&m, 0), other);
    sched::ipc_reply(&mut m, 0, boot, [20, 21]);
    assert_eq!(state(&m, boot), State::Ready);
    assert_eq!(m.thread(boot).unwrap().mailbox, [20, 21, 0, 0, 0]);
    assert_eq!(sched::delete_current_cap(&mut m, 0, 0), Ok(()));
    // A second reply reaches a thread that is not blocked: nothing happens to its state.
    sched::ipc_reply(&mut m, 0, boot, [22, 23]);
    assert_eq!(state(&m, boot), State::Ready);
    assert_eq!(m.cpus[0].runq.len(), 1);
}

#[test]
fn a_caller_whose_words_were_taken_stays_blocked() {
    let (mut m, boot, _) = two_cores();
    let ep = m.insert_endpoint(0x8000).unwrap();
    assert!(sched::ipc_call(&mut m, 0, ep, [10, 11]));
    leave(&mut m, 0);
    assert_eq!(sched::ipc_recv_cap(&mut m, 1, ep), Some([10, 0, 11]));
    assert_eq!(state(&m, boot), State::Blocked);
    assert!(!m.thread(boot).unwrap().wake_pending);
    let cap = sched::current_cap(&m, 1, 0).unwrap();
    assert_eq!(cap.object, Object::Reply(boot));
    assert!(!cap.rights.grant);
    sched::ipc_reply(&mut m, 1, boot, [20, 21]);
    assert_eq!(state(&m, boot), State::Ready);
    assert_eq!(m.thread(boot).unwrap().mailbox, [20, 21, 0, 0, 0]);
}

#[test]
fn a_reply_to_nobody_is_dropped() {
    let (mut m, _, other) = two_cores();
    sched::ipc_reply(&mut m, 0, 0x77_0000_0003, [1, 2]);
    assert_eq!(state(&m, other), State::Running);
    assert_eq!(sched::thread_count(&m), 4);
}

#[test]
fn an_unsupervised_exit_leaves_nothing() {
    let (mut m, _, other) = two_cores();
    sched::exit(&mut m, 1, ABI);
    assert_eq!(state(&m, other), State::Finished);
    assert!(sched::schedule(&mut m, 1, ROOT).is_some());
    let r = sched::finish_switch(&mut m, 1).unwrap();
    assert_eq!(r.stack_top, Some(0xa000));
    assert_eq!(r.page, Some(0x4000));
    assert!(m.thread(other).is_none());
    assert_eq!(sched::corpse_fault_msg(&m, other), None);
}

#[test]
fn a_supervised_death_is_reported() {
    let (mut m, boot, other) = two_cores();
    let ep = m.insert_endpoint(0x8000).unwrap();
    m.thread_mut(other).unwrap().fault_ep = Some(ep);
    sched::fault(&mut m, 1, ABI, 0x1234, 0x5678);
    let msg = [2, other, 0x1234, 0x5678, 0];
    assert_eq!(state(&m, other), State::Dead);
    assert_eq!(sched::corpse_fault_msg(&m, other), Some(msg));
    assert_eq!(sched::endpoint_waiting_senders(&m, ep), 1);
    leave(&mut m, 1);
    assert_eq!(sched::ipc_recv(&mut m, 0, ep), Some(msg));
    // Taking the message does not bring the corpse back.
    assert_eq!(state(&m, other), State::Dead);
    assert_eq!(sched::current(&m, 0), boot);
    assert_eq!(sched::endpoint_waiting_senders(&m, ep), 0);
}

#[test]
fn a_waiting_supervisor_is_woken_by_a_death() {
    let (mut m, boot, other) = two_cores();
    let ep = m.insert_endpoint(0x8000).unwrap();
    m.thread_mut(other).unwrap().fault_ep = Some(ep);
    assert_eq!(sched::ipc_recv(&mut m, 0, ep), None);
    leave(&mut m, 0);
    sched::exit(&mut m, 1, ABI);
    assert_eq!(m.thread(boot).unwrap().mailbox, [1, other, 0, 0, 0]);
    assert_eq!(state(&m, boot), State::Ready);
    assert_eq!(state(&m, other), State::Dead);
}

#[test]
fn a_death_with_the_supervisor_gone_is_kept_for_the_postmortem() {
    let (mut m, _, other) = two_cores();
    m.thread_mut(other).unwrap().fault_ep = Some(0x55);
    sched::exit(&mut m, 1, ABI);
    assert_eq!(state(&m, other), State::Dead);
    assert_eq!(sched::corpse_fault_msg(&m, other), Some([1, other, 0, 0, 0]));
}

#[test]
fn an_interrupt_becomes_a_message() {
    let (mut m, boot, _) = two_cores();
    let ep = m.insert_endpoint(0x8000).unwrap();
    sched::bind_irq(&mut m, 10, ep);
    assert_eq!(sched::irq_route(&m, 10), Some(ep));
    assert_eq!(sched::irq_route(&m, 11), None);
    assert_eq!(sched::irq_route(&m, 100000), None);
    assert_eq!(sched::ipc_recv(&mut m, 0, ep), None);
    leave(&mut m, 0);
    // Core 0 idles and core 1 runs a thread, but neither queue holds anybody: here wins the tie.
    assert_eq!(sched::irq_notify(&mut m, 1, ep), None);
    assert_eq!(state(&m, boot), State::Ready);
    assert_eq!(m.thread(boot).unwrap().mailbox, [1, 0, 0, 0, 0]);
    assert_eq!(m.cpus[1].runq.len(), 1);
}

#[test]
fn an_interrupt_that_arrives_before_the_wait_is_not_lost() {
    let (mut m, boot, _) = two_cores();
    let ep = m.insert_endpoint(0x8000).unwrap();
    assert_eq!(sched::irq_notify(&mut m, 1, ep), None);
    assert_eq!(sched::ipc_recv(&mut m, 0, ep), Some([1, 0, 0, 0, 0]));
    assert_eq!(state(&m, boot), State::Running);
    assert_eq!(sched::irq_notify(&mut m, 1, ep), None);
    assert_eq!(sched::ipc_recv_cap(&mut m, 0, ep), Some([1, NO_CAP, 0]));
    assert_eq!(sched::irq_notify(&mut m, 1, 0x99), None);
}

#[test]
fn words_carry_no_authority() {
    let (mut m, boot, other) = two_cores();
    let ep = m.insert_endpoint(0x8000).unwrap();
    let held = endpoint_cap(ep, Rights::write());
    assert_eq!(sched::grant(&mut m, 0, held), Ok(0));
    assert_eq!(sched::ipc_recv(&mut m, 1, ep), None);
    leave(&mut m, 1);
    assert!(!sched::ipc_send(&mut m, 0, ep, [0, 0, 0]));
    for slot in 0..CSPACE_SLOTS as u64 {
        assert!(m.thread(other).unwrap().cspace.get(slot).is_err());
    }
    assert!(m.thread(boot).unwrap().cspace.get(0) == Ok(held));
}

#[test]
fn a_receiver_that_asked_for_a_capability_is_told_that_none_came() {
    // The receiver first.
    let (mut m, boot, t) = two_cores();
    let ep = m.insert_endpoint(0x7000).unwrap();
    assert_eq!(sched::ipc_recv_cap(&mut m, 1, ep), None);
    leave(&mut m, 1);
    assert!(!sched::ipc_send(&mut m, 0, ep, [7, 8, 9]));
    assert_eq!(m.thread(t).unwrap().mailbox, [7, NO_CAP, 8, 0, 0]);
    assert!(m.thread(t).unwrap().cspace.get(0).is_err());
    // The sender first.
    let (mut m, _, _) = two_cores();
    let ep = m.insert_endpoint(0x7000).unwrap();
    assert!(sched::ipc_send(&mut m, 0, ep, [7, 8, 9]));
    leave(&mut m, 0);
    assert_eq!(sched::ipc_recv_cap(&mut m, 1, ep), Some([7, NO_CAP, 8]));
    assert_eq!(state(&m, boot), State::Ready);
}

#[test]
fn an_interrupt_and_a_death_bring_no_capability() {
    let (mut m, _, t) = two_cores();
    let ep = m.insert_endpoint(0x7000).unwrap();
    assert_eq!(sched::ipc_recv_cap(&mut m, 1, ep), None);
    leave(&mut m, 1);
    sched::irq_notify(&mut m, 1, ep);
    assert_eq!(m.thread(t).unwrap().mailbox, [1, NO_CAP, 0, 0, 0]);
    let (mut m, boot, t) = two_cores();
    let ep = m.insert_endpoint(0x7000).unwrap();
    m.thread_mut(boot).unwrap().fault_ep = Some(ep);
    assert_eq!(sched::ipc_recv_cap(&mut m, 1, ep), None);
    leave(&mut m, 1);
    sched::fault(&mut m, 0, ABI, 0x40, 0x50);
    assert_eq!(m.thread(t).unwrap().mailbox, [2, NO_CAP, boot, 0, 0]);
    assert_eq!(m.thread(boot).unwrap().fault_msg, Some([2, boot, 0x40, 0x50, 0]));
}

#[test]
fn a_plain_receive_after_a_capability_receive_gets_plain_words() {
    let (mut m, _, t) = two_cores();
    let ep = m.insert_endpoint(0x7000).unwrap();
    assert_eq!(sched::ipc_recv_cap(&mut m, 1, ep), None);
    leave(&mut m, 1);
    assert!(!sched::ipc_send(&mut m, 0, ep, [7, 8, 9]));
    leave(&mut m, 0);
    assert_eq!(sched::current(&m, 0), t);
    assert_eq!(sched::ipc_recv(&mut m, 0, ep), None);
    leave(&mut m, 0);
    assert!(!sched::ipc_send(&mut m, 0, ep, [7, 8, 9]));
    assert_eq!(m.thread(t).unwrap().mailbox, [7, 8, 9, 0, 0]);
}

#[test]
fn a_call_and_a_receive_meet_in_either_order() {
    let (mut m, boot, t) = two_cores();
    let ep = m.insert_endpoint(0x7000).unwrap();
    assert_eq!(sched::ipc_recv_cap(&mut m, 1, ep), None);
    leave(&mut m, 1);
    assert!(sched::ipc_call(&mut m, 0, ep, [10, 11]));
    assert_eq!(m.thread(t).unwrap().mailbox, [10, 0, 11, 0, 0]);
    assert_eq!(m.thread(t).unwrap().cspace.get(0), Ok(reply_cap(boot)));
    assert!(m.thread(t).unwrap().cspace.get(1).is_err());
    assert_eq!(state(&m, boot), State::Blocked);
    let (mut m, boot, t) = two_cores();
    let ep = m.insert_endpoint(0x7000).unwrap();
    assert!(sched::ipc_call(&mut m, 0, ep, [10, 11]));
    leave(&mut m, 0);
    assert_eq!(sched::ipc_recv_cap(&mut m, 1, ep), Some([10, 0, 11]));
    assert_eq!(m.thread(t).unwrap().cspace.get(0), Ok(reply_cap(boot)));
    assert!(m.thread(t).unwrap().cspace.get(1).is_err());
    assert_eq!(state(&m, boot), State::Blocked);
    // Only the caller hears of the reply.
    let before = m.thread(t).unwrap().mailbox;
    sched::ipc_reply(&mut m, 1, boot, [5, 6]);
    assert_eq!(m.thread(boot).unwrap().mailbox, [5, 6, 0, 0, 0]);
    assert_eq!(state(&m, boot), State::Ready);
    assert_eq!(m.thread(t).unwrap().mailbox, before);
    assert_eq!(state(&m, t), State::Running);
    sched::ipc_reply(&mut m, 1, 0x99, [5, 6]);
}

#[test]
fn a_parked_capability_goes_with_no_later_message() {
    let (mut m, boot, server) = two_cores();
    let ep = m.insert_endpoint(0x7000).unwrap();
    // The words of a call are taken without the reply capability, and the caller is let go.
    assert!(sched::ipc_call(&mut m, 0, ep, [1, 2]));
    leave(&mut m, 0);
    assert_eq!(sched::ipc_recv(&mut m, 1, ep), Some([1, 2, 0, 0, 0]));
    assert_eq!(m.thread(boot).unwrap().outgoing_cap, Some(reply_cap(boot)));
    assert_eq!(state(&m, boot), State::Blocked);
    sched::ipc_reply(&mut m, 1, boot, [0, 0]);
    // Its next plain send wakes it like anybody's.
    sched::drain_inbox(&mut m, 0);
    leave(&mut m, 1);
    let home = if sched::current(&m, 0) == boot { 0 } else { 1 };
    assert_eq!(sched::current(&m, home), boot);
    assert!(sched::ipc_send(&mut m, home, ep, [3, 4, 5]));
    assert_eq!(m.thread(boot).unwrap().outgoing_cap, Some(reply_cap(boot)));
    leave(&mut m, home);
    assert_eq!(sched::current(&m, home), server);
    assert_eq!(sched::ipc_recv_cap(&mut m, home, ep), Some([3, NO_CAP, 4]));
    assert_eq!(m.thread(boot).unwrap().outgoing_cap, None);
    assert_eq!(state(&m, boot), State::Ready);
    assert!(m.thread(server).unwrap().cspace.get(0).is_err());
}

#[test]
fn a_reply_reaches_the_caller_that_called() {
    let (mut m, boot, server) = two_cores();
    let ep = m.insert_endpoint(0x7000).unwrap();
    let other = sched::spawn_on(&mut m, 0, 0, 0x5000, 0xb000).unwrap().tid;
    // Two clients call at once.
    assert!(sched::ipc_call(&mut m, 0, ep, [100, 0]));
    leave(&mut m, 0);
    assert_eq!(sched::current(&m, 0), other);
    assert!(sched::ipc_call(&mut m, 0, ep, [200, 0]));
    leave(&mut m, 0);
    // The server answers each through its own capability.
    for _ in 0..2 {
        let [word, slot, _] = sched::ipc_recv_cap(&mut m, 1, ep).unwrap();
        match sched::current_cap(&m, 1, slot).unwrap().object {
            Object::Reply(caller) => sched::ipc_reply(&mut m, 1, caller, [word + 11, 0]),
            o => panic!("not a reply capability: {o:?}"),
        }
        assert_eq!(sched::delete_current_cap(&mut m, 1, slot), Ok(()));
    }
    assert_eq!(m.thread(boot).unwrap().mailbox[0], 111);
    assert_eq!(m.thread(other).unwrap().mailbox[0], 211);
    assert_eq!(state(&m, boot), State::Ready);
    assert_eq!(state(&m, other), State::Ready);
    assert_eq!(state(&m, server), State::Running);
}

#[test]
fn other_threads_run_while_one_is_blocked() {
    let (mut m, boot, _) = two_cores();
    let ep = m.insert_endpoint(0x7000).unwrap();
    let worker = sched::spawn_on(&mut m, 0, 0, 0x5000, 0xb000).unwrap().tid;
    assert_eq!(sched::ipc_recv(&mut m, 0, ep), None);
    leave(&mut m, 0);
    for _ in 0..3 {
        assert_eq!(sched::current(&m, 0), worker);
        assert!(sched::schedule(&mut m, 0, ROOT).is_none());
    }
    assert_eq!(state(&m, boot), State::Blocked);
}
