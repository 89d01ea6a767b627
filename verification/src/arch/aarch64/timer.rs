//! The timer: a counter of the core's own, a frequency the firmware has set, and one absolute
//! deadline.
use vstd::prelude::*;

use crate::arch::heartbeat;
use crate::arch::heartbeat::{Heartbeat, TICK_HZ};

verus! {

/// The number under which the timer interrupts.
pub const TIMER_INTID: u32 = 27;

/// The timer, and the counts between two beats.
#[derive(Debug, Clone, Copy, PartialEq, Eq, Structural)]
pub struct Timer {
    pub beat: Heartbeat,
    pub interval: u64,
}

/// A timer that has not started.
pub fn stopped() -> (t: Timer)
    ensures
        t.beat == (Heartbeat { ticks: 0, missed: 0, deadline: 0 }),
        t.interval == 0,
{
    Timer { beat: Heartbeat::new(), interval: 0 }
}

/// Start the beat at time `now`, `freq` being what the firmware says of the counter. The first
/// deadline, for the caller to write.
pub fn init(timer: &mut Timer, freq: u64, now: u64) -> (deadline: u64)
    requires
        freq > 0,
        now + freq / 100 <= u64::MAX,
    ensures
        deadline == now + freq / 100,
        *final(timer) == (Timer {
            beat: Heartbeat { deadline, ..old(timer).beat },
            interval: freq / 100,
        }),
{
    let interval: u64 = freq / TICK_HZ;
    timer.interval = interval;
    timer.beat.start(now, interval)
}

/// A beat at time `now`. The next deadline, for the caller to write.
pub fn tick(timer: &mut Timer, now: u64) -> (deadline: u64)
    requires
        old(timer).beat.deadline + old(timer).interval <= u64::MAX,
        now + old(timer).interval <= u64::MAX,
    ensures
        *final(timer) == (Timer {
            beat: heartbeat::beaten(old(timer).beat, now, old(timer).interval),
            ..*old(timer)
        }),
        deadline == final(timer).beat.deadline,
{
    let interval: u64 = timer.interval;
    timer.beat.beat(now, interval)
}

/// Beats so far.
pub fn ticks(timer: &Timer) -> (n: u64)
    ensures
        n == timer.beat.ticks,
{
    timer.beat.ticks
}

/// Deadlines that had passed by the time the next one was set.
pub fn missed_ticks(timer: &Timer) -> (n: u64)
    ensures
        n == timer.beat.missed,
{
    timer.beat.missed
}

/// Counts between two beats.
pub fn interval(timer: &Timer) -> (n: u64)
    ensures
        n == timer.interval,
{
    timer.interval
}

/// Milliseconds since the counter started, `now` being its reading and `freq` its frequency. Beats
/// do not come into it.
pub fn uptime_ms(now: u64, freq: u64) -> (ms: u64)
    requires
        now * 1000 <= u64::MAX,
    ensures
        ms == (if freq == 0 {
            0
        } else {
            (now * 1000) as u64 / freq
        }),
{
    if freq == 0 {
        return 0;
    }
    now * 1000 / freq
}

/// Is a wait of `counter_ticks` that began at `start` over at `now`?
pub fn spin_for(start: u64, now: u64, counter_ticks: u64) -> (over: bool)
    ensures
        over == (counter_ticks <= (if now >= start {
            now - start
        } else {
            now - start + u64::MAX + 1
        })),
{
    heartbeat::has_elapsed(start, now, counter_ticks)
}

} // verus!
