//! The timer: a free-running counter, and a firmware call that takes a deadline and gives nothing
//! back. So the deadline is remembered here, one for each core.
use vstd::prelude::*;

use crate::arch::heartbeat;
use crate::arch::heartbeat::{Heartbeat, TICK_HZ};

verus! {

/// The number under which the timer interrupts.
pub const TIMER_INTID: u32 = 5;

/// How fast the counter counts.
const TIMEBASE_HZ: u64 = 10_000_000;

/// How fast the counter counts, per second.
pub fn frequency() -> (hz: u64)
    ensures
        hz == 10_000_000,
{
    TIMEBASE_HZ
}

/// Counts between two beats.
pub fn interval() -> (n: u64)
    ensures
        n == 100_000,
{
    TIMEBASE_HZ / TICK_HZ
}

/// Start the beat at time `now`. The first deadline, for the caller to hand to the firmware.
pub fn init(timer: &mut Heartbeat, now: u64) -> (deadline: u64)
    requires
        now + 100_000 <= u64::MAX,
    ensures
        deadline == now + 100_000,
        *final(timer) == (Heartbeat { deadline, ..*old(timer) }),
{
    timer.start(now, interval())
}

/// A beat at time `now`. The next deadline, for the caller to hand to the firmware.
pub fn tick(timer: &mut Heartbeat, now: u64) -> (deadline: u64)
    requires
        old(timer).deadline + 100_000 <= u64::MAX,
        now + 100_000 <= u64::MAX,
    ensures
        *final(timer) == heartbeat::beaten(*old(timer), now, 100_000),
        deadline == final(timer).deadline,
{
    timer.beat(now, interval())
}

/// Beats so far, on the core the timer belongs to.
pub fn ticks(timer: &Heartbeat) -> (n: u64)
    ensures
        n == timer.ticks,
{
    timer.ticks
}

/// Deadlines that had passed by the time the next one was set.
pub fn missed_ticks(timer: &Heartbeat) -> (n: u64)
    ensures
        n == timer.missed,
{
    timer.missed
}

/// Milliseconds since the counter started, `now` being its reading. Beats do not come into it.
pub fn uptime_ms(now: u64) -> (ms: u64)
    ensures
        ms == now / 10_000,
{
    now / (TIMEBASE_HZ / 1000)
}

/// Is a wait of `counter_ticks` that began at `start` over at `now`?
pub fn spin_for(start: u64, now: u64, counter_ticks: u64) -> (over: bool)
    ensures
        over == (counter_ticks <= (if now >= start {
            now - start
        } else {
            now - start + u64::MAX + 1
        })),
{
    heartbeat::has_elapsed(start, now, counter_ticks)
}

} // verus!
