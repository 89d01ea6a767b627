//! The beat of a periodic timer that only knows one deadline at a time.
//!
//! Each deadline is the last one plus a whole interval, never "now plus an interval": a slow handler
//! makes one beat late and leaves the next where it was. Only when the next deadline has passed too
//! is it given up, counted, and the grid anchored anew.
use vstd::prelude::*;

verus! {

/// Beats per second.
pub const TICK_HZ: u64 = 100;

/// What is known of one timer.
#[derive(Debug, Clone, Copy, PartialEq, Eq, Structural)]
pub struct Heartbeat {
    /// Beats so far. Wraps, as an atomic counter does.
    pub ticks: u64,
    /// Deadlines that had passed by the time the next one was set.
    pub missed: u64,
    /// When the next beat is due, by the free-running counter.
    pub deadline: u64,
}

/// `n` plus one, as an atomic counter counts.
pub open spec fn bump(n: u64) -> u64 {
    if n == u64::MAX {
        0
    } else {
        (n + 1) as u64
    }
}

/// The deadline after `deadline`, set at time `now`.
pub open spec fn next_deadline(deadline: int, now: int, interval: int) -> int {
    if deadline + interval <= now {
        now + interval
    } else {
        deadline + interval
    }
}

/// The timer after its next deadline was set at time `now`.
pub open spec fn rearmed(h: Heartbeat, now: u64, interval: u64) -> Heartbeat {
    Heartbeat {
        missed: if h.deadline + interval <= now {
            bump(h.missed)
        } else {
            h.missed
        },
        deadline: next_deadline(h.deadline as int, now as int, interval as int) as u64,
        ..h
    }
}

/// The timer after a beat at time `now`.
pub open spec fn beaten(h: Heartbeat, now: u64, interval: u64) -> Heartbeat {
    rearmed(Heartbeat { ticks: bump(h.ticks), ..h }, now, interval)
}

/// The timer after a beat at each of the times, in order.
pub open spec fn beaten_all(h: Heartbeat, interval: u64, times: Seq<u64>) -> Heartbeat
    decreases times.len(),
{
    if times.len() == 0 {
        h
    } else {
        beaten(beaten_all(h, interval, times.drop_last()), times.last(), interval)
    }
}

impl Heartbeat {
    /// No beat yet.
    pub fn new() -> (h: Heartbeat)
        ensures
            h == (Heartbeat { ticks: 0, missed: 0, deadline: 0 }),
    {
        Heartbeat { ticks: 0, missed: 0, deadline: 0 }
    }

    /// Anchor the grid one interval from `now`. The first deadline.
    pub fn start(&mut self, now: u64, interval: u64) -> (deadline: u64)
        requires
            now + interval <= u64::MAX,
        ensures
            deadline == now + interval,
            *final(self) == (Heartbeat { deadline, ..*old(self) }),
    {
        self.deadline = now + interval;
        self.deadline
    }

    /// Set the next deadline, and say which it is.
    pub fn rearm(&mut self, now: u64, interval: u64) -> (deadline: u64)
        requires
            old(self).deadline + interval <= u64::MAX,
            now + interval <= u64::MAX,
        ensures
            *final(self) == rearmed(*old(self), now, interval),
            deadline == final(self).deadline,
    {
        let mut next: u64 = self.deadline + interval;
        if next <= now {
            self.missed = self.missed.wrapping_add(1);
            next = now + interval;
        }
        self.deadline = next;
        next
    }

    /// A beat: count it and set the next deadline.
    pub fn beat(&mut self, now: u64, interval: u64) -> (deadline: u64)
        requires
            old(self).deadline + interval <= u64::MAX,
            now + interval <= u64::MAX,
        ensures
            *final(self) == beaten(*old(self), now, interval),
            deadline == final(self).deadline,
    {
        self.ticks = self.ticks.wrapping_add(1);
        self.rearm(now, interval)
    }
}

/// Have `counter_ticks` gone by between the counter's readings `start` and `now`? The counter may
/// have wrapped in between.
pub fn has_elapsed(start: u64, now: u64, counter_ticks: u64) -> (r: bool)
    ensures
        r == (counter_ticks <= (if now >= start {
            now - start
        } else {
            now - start + u64::MAX + 1
        })),
{
    now.wrapping_sub(start) >= counter_ticks
}

/// The deadline after a beat at each of the times, in order.
pub open spec fn after_beats(first: int, interval: int, times: Seq<int>) -> int
    decreases times.len(),
{
    if times.len() == 0 {
        first
    } else {
        next_deadline(after_beats(first, interval, times.drop_last()), times.last(), interval)
    }
}

/// **The beat does not drift.** As long as every handler runs before the next deadline on the grid,
/// the deadline after `n` beats is exactly `n` intervals after the first, however late each of the
/// handlers was.
pub proof fn law_the_beat_does_not_drift(first: int, interval: int, times: Seq<int>)
    requires
        interval > 0,
        forall|k: int| 0 <= k < times.len() ==> #[trigger] times[k] < first + (k + 1) * interval,
    ensures
        after_beats(first, interval, times) == first + times.len() * interval,
    decreases times.len(),
{
    if times.len() > 0 {
        let rest = times.drop_last();
        let n = times.len() - 1;
        assert forall|k: int| 0 <= k < rest.len() implies #[trigger] rest[k] < first + (k + 1)
            * interval by {
            assert(times[k] < first + (k + 1) * interval);
        }
        law_the_beat_does_not_drift(first, interval, rest);
        assert(times[n] < first + (n + 1) * interval);
        assert(first + n * interval + interval == first + (n + 1) * interval) by (nonlinear_arith);
        assert(times.len() == n + 1);
    }
}

/// **A beat counts once.** It adds one beat, and one missed deadline at most: only if the next
/// deadline on the grid had passed too.
pub proof fn law_a_beat_counts_once(h: Heartbeat, now: u64, interval: u64)
    ensures
        beaten(h, now, interval).ticks == bump(h.ticks),
        beaten(h, now, interval).missed == (if h.deadline + interval <= now {
            bump(h.missed)
        } else {
            h.missed
        }),
{
}

/// How many of the beats found the next deadline passed.
pub open spec fn late(h: Heartbeat, interval: u64, times: Seq<u64>) -> nat
    decreases times.len(),
{
    if times.len() == 0 {
        0
    } else {
        let before = beaten_all(h, interval, times.drop_last());
        late(h, interval, times.drop_last()) + if before.deadline + interval <= times.last() {
            1nat
        } else {
            0nat
        }
    }
}

/// **Every beat is counted, and every late one is.** After as many beats as there are times, the
/// count is that much higher, and the other is higher by those that were late, which are no more
/// than there were beats. Both counts wrap at their end.
pub proof fn law_every_beat_is_counted(h: Heartbeat, interval: u64, times: Seq<u64>)
    ensures
        beaten_all(h, interval, times).ticks == (h.ticks + times.len()) % 0x1_0000_0000_0000_0000,
        beaten_all(h, interval, times).missed == (h.missed + late(h, interval, times))
            % 0x1_0000_0000_0000_0000,
        late(h, interval, times) <= times.len(),
    decreases times.len(),
{
    if times.len() > 0 {
        law_every_beat_is_counted(h, interval, times.drop_last());
    }
}

/// **A deadline is always still to come.** However far behind the handler is, it never sets a
/// deadline that has passed, so it never fires over and over.
pub proof fn law_the_next_beat_is_to_come(deadline: int, now: int, interval: int)
    requires
        interval > 0,
    ensures
        next_deadline(deadline, now, interval) > now,
        deadline <= now ==> next_deadline(deadline, now, interval) <= now + interval,
{
}

/// **Only a deadline that was missed is given up.** One that is still to come is kept to the grid; one
/// that has passed is a whole interval from now instead. Setting it counts no beat, and counts a miss
/// in the second case only; the count goes back to none after the greatest number.
pub proof fn law_only_a_missed_deadline_is_given_up(h: Heartbeat, now: u64, interval: u64)
    requires
        h.deadline + interval <= u64::MAX,
        now + interval <= u64::MAX,
    ensures
        ({
            let r = rearmed(h, now, interval);
            &&& r.ticks == h.ticks
            &&& now < h.deadline + interval ==> r.deadline - h.deadline == interval && r.missed
                == h.missed
            &&& now >= h.deadline + interval ==> r.deadline - now == interval && r.missed == (
            h.missed + 1) % 0x1_0000_0000_0000_0000
            &&& beaten(h, now, interval).deadline == r.deadline
            &&& beaten(h, now, interval).missed == r.missed
        }),
{
}

} // verus!
