//! The poller's decision core: per-target scheduling at a fixed cadence for
//! a bounded duration, with missed ticks skipped rather than queued, and the
//! classification of each probe's outcome. Running probes, sleeping and
//! sending live with the embedder; every decision lives here.
use crate::num::{SecondsU64, Timestamp};
use crate::record::{JsonValue, Record};
use vstd::prelude::*;

verus! {

/// One polling target: a name and the probe command that samples it.
pub struct PollTarget {
    pub target: String,
    pub command_path: String,
    pub command_args: Vec<String>,
}

/// The poll command's configuration: targets, cadence, and total duration.
pub struct PollCommand {
    pub targets: Vec<PollTarget>,
    pub poll_interval: SecondsU64,
    pub poll_duration: Option<SecondsU64>,
}

/// The target command's configuration: the probe command and an optional
/// target name.
pub struct TargetCommand {
    pub command_path: String,
    pub command_args: Vec<String>,
    pub target: Option<String>,
}

/// What one probe execution came to.
pub enum ProbeOutcome {
    /// The process could not be started.
    LaunchFailure,
    /// The process exited with a non-zero status.
    AbnormalExit,
    /// Standard output was not a JSON document.
    NotJson,
    /// A JSON document was read from standard output.
    Value(JsonValue),
}

/// A successful probe becomes a record; every failure is skipped, leaving a
/// gap for this tick and nothing else.
pub fn record_from_probe(target: &String, timestamp: Timestamp, outcome: ProbeOutcome) -> (r:
    Option<Record>)
    ensures
        match outcome {
            ProbeOutcome::Value(v) => r matches Some(rec) && rec.target@ == target@
                && rec.timestamp == timestamp && rec.value == v,
            _ => r is None,
        },
{
    match outcome {
        ProbeOutcome::Value(v) => Some(
            Record { target: target.clone(), timestamp, value: v },
        ),
        _ => None,
    }
}

/// One target's schedule, over a monotonic clock counted in nanoseconds.
pub struct PollSchedule {
    pub poll_interval: u64,
    pub next_poll_time: u64,
    pub end_time: u64,
}

impl PollSchedule {
    pub open spec fn wf(&self) -> bool {
        self.poll_interval >= 1
    }

    /// A schedule starting immediately and expiring after `poll_duration`.
    pub fn new(now: u64, poll_interval: u64, poll_duration: u64) -> (r: Self)
        requires
            poll_interval >= 1,
            now + poll_duration <= u64::MAX,
        ensures
            r.wf(),
            r.poll_interval == poll_interval,
            r.next_poll_time == now,
            r.end_time == now + poll_duration,
    {
        PollSchedule { poll_interval, next_poll_time: now, end_time: now + poll_duration }
    }

    /// Whether the unit stops instead of polling again: its configured
    /// duration is spent.
    pub fn finished(&self) -> (r: bool)
        ensures
            r == (self.end_time <= self.next_poll_time),
    {
        self.end_time <= self.next_poll_time
    }

    /// Moves the next tick to the first scheduled instant after `now`;
    /// every missed instant is skipped, never queued, so a slow probe
    /// cannot cause a burst of immediate re-polls.
    pub fn advance(&mut self, now: u64)
        requires
            old(self).wf(),
            now + old(self).poll_interval <= u64::MAX,
        ensures
            final(self).wf(),
            final(self).poll_interval == old(self).poll_interval,
            final(self).end_time == old(self).end_time,
            old(self).next_poll_time >= now ==> final(self).next_poll_time == old(
                self,
            ).next_poll_time,
            old(self).next_poll_time < now ==> now <= final(self).next_poll_time < now + old(
                self,
            ).poll_interval,
            (final(self).next_poll_time - old(self).next_poll_time) % (
            old(self).poll_interval as int) == 0,
            old(self).next_poll_time < now <= old(self).next_poll_time + old(self).poll_interval
                ==> final(self).next_poll_time == old(self).next_poll_time + old(
                self,
            ).poll_interval,
    {
        proof {
            vstd::arithmetic::div_mod::lemma_small_mod(0, self.poll_interval as nat);
        }
        while self.next_poll_time < now
            invariant
                self.poll_interval == old(self).poll_interval,
                self.end_time == old(self).end_time,
                self.poll_interval >= 1,
                now + self.poll_interval <= u64::MAX,
                self.next_poll_time >= old(self).next_poll_time,
                old(self).next_poll_time >= now ==> self.next_poll_time == old(
                    self,
                ).next_poll_time,
                self.next_poll_time == old(self).next_poll_time || self.next_poll_time < now
                    + self.poll_interval,
                (self.next_poll_time - old(self).next_poll_time) % (
                self.poll_interval as int) == 0,
            decreases
                    (if now <= self.next_poll_time {
                        0int
                    } else {
                        now - self.next_poll_time
                    }),
        {
            let prev = self.next_poll_time;
            self.next_poll_time = self.next_poll_time + self.poll_interval;
            proof {
                let iv = self.poll_interval as int;
                let a = (prev - old(self).next_poll_time) as int;
                assert(a % iv == 0);
                assert((a + iv) % iv == 0) by {
                    vstd::arithmetic::div_mod::lemma_mod_add_multiples_vanish(a, iv);
                }
            }
        }
        proof {
            if old(self).next_poll_time < now && now <= old(self).next_poll_time
                + self.poll_interval {
                let iv = self.poll_interval as int;
                let x = self.next_poll_time - old(self).next_poll_time;
                assert(x % iv == 0);
                assert(0 < x < 2 * iv);
                let q = x / iv;
                vstd::arithmetic::div_mod::lemma_fundamental_div_mod(x, iv);
                assert(x == iv * q);
                assert(q == 1) by (nonlinear_arith)
                    requires
                        x == iv * q,
                        0 < x,
                        x < 2 * iv,
                        iv >= 1,
                ;
                assert(x == iv * 1);
                assert(x == iv);
            }
        }
    }
}

/// The number of ticks a schedule performs when every probe finishes within
/// one interval: one at the start, then one per interval while the duration
/// lasts.
pub open spec fn tick_count(next: int, end: int, interval: int) -> nat
    decreases (if end <= next { 0int } else { end - next }) when interval >= 1
{
    if end <= next {
        0
    } else {
        1 + tick_count(next + interval, end, interval)
    }
}

/// Poller duration law: over a duration of `d` with cadence `i`, the number
/// of ticks `n` satisfies `(n - 1) * i < d <= n * i` — at least one tick per
/// full interval of the duration, and never more than one extra; in
/// particular the unit always stops.
pub proof fn lemma_tick_count_bounds(start: int, d: int, i: int)
    requires
        i >= 1,
        d >= 1,
    ensures
        ({
            let n = tick_count(start, start + d, i) as int;
            (n - 1) * i < d <= n * i
        }),
    decreases d,
{
    if d <= i {
        assert(tick_count(start + i, start + d, i) == 0);
        assert(tick_count(start, start + d, i) == 1);
    } else {
        lemma_tick_count_bounds(start + i, d - i, i);
        assert(tick_count(start + i, start + d, i) == tick_count(start + i, start + i + (d - i), i));
        let m = tick_count(start + i, start + d, i) as int;
        assert((m - 1) * i < d - i <= m * i);
        let n = tick_count(start, start + d, i) as int;
        assert(n == m + 1);
        assert((n - 1) * i == m * i);
        assert((m - 1) * i + i == m * i) by (nonlinear_arith);
        assert((m + 1) * i == m * i + i) by (nonlinear_arith);
    }
}

} // verus!
