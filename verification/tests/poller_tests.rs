use magpies::num::Timestamp;
use magpies::poller::{record_from_probe, PollSchedule, ProbeOutcome};
use magpies::record::{JsonValue, MetricValue};

#[test]
fn only_a_successful_probe_becomes_a_record() {
    let target = String::from("t");
    let at = Timestamp::new(1, 0);
    assert!(record_from_probe(&target, at, ProbeOutcome::LaunchFailure).is_none());
    assert!(record_from_probe(&target, at, ProbeOutcome::AbnormalExit).is_none());
    assert!(record_from_probe(&target, at, ProbeOutcome::NotJson).is_none());
    let rec = record_from_probe(&target, at, ProbeOutcome::Value(JsonValue::Int(3))).unwrap();
    assert_eq!(rec.target, "t");
    assert_eq!(rec.timestamp.secs, 1);
    let flat = rec.flatten();
    assert!(matches!(flat.metrics.val_at(0), MetricValue::Integer(3)));
}

#[test]
fn missed_ticks_are_skipped_not_queued() {
    let sec: u64 = 1_000_000_000;
    let mut s = PollSchedule::new(0, sec, 100 * sec);
    // a slow probe finishes three and a half intervals late
    s.advance(3 * sec + sec / 2);
    assert_eq!(s.next_poll_time, 4 * sec);
    // a fast probe moves a single interval
    s.advance(4 * sec + 1);
    assert_eq!(s.next_poll_time, 5 * sec);
    // time before the schedule does not move it
    s.advance(2 * sec);
    assert_eq!(s.next_poll_time, 5 * sec);
}

#[test]
fn poll_duration_law() {
    // interval 1s, duration 3s, an instantaneous probe: exactly 3 ticks
    let sec: u64 = 1_000_000_000;
    let mut s = PollSchedule::new(0, sec, 3 * sec);
    let mut ticks: u32 = 0;
    while !s.finished() {
        ticks += 1;
        // the probe returns one nanosecond after its tick began
        let now = s.next_poll_time + 1;
        s.advance(now);
    }
    assert_eq!(ticks, 3);
}

#[test]
fn a_duration_that_is_no_multiple_of_the_interval() {
    let sec: u64 = 1_000_000_000;
    let mut s = PollSchedule::new(0, 2 * sec, 5 * sec);
    let mut ticks: u32 = 0;
    while !s.finished() {
        ticks += 1;
        let now = s.next_poll_time + 1;
        s.advance(now);
    }
    // ticks at 0s, 2s and 4s
    assert_eq!(ticks, 3);
}
