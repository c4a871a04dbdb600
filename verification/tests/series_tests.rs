use magpies::num::{FloatArith, SecondsNonZeroU64, Timestamp};
use magpies::record::{JsonValue, MetricValue, Record};
use magpies::series::{Num, RepresentativeValue, TimeSeries};

struct Ops;

impl FloatArith for Ops {
    fn add(&self, a: u64, b: u64) -> u64 {
        (f64::from_bits(a) + f64::from_bits(b)).to_bits()
    }

    fn sub(&self, a: u64, b: u64) -> u64 {
        (f64::from_bits(a) - f64::from_bits(b)).to_bits()
    }

    fn div(&self, a: u64, b: u64) -> u64 {
        (f64::from_bits(a) / f64::from_bits(b)).to_bits()
    }

    fn of_i64(&self, v: i64) -> u64 {
        (v as f64).to_bits()
    }

    fn of_u64(&self, v: u64) -> u64 {
        (v as f64).to_bits()
    }
}

fn record(target: &str, secs: u64, nanos: u32, value: JsonValue) -> Record {
    Record {
        target: String::from(target),
        timestamp: Timestamp::new(secs, nanos),
        value: JsonValue::Object(vec![(String::from("k"), value)]),
    }
}

fn rep_of(ts: &TimeSeries, bucket: u64, target: &str) -> RepresentativeValue {
    let seg = ts.segments.get(&bucket).unwrap();
    let tv = seg.target_segment_values.get(&String::from(target)).unwrap();
    let sv = tv.get(&String::from("k")).unwrap();
    match &sv.value {
        RepresentativeValue::Avg(n) => RepresentativeValue::Avg(*n),
        RepresentativeValue::Distinct(_) => panic!("expected an average"),
    }
}

#[test]
fn integer_samples_average_exactly() {
    // representative value law: {2, 4, 6} averages to exactly 4
    let mut ts = TimeSeries::new(SecondsNonZeroU64::new(1));
    ts.insert(&record("t", 0, 0, JsonValue::Int(2)));
    ts.insert(&record("t", 0, 1, JsonValue::Int(4)));
    ts.insert(&record("t", 0, 2, JsonValue::Int(6)));
    ts.sync_state(&Ops);
    match rep_of(&ts, 0, "t") {
        RepresentativeValue::Avg(Num::Int(v)) => assert_eq!(v, 4),
        _ => panic!("expected an integer average"),
    }
}

#[test]
fn mixed_kinds_fall_back_to_the_distinct_set() {
    // representative value law: {1, "x"} keeps both values as a set
    let mut ts = TimeSeries::new(SecondsNonZeroU64::new(1));
    ts.insert(&record("t", 0, 0, JsonValue::Int(1)));
    ts.insert(&record("t", 0, 1, JsonValue::Text(String::from("x"))));
    ts.sync_state(&Ops);
    let seg = ts.segments.get(&0u64).unwrap();
    let tv = seg.target_segment_values.get(&String::from("t")).unwrap();
    let sv = tv.get(&String::from("k")).unwrap();
    match &sv.value {
        RepresentativeValue::Distinct(m) => {
            assert_eq!(m.len(), 2);
            assert!(matches!(m.key_at(0), MetricValue::Integer(1)));
            match m.key_at(1) {
                MetricValue::Text(t) => assert_eq!(t, "x"),
                _ => panic!("expected text"),
            }
        },
        _ => panic!("expected a distinct set"),
    }
}

#[test]
fn duplicate_values_deduplicate_in_the_set() {
    let mut ts = TimeSeries::new(SecondsNonZeroU64::new(1));
    ts.insert(&record("t", 0, 0, JsonValue::Bool(true)));
    ts.insert(&record("t", 0, 1, JsonValue::Bool(true)));
    ts.insert(&record("t", 0, 2, JsonValue::Bool(false)));
    ts.sync_state(&Ops);
    let seg = ts.segments.get(&0u64).unwrap();
    let tv = seg.target_segment_values.get(&String::from("t")).unwrap();
    let sv = tv.get(&String::from("k")).unwrap();
    match &sv.value {
        RepresentativeValue::Distinct(m) => {
            assert_eq!(m.len(), 2);
            assert!(matches!(m.key_at(0), MetricValue::Bool(false)));
            assert!(matches!(m.key_at(1), MetricValue::Bool(true)));
        },
        _ => panic!("expected a distinct set"),
    }
}

#[test]
fn delta_is_a_per_second_rate() {
    // delta law: duration 10s, previous Avg=100, current Avg=150, delta 5
    let mut ts = TimeSeries::new(SecondsNonZeroU64::new(10));
    ts.insert(&record("t", 5, 0, JsonValue::Int(100)));
    ts.insert(&record("t", 15, 0, JsonValue::Int(150)));
    ts.sync_state(&Ops);
    let seg = ts.segments.get(&10u64).unwrap();
    let tv = seg.target_segment_values.get(&String::from("t")).unwrap();
    let sv = tv.get(&String::from("k")).unwrap();
    match sv.delta {
        Some(Num::Int(d)) => assert_eq!(d, 5),
        _ => panic!("expected an integer delta"),
    }
    // the first segment has no predecessor, so no delta
    let seg0 = ts.segments.get(&0u64).unwrap();
    let sv0 = seg0
        .target_segment_values
        .get(&String::from("t"))
        .unwrap()
        .get(&String::from("k"))
        .unwrap();
    assert!(sv0.delta.is_none());
}

#[test]
fn aggregation_sums_averages_across_targets() {
    // aggregation law: per-target averages 3 and 5 sum to 8
    let mut ts = TimeSeries::new(SecondsNonZeroU64::new(1));
    ts.insert(&record("a", 0, 0, JsonValue::Int(3)));
    ts.insert(&record("b", 0, 1, JsonValue::Int(5)));
    ts.sync_state(&Ops);
    let seg = ts.segments.get(&0u64).unwrap();
    let agg = seg.aggregated_values.get(&String::from("k")).unwrap();
    match agg.sum {
        Some(RepresentativeValue::Avg(Num::Int(v))) => assert_eq!(v, 8),
        _ => panic!("expected an integer aggregated sum"),
    }
}

#[test]
fn aggregation_refuses_to_mix_averages_and_sets() {
    // aggregation law: an average and a set for the same key give no sum
    let mut ts = TimeSeries::new(SecondsNonZeroU64::new(1));
    ts.insert(&record("a", 0, 0, JsonValue::Int(3)));
    ts.insert(&record("b", 0, 1, JsonValue::Text(String::from("a"))));
    ts.sync_state(&Ops);
    let seg = ts.segments.get(&0u64).unwrap();
    let agg = seg.aggregated_values.get(&String::from("k")).unwrap();
    assert!(agg.sum.is_none());
}

#[test]
fn three_records_make_two_segments() {
    // end-to-end scenario: 0.2, 0.9, 1.4 with one-second segments
    let mut ts = TimeSeries::new(SecondsNonZeroU64::new(1));
    ts.insert(&record("t", 0, 200_000_000, JsonValue::Int(1)));
    ts.insert(&record("t", 0, 900_000_000, JsonValue::Int(2)));
    ts.insert(&record("t", 1, 400_000_000, JsonValue::Int(3)));
    ts.sync_state(&Ops);
    assert_eq!(ts.segments.len(), 2);
    assert_eq!(ts.start_time.get(), 0);
    assert_eq!(ts.end_time.get(), 2);
    assert_eq!(ts.last_start_time().get(), 1);
    let first = ts.segments.get(&0u64).unwrap();
    let second = ts.segments.get(&1u64).unwrap();
    let raws0 = &first
        .target_segment_values
        .get(&String::from("t"))
        .unwrap()
        .get(&String::from("k"))
        .unwrap()
        .raw_values;
    let raws1 = &second
        .target_segment_values
        .get(&String::from("t"))
        .unwrap()
        .get(&String::from("k"))
        .unwrap()
        .raw_values;
    assert_eq!(raws0.len(), 2);
    assert_eq!(raws1.len(), 1);
}

#[test]
fn sync_state_is_idempotent() {
    // syncing twice with no intervening insert changes nothing observable
    let mut ts = TimeSeries::new(SecondsNonZeroU64::new(10));
    ts.insert(&record("t", 5, 0, JsonValue::Int(100)));
    ts.insert(&record("t", 15, 0, JsonValue::Int(150)));
    ts.insert(&record("t", 15, 1, JsonValue::Float(0.5f64.to_bits())));
    ts.sync_state(&Ops);
    let before: Vec<(u64, String)> = snapshot(&ts);
    ts.sync_state(&Ops);
    let after: Vec<(u64, String)> = snapshot(&ts);
    assert_eq!(before, after);
}

fn snapshot(ts: &TimeSeries) -> Vec<(u64, String)> {
    let mut out = Vec::new();
    let mut i = 0;
    while i < ts.segments.len() {
        let t = *ts.segments.key_at(i);
        let seg = ts.segments.val_at(i);
        let mut desc = String::new();
        let mut ti = 0;
        while ti < seg.target_segment_values.len() {
            let tv = seg.target_segment_values.val_at(ti);
            let mut ki = 0;
            while ki < tv.len() {
                let sv = tv.val_at(ki);
                desc.push_str(tv.key_at(ki));
                desc.push(':');
                desc.push_str(&describe(&sv.value));
                desc.push('/');
                desc.push_str(&format!("{:?}", sv.delta));
                desc.push(';');
                ki += 1;
            }
            ti += 1;
        }
        let mut ai = 0;
        while ai < seg.aggregated_values.len() {
            let av = seg.aggregated_values.val_at(ai);
            desc.push_str("agg=");
            match &av.sum {
                Some(rv) => desc.push_str(&describe(rv)),
                None => desc.push_str("none"),
            }
            desc.push_str(&format!("/{:?};", av.delta));
            ai += 1;
        }
        out.push((t, desc));
        i += 1;
    }
    out
}

fn describe(rv: &RepresentativeValue) -> String {
    match rv {
        RepresentativeValue::Avg(Num::Int(v)) => format!("int({v})"),
        RepresentativeValue::Avg(Num::Float(b)) => format!("float({b})"),
        RepresentativeValue::Distinct(m) => format!("set({})", m.len()),
    }
}

#[test]
fn floating_samples_average_through_the_embedder() {
    let mut ts = TimeSeries::new(SecondsNonZeroU64::new(1));
    ts.insert(&record("t", 0, 0, JsonValue::Float(1.0f64.to_bits())));
    ts.insert(&record("t", 0, 1, JsonValue::Int(2)));
    ts.sync_state(&Ops);
    match rep_of(&ts, 0, "t") {
        RepresentativeValue::Avg(Num::Float(bits)) => {
            assert_eq!(f64::from_bits(bits), 1.5);
        },
        _ => panic!("expected a floating average"),
    }
}

#[test]
fn out_of_order_arrival_widens_the_range_monotonically() {
    let mut ts = TimeSeries::new(SecondsNonZeroU64::new(1));
    ts.insert(&record("t", 9, 0, JsonValue::Int(1)));
    assert_eq!(ts.start_time.get(), 9);
    assert_eq!(ts.end_time.get(), 10);
    ts.insert(&record("t", 2, 0, JsonValue::Int(1)));
    assert_eq!(ts.start_time.get(), 2);
    assert_eq!(ts.end_time.get(), 10);
}

#[test]
fn a_sample_on_a_boundary_belongs_to_the_segment_starting_there() {
    let mut ts = TimeSeries::new(SecondsNonZeroU64::new(10));
    ts.insert(&record("t", 10, 0, JsonValue::Int(1)));
    assert_eq!(ts.segments.len(), 1);
    assert_eq!(*ts.segments.key_at(0), 10);
}

#[test]
fn a_key_missing_under_some_targets_still_aggregates() {
    let mut ts = TimeSeries::new(SecondsNonZeroU64::new(1));
    ts.insert(&record("a", 0, 0, JsonValue::Int(3)));
    // target "b" reports a different document shape without the key
    ts.insert(&Record {
        target: String::from("b"),
        timestamp: Timestamp::new(0, 1),
        value: JsonValue::Object(vec![(String::from("other"), JsonValue::Int(9))]),
    });
    ts.sync_state(&Ops);
    let seg = ts.segments.get(&0u64).unwrap();
    // both keys get an aggregated entry; each sums over the targets holding it
    let k = seg.aggregated_values.get(&String::from("k")).unwrap();
    match k.sum {
        Some(RepresentativeValue::Avg(Num::Int(v))) => assert_eq!(v, 3),
        _ => panic!("expected an integer aggregated sum"),
    }
    let other = seg.aggregated_values.get(&String::from("other")).unwrap();
    match other.sum {
        Some(RepresentativeValue::Avg(Num::Int(v))) => assert_eq!(v, 9),
        _ => panic!("expected an integer aggregated sum"),
    }
}
