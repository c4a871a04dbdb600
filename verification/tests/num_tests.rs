use magpies::num::{fmt_i64, fmt_u64, is_finite_bits, total_order_key, SecondsNonZeroU64, SecondsU64, Timestamp};

#[test]
fn fmt_u64_groups_digits() {
    assert_eq!(fmt_u64(0), "0");
    assert_eq!(fmt_u64(7), "7");
    assert_eq!(fmt_u64(999), "999");
    assert_eq!(fmt_u64(1000), "1,000");
    assert_eq!(fmt_u64(1234567), "1,234,567");
    assert_eq!(fmt_u64(u64::MAX), "18,446,744,073,709,551,615");
}

#[test]
fn fmt_i64_adds_the_sign() {
    assert_eq!(fmt_i64(0), "0");
    assert_eq!(fmt_i64(-1), "-1");
    assert_eq!(fmt_i64(-1234), "-1,234");
    assert_eq!(fmt_i64(i64::MIN), "-9,223,372,036,854,775,808");
    assert_eq!(fmt_i64(i64::MAX), "9,223,372,036,854,775,807");
}

#[test]
fn seconds_round_trip() {
    assert_eq!(SecondsU64::new(42).get(), 42);
    assert_eq!(SecondsNonZeroU64::new(1).get(), 1);
    let t = Timestamp::new(3, 500_000_000);
    assert_eq!(t.secs, 3);
    assert_eq!(t.nanos, 500_000_000);
}

#[test]
fn finite_bits_follow_the_exponent() {
    assert!(is_finite_bits(0f64.to_bits()));
    assert!(is_finite_bits(1.5f64.to_bits()));
    assert!(is_finite_bits((-7.25f64).to_bits()));
    assert!(is_finite_bits(f64::MAX.to_bits()));
    assert!(!is_finite_bits(f64::INFINITY.to_bits()));
    assert!(!is_finite_bits(f64::NEG_INFINITY.to_bits()));
    assert!(!is_finite_bits(f64::NAN.to_bits()));
}

#[test]
fn total_order_key_orders_like_total_cmp() {
    let mut samples = vec![
        f64::NEG_INFINITY,
        -1.0e300,
        -2.5,
        -0.0,
        0.0,
        1.0e-300,
        2.5,
        1.0e300,
        f64::INFINITY,
    ];
    samples.sort_by(|a, b| a.total_cmp(b));
    for w in samples.windows(2) {
        let (a, b) = (w[0], w[1]);
        assert_eq!(
            total_order_key(a.to_bits()) < total_order_key(b.to_bits()),
            a.total_cmp(&b) == std::cmp::Ordering::Less
        );
    }
}
