use foxtime::clock::{now, reading_of, respond, ClockError, Timestamp, MAX_NANOS, NANOS_PER_SEC};

#[test]
fn timestamp_from_parts() {
    let t = Timestamp::new(1_700_000_000, 123_456_789).unwrap();
    assert_eq!(t.as_nanos(), 1_700_000_000_123_456_789);
    assert_eq!(t.secs(), 1_700_000_000);
    assert_eq!(t.subsec_nanos(), 123_456_789);
    assert_eq!(Timestamp::new(0, 0).unwrap().as_nanos(), 0);
}

#[test]
fn subsecond_part_must_be_a_fraction() {
    assert!(Timestamp::new(5, 999_999_999).is_some());
    assert_eq!(Timestamp::new(5, 1_000_000_000), None);
    assert_eq!(Timestamp::new(5, u32::MAX), None);
}

#[test]
fn timestamp_range() {
    assert_eq!(MAX_NANOS, (u64::MAX as u128) * NANOS_PER_SEC + 999_999_999);
    let top = Timestamp::from_nanos(MAX_NANOS).unwrap();
    assert_eq!(top.secs(), u64::MAX);
    assert_eq!(top.subsec_nanos(), 999_999_999);
    assert_eq!(Timestamp::new(u64::MAX, 999_999_999), Some(top));
    assert_eq!(Timestamp::from_nanos(MAX_NANOS + 1), None);
    assert_eq!(Timestamp::from_nanos(u128::MAX), None);
}

#[test]
fn clock_reads_a_time_after_the_epoch() {
    let first = now().unwrap();
    let second = now().unwrap();
    // later than the first of January 2020, and not running backward by much
    assert!(first.secs() > 1_577_836_800);
    assert!(second.as_nanos() + 1_000_000_000 > first.as_nanos());
    assert!(first.subsec_nanos() < 1_000_000_000);
}

#[test]
fn responder_reads_the_clock_anew() {
    let reading = respond().unwrap();
    let std_now = std::time::SystemTime::now()
        .duration_since(std::time::UNIX_EPOCH)
        .unwrap()
        .as_nanos();
    assert!(reading.as_nanos() <= std_now);
    assert!(std_now - reading.as_nanos() < 5_000_000_000);
}

#[test]
fn elapsed_time_becomes_the_reading() {
    assert_eq!(reading_of(Some((1000, 5))), Ok(Timestamp::from_nanos(1_000_000_000_005).unwrap()));
    assert_eq!(reading_of(Some((0, 0))), Ok(Timestamp::from_nanos(0).unwrap()));
    assert_eq!(
        reading_of(Some((u64::MAX, 999_999_999))),
        Ok(Timestamp::from_nanos(MAX_NANOS).unwrap())
    );
    assert_eq!(reading_of(None), Err(ClockError::BeforeEpoch));
}
