use foxtime::clock::Timestamp;
use foxtime::estimator::{ServerReading, ServerTime, SyncSample};
use foxtime::report::report;

fn ts(nanos: u128) -> Timestamp {
    Timestamp::from_nanos(nanos).unwrap()
}

fn at(nanos: u128) -> ServerTime {
    ServerTime::Decimal(ServerReading::At { negative: false, nanos, exact: true })
}

fn served(seconds: f64) -> Vec<String> {
    let sample = SyncSample::new(
        ts(1_000_000_000),
        ServerTime::Binary64(seconds.to_bits()),
        ts(1_000_000_000),
    )
    .unwrap();
    report("x", &sample)
}

#[test]
fn report_of_the_end_to_end_figures() {
    let sample = SyncSample::new(ts(999_995_000_000), at(1_000_000_000_000), ts(1_000_005_000_000))
        .unwrap();
    let lines = report("http://localhost:8123/.well-known/time", &sample);
    assert_eq!(
        lines,
        vec![
            "Server: http://localhost:8123/.well-known/time",
            "Server time: 1000.000000",
            "Local time:  1000.000000 (RTT-adjusted)",
            "Offset:      0.000 milliseconds",
            "RTT:         10.000 milliseconds",
        ]
    );
}

#[test]
fn report_of_a_symmetric_exchange() {
    let sample = SyncSample::new(ts(100_000_000_000), at(100_010_000_000), ts(100_020_000_000))
        .unwrap();
    let lines = report("x", &sample);
    assert_eq!(lines[1], "Server time: 100.010000");
    assert_eq!(lines[2], "Local time:  100.010000 (RTT-adjusted)");
    assert_eq!(lines[3], "Offset:      0.000 milliseconds");
    assert_eq!(lines[4], "RTT:         20.000 milliseconds");
}

#[test]
fn report_shows_the_sign_of_the_offset() {
    let behind = SyncSample::new(ts(1_000_000_000), at(1_002_500_000), ts(1_002_000_000)).unwrap();
    let lines = report("x", &behind);
    assert_eq!(lines[3], "Offset:      -1.500 milliseconds");
    assert_eq!(lines[4], "RTT:         2.000 milliseconds");
    let ahead = SyncSample::new(ts(1_002_000_000), at(1_000_000_000), ts(1_003_000_000)).unwrap();
    assert_eq!(report("x", &ahead)[3], "Offset:      2.500 milliseconds");
}

#[test]
fn report_rounds_to_the_microsecond() {
    // offset of -499 ns rounds to zero and shows no sign; -500 ns rounds away
    let sample = SyncSample::new(ts(1_000), at(1_499), ts(1_000)).unwrap();
    assert_eq!(report("x", &sample)[3], "Offset:      0.000 milliseconds");
    let sample = SyncSample::new(ts(1_000), at(1_500), ts(1_000)).unwrap();
    assert_eq!(report("x", &sample)[3], "Offset:      -0.001 milliseconds");
    let sample = SyncSample::new(ts(0), at(1_700_000_000_123_456_499), ts(499)).unwrap();
    let lines = report("x", &sample);
    assert_eq!(lines[1], "Server time: 1700000000.123456");
    assert_eq!(lines[2], "Local time:  0.000000 (RTT-adjusted)");
    assert_eq!(lines[4], "RTT:         0.000 milliseconds");
    let sample = SyncSample::new(ts(0), at(1_700_000_000_123_456_501), ts(500)).unwrap();
    let lines = report("x", &sample);
    assert_eq!(lines[1], "Server time: 1700000000.123457");
    assert_eq!(lines[4], "RTT:         0.001 milliseconds");
}

#[test]
fn report_names_the_target_as_given() {
    let sample = SyncSample::new(ts(1), at(1), ts(1)).unwrap();
    assert_eq!(report("", &sample)[0], "Server: ");
    assert_eq!(report("https://zeit.example/ä", &sample)[0], "Server: https://zeit.example/ä");
}

#[test]
fn report_of_a_server_time_out_of_a_datagram() {
    let sample = SyncSample::new(
        ts(999_995_000_000),
        ServerTime::Binary64(1000.0f64.to_bits()),
        ts(1_000_005_000_000),
    )
    .unwrap();
    assert_eq!(
        report("https://localhost:4433/.well-known/time", &sample),
        vec![
            "Server: https://localhost:4433/.well-known/time",
            "Server time: 1000.000000",
            "Local time:  1000.000000 (RTT-adjusted)",
            "Offset:      0.000 milliseconds",
            "RTT:         10.000 milliseconds",
        ]
    );
}

#[test]
fn server_time_is_shown_as_the_binary64_is_printed() {
    for seconds in [
        0.0,
        -0.0,
        1.0,
        -1.0,
        1000.0,
        1700000000.123456,
        1700000000.1234565,
        -1700000000.123456,
        0.1,
        0.0000005,
        0.0000015,
        0.5,
        0.0078125,
        0.0234375,
        1.0078125,
        1700000000.0078125,
        -0.0078125,
        -0.0234375,
        0.00390625,
        0.001953125,
        0.0009765625,
        255.9921875,
        0.00000049999999,
        -0.0000001,
        5e-324,
        123456789.987654321,
        18446744073709549568.0,
        f64::INFINITY,
        f64::NEG_INFINITY,
        f64::NAN,
    ] {
        assert_eq!(served(seconds)[1], format!("Server time: {:.6}", seconds), "{:e}", seconds);
    }
    let mut x: u64 = 0x9e37_79b9_7f4a_7c15;
    for _ in 0..2000 {
        x ^= x << 13;
        x ^= x >> 7;
        x ^= x << 17;
        let seconds = (x % 4_000_000_000_000_000_000) as f64 / 1e9;
        assert_eq!(served(seconds)[1], format!("Server time: {:.6}", seconds), "{:e}", seconds);
        assert_eq!(served(-seconds)[1], format!("Server time: {:.6}", -seconds), "{:e}", seconds);
    }
}

#[test]
fn infinite_server_time_is_shown_as_infinite() {
    assert_eq!(served(f64::INFINITY)[1], "Server time: inf");
    assert_eq!(served(f64::NEG_INFINITY)[1], "Server time: -inf");
    assert_eq!(served(f64::INFINITY)[3], "Offset:      -inf milliseconds");
    assert_eq!(served(f64::NEG_INFINITY)[3], "Offset:      inf milliseconds");
    assert_eq!(served(f64::NAN)[3], "Offset:      NaN milliseconds");
    assert_eq!(served(f64::NAN)[4], "RTT:         0.000 milliseconds");
    let sample = SyncSample::new(
        ts(0),
        ServerTime::Decimal(ServerReading::Beyond { negative: false }),
        ts(0),
    )
    .unwrap();
    assert_eq!(report("x", &sample)[1], "Server time: inf");
    assert_eq!(report("x", &sample)[3], "Offset:      -inf milliseconds");
}

#[test]
fn server_time_of_any_size_is_written_out() {
    assert_eq!(served(18446744073709551616.0)[1], "Server time: 18446744073709551616.000000");
    assert_eq!(served(-18446744073709551616.0)[1], "Server time: -18446744073709551616.000000");
    assert_eq!(served(1e20)[1], "Server time: 100000000000000000000.000000");
    for seconds in [1e19, 1e20, 1e23, 1e100, 1e300, -1e300, f64::MAX, f64::MIN, 2.0f64.powi(64)] {
        assert_eq!(served(seconds)[1], format!("Server time: {:.6}", seconds), "{:e}", seconds);
    }
}

#[test]
fn every_bit_pattern_is_shown_as_the_binary64_is_printed() {
    let mut x: u64 = 0x2545_f491_4f6c_dd1d;
    for _ in 0..3000 {
        x ^= x << 13;
        x ^= x >> 7;
        x ^= x << 17;
        let seconds = f64::from_bits(x);
        assert_eq!(served(seconds)[1], format!("Server time: {:.6}", seconds), "{:x}", x);
    }
    for field in 0..2048u64 {
        for fraction in [0u64, 1, 0x8_0000_0000_0000, 0xf_ffff_ffff_ffff] {
            let seconds = f64::from_bits(field << 52 | fraction);
            assert_eq!(
                served(seconds)[1],
                format!("Server time: {:.6}", seconds),
                "{} {:x}",
                field,
                fraction
            );
        }
    }
}

#[test]
fn offset_against_a_server_time_of_any_size_is_written_out() {
    // one second against 2^64 seconds
    assert_eq!(
        served(18446744073709551616.0)[3],
        "Offset:      -18446744073709551615000.000 milliseconds"
    );
    assert_eq!(
        served(-18446744073709551616.0)[3],
        "Offset:      18446744073709551617000.000 milliseconds"
    );
    // the epoch against any whole number of seconds
    for seconds in [1e20, 1e23, 1e300, f64::MAX] {
        let whole = format!("{:.0}", seconds);
        let behind = SyncSample::new(ts(0), ServerTime::Binary64(seconds.to_bits()), ts(0));
        assert_eq!(
            report("x", &behind.unwrap())[3],
            format!("Offset:      -{}000.000 milliseconds", whole)
        );
        let ahead = SyncSample::new(ts(0), ServerTime::Binary64((-seconds).to_bits()), ts(0));
        assert_eq!(
            report("x", &ahead.unwrap())[3],
            format!("Offset:      {}000.000 milliseconds", whole)
        );
    }
    // rounded to the microsecond, halves away from zero
    let show = |nanos: u128, seconds: f64| {
        let sample = SyncSample::new(ts(nanos), ServerTime::Binary64(seconds.to_bits()), ts(nanos));
        report("x", &sample.unwrap())[3].clone()
    };
    assert_eq!(
        show(1_000_000_499, 18446744073709551616.0),
        "Offset:      -18446744073709551615000.000 milliseconds"
    );
    assert_eq!(
        show(1_000_000_500, 18446744073709551616.0),
        "Offset:      -18446744073709551615000.000 milliseconds"
    );
    assert_eq!(
        show(1_000_000_501, 18446744073709551616.0),
        "Offset:      -18446744073709551614999.999 milliseconds"
    );
    assert_eq!(
        show(1_000_000_499, -18446744073709551616.0),
        "Offset:      18446744073709551617000.000 milliseconds"
    );
    assert_eq!(
        show(1_000_000_500, -18446744073709551616.0),
        "Offset:      18446744073709551617000.001 milliseconds"
    );
    assert_eq!(show(499, 18446744073709551616.0), "Offset:      -18446744073709551616000.000 milliseconds");
    assert_eq!(show(500, 18446744073709551616.0), "Offset:      -18446744073709551616000.000 milliseconds");
    assert_eq!(show(501, 18446744073709551616.0), "Offset:      -18446744073709551615999.999 milliseconds");
    // the last local reading against the first server time out of reach
    let top = Timestamp::new(u64::MAX, 999_999_999).unwrap();
    let sample = SyncSample::new(top, ServerTime::Binary64(2.0f64.powi(64).to_bits()), top);
    assert_eq!(report("x", &sample.unwrap())[3], "Offset:      0.000 milliseconds");
    let sample = SyncSample::new(
        Timestamp::new(u64::MAX, 999_000_000).unwrap(),
        ServerTime::Binary64(2.0f64.powi(64).to_bits()),
        Timestamp::new(u64::MAX, 999_000_000).unwrap(),
    );
    assert_eq!(report("x", &sample.unwrap())[3], "Offset:      -1.000 milliseconds");
}

#[test]
fn offset_against_a_server_time_before_the_epoch_is_shown() {
    assert_eq!(served(-1.5)[3], "Offset:      2500.000 milliseconds");
    assert_eq!(served(-1.5)[1], "Server time: -1.500000");
}

#[test]
fn a_half_microsecond_goes_to_the_even_one_where_it_is_exact() {
    // 1/128 s is 7812.5 microseconds to the last digit
    assert_eq!(served(0.0078125)[1], "Server time: 0.007812");
    assert_eq!(served(0.0234375)[1], "Server time: 0.023438");
    let show = |reading: ServerReading| {
        let sample = SyncSample::new(ts(0), ServerTime::Decimal(reading), ts(0)).unwrap();
        report("x", &sample)[1].clone()
    };
    assert_eq!(
        show(ServerReading::At { negative: false, nanos: 2_500, exact: true }),
        "Server time: 0.000002"
    );
    assert_eq!(
        show(ServerReading::At { negative: false, nanos: 2_500, exact: false }),
        "Server time: 0.000003"
    );
    assert_eq!(
        show(ServerReading::At { negative: true, nanos: 3_500, exact: true }),
        "Server time: -0.000004"
    );
    assert_eq!(
        show(ServerReading::At { negative: false, nanos: 2_499, exact: false }),
        "Server time: 0.000002"
    );
    assert_eq!(
        show(ServerReading::At { negative: false, nanos: 2_501, exact: true }),
        "Server time: 0.000003"
    );
}
