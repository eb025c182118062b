use foxtime::clock::{Timestamp, MAX_NANOS};
use foxtime::decimal::{format_decimal, parse_decimal, push_digits, push_fixed_digits, push_fixed_point};
use foxtime::error::ProtocolError;
use foxtime::estimator::ServerReading;

fn parsed(text: &str) -> Result<ServerReading, ProtocolError> {
    parse_decimal(text.as_bytes())
}

fn at(nanos: u128) -> Result<ServerReading, ProtocolError> {
    Ok(ServerReading::At { negative: false, nanos, exact: true })
}

fn over(nanos: u128) -> Result<ServerReading, ProtocolError> {
    Ok(ServerReading::At { negative: false, nanos, exact: false })
}

fn before(nanos: u128) -> Result<ServerReading, ProtocolError> {
    Ok(ServerReading::At { negative: true, nanos, exact: true })
}

fn beyond(negative: bool) -> Result<ServerReading, ProtocolError> {
    Ok(ServerReading::Beyond { negative })
}

fn written(nanos: u128) -> String {
    String::from_utf8(format_decimal(&Timestamp::from_nanos(nanos).unwrap())).unwrap()
}

#[test]
fn decimal_seconds_are_read() {
    assert_eq!(parsed("1700000000.123456"), at(1_700_000_000_123_456_000));
    assert_eq!(parsed("1000.000000"), at(1_000_000_000_000));
    assert_eq!(parsed("1000"), at(1_000_000_000_000));
    assert_eq!(parsed("0"), at(0));
    assert_eq!(parsed("0.000000001"), at(1));
    assert_eq!(parsed("007.5"), at(7_500_000_000));
}

#[test]
fn point_may_stand_first_or_last() {
    assert_eq!(parsed("1000."), at(1_000_000_000_000));
    assert_eq!(parsed(".5"), at(500_000_000));
    assert_eq!(parsed(".000000001"), at(1));
}

#[test]
fn digits_below_a_nanosecond_do_not_count() {
    assert_eq!(parsed("0.1234567899"), over(123_456_789));
    assert_eq!(parsed("0.1234567890"), at(123_456_789));
    assert_eq!(parsed("0.12345678900000000000000000000000000000000000"), at(123_456_789));
    assert_eq!(parsed("0.12345678900000000000000000000000000000000001"), over(123_456_789));
    assert_eq!(parsed("1.9999999999999999999999999"), over(1_999_999_999));
    assert_eq!(parsed("1700000000.1234560012817383"), over(1_700_000_000_123_456_001));
}

#[test]
fn a_sign_may_stand_first() {
    assert_eq!(parsed("+1"), at(1_000_000_000));
    assert_eq!(parsed("-1"), before(1_000_000_000));
    assert_eq!(parsed("-0"), before(0));
    assert_eq!(parsed("+0.0"), at(0));
    assert_eq!(parsed("-.5"), before(500_000_000));
    assert_eq!(parsed("-1700000000.123456"), before(1_700_000_000_123_456_000));
}

#[test]
fn a_power_of_ten_may_follow() {
    assert_eq!(parsed("1e3"), at(1_000_000_000_000));
    assert_eq!(parsed("1E3"), at(1_000_000_000_000));
    assert_eq!(parsed("1e+3"), at(1_000_000_000_000));
    assert_eq!(parsed("1.5e3"), at(1_500_000_000_000));
    assert_eq!(parsed("1e9"), at(1_000_000_000_000_000_000));
    assert_eq!(parsed("1e0"), at(1_000_000_000));
    assert_eq!(parsed("1e-0"), at(1_000_000_000));
    assert_eq!(parsed("15e-1"), at(1_500_000_000));
    assert_eq!(parsed("1e-9"), at(1));
    assert_eq!(parsed("1e-10"), over(0));
    assert_eq!(parsed("0e-10"), at(0));
    assert_eq!(parsed("10e-10"), at(1));
    assert_eq!(parsed("19e-10"), over(1));
    assert_eq!(parsed("123456789e-17"), over(1));
    assert_eq!(parsed("1.7000000001234567e9"), at(1_700_000_000_123_456_700));
    assert_eq!(parsed("-2.5E-3"), before(2_500_000));
    assert_eq!(parsed(".5e1"), at(5_000_000_000));
    assert_eq!(parsed("5.e1"), at(50_000_000_000));
    assert_eq!(parsed("0.000000000000000000000000000001e30"), at(1_000_000_000));
    assert_eq!(parsed("1000000000000000000000000000000e-30"), at(1_000_000_000));
    assert_eq!(parsed("1e0000000000000000000000000000000000000003"), at(1_000_000_000_000));
}

#[test]
fn powers_of_ten_of_any_size_are_read() {
    assert_eq!(parsed("1e400"), beyond(false));
    assert_eq!(parsed("-1e400"), beyond(true));
    assert_eq!(parsed("1e-400"), over(0));
    assert_eq!(parsed("0e-400"), at(0));
    assert_eq!(
        parsed("-1e-400"),
        Ok(ServerReading::At { negative: true, nanos: 0, exact: false })
    );
    assert_eq!(parsed("0e400"), at(0));
    assert_eq!(parsed("0.000e99999999999999999999999999999999999999999999"), at(0));
    assert_eq!(parsed("1e99999999999999999999999999999999999999999999"), beyond(false));
    assert_eq!(parsed("1e-99999999999999999999999999999999999999999999"), over(0));
    assert_eq!(parsed("0e-99999999999999999999999999999999999999999999"), at(0));
    assert_eq!(parsed("1e1000000000000000000000000000000"), beyond(false));
    assert_eq!(parsed("1e-1000000000000000000000000000001"), over(0));
    assert_eq!(parsed("1e19"), at(10_000_000_000_000_000_000_000_000_000));
    assert_eq!(parsed("1e20"), beyond(false));
}

#[test]
fn infinities_and_nan_are_read_in_either_case() {
    for text in ["inf", "INF", "Inf", "infinity", "Infinity", "INFINITY", "+inf", "+Infinity"] {
        assert_eq!(parsed(text), beyond(false), "{:?}", text);
    }
    for text in ["-inf", "-INF", "-infinity", "-iNfInItY"] {
        assert_eq!(parsed(text), beyond(true), "{:?}", text);
    }
    for text in ["nan", "NaN", "NAN", "+nan", "-nan", "-NaN"] {
        assert_eq!(parsed(text), Ok(ServerReading::NotANumber), "{:?}", text);
    }
}

#[test]
fn what_is_no_number_is_rejected() {
    for text in [
        "", ".", "..", "1..2", "1.2.3", "abc", " 1", "1 ", "1,5", "0x10", "1.2x", "x.5", "1\n",
        "+", "-", "+-1", "--1", "1e", "1e+", "1e-", "e", "e5", ".e5", "1e5.0", "1e5e5", "1ee5",
        "1e 5", "infinit", "infinityy", "inff", "in", "na", "nana", "n", "i", "1inf", "inf1",
        "1_000", "1f", "++inf", "+.", "-.e1", "1e+-1",
    ] {
        assert_eq!(parsed(text), Err(ProtocolError::HeaderNotDecimal), "{:?}", text);
    }
    assert_eq!(parse_decimal(&[0x31, 0xff]), Err(ProtocolError::HeaderNotDecimal));
    assert_eq!(parse_decimal(&[0x2f]), Err(ProtocolError::HeaderNotDecimal));
    assert_eq!(parse_decimal(&[0x3a]), Err(ProtocolError::HeaderNotDecimal));
    // only letters change case
    assert_eq!(parse_decimal(&[0x49, 0x4e, 0x46]), beyond(false));
    assert_eq!(parse_decimal(&[0x09, 0x0e, 0x06]), Err(ProtocolError::HeaderNotDecimal));
    assert_eq!(parse_decimal(&[0x29, 0x2e, 0x26]), Err(ProtocolError::HeaderNotDecimal));
}

#[test]
fn what_is_read_is_a_number_to_the_standard_parser() {
    for text in [
        "0", "1", "-1", "+1", "1.", ".1", "1e3", "1E3", "1e+3", "1e-3", "-1.5e-3", "inf", "-inf",
        "+infinity", "nan", "NaN", "1e400", "007", "", ".", "+", "e", "1e", "1e+", "e5", ".e5",
        "1e5.0", " 1", "1 ", "0x10", "1_0", "infinit", "in", "1f", "+-1", "1..2", "nan1",
    ] {
        assert_eq!(parsed(text).is_ok(), text.parse::<f64>().is_ok(), "{:?}", text);
    }
}

#[test]
fn seconds_within_reach_end_below_two_to_the_64() {
    assert_eq!(parsed("18446744073709551615"), at((u64::MAX as u128) * 1_000_000_000));
    assert_eq!(parsed("18446744073709551615.999999999"), at(MAX_NANOS));
    assert_eq!(parsed("18446744073709551615.9999999999"), over(MAX_NANOS));
    assert_eq!(parsed("18446744073709551616"), beyond(false));
    assert_eq!(parsed("-18446744073709551616.0"), beyond(true));
    assert_eq!(parsed("99999999999999999999999999999999"), beyond(false));
    assert_eq!(parsed("000000000000000000000000000001"), at(1_000_000_000));
    assert_eq!(parsed("1.8446744073709551615999999999e19"), at(MAX_NANOS));
    assert_eq!(parsed("1.8446744073709551616e19"), beyond(false));
    // no number first
    assert_eq!(parsed("99999999999999999999999999999999x"), Err(ProtocolError::HeaderNotDecimal));
    assert_eq!(parsed("99999999999999999999999999999999.x"), Err(ProtocolError::HeaderNotDecimal));
}

#[test]
fn readings_are_written_with_nine_places() {
    assert_eq!(written(0), "0.000000000");
    assert_eq!(written(1), "0.000000001");
    assert_eq!(written(1_000_000_000_000), "1000.000000000");
    assert_eq!(written(1_700_000_000_123_456_789), "1700000000.123456789");
    assert_eq!(written(999_999_999), "0.999999999");
    assert_eq!(written(MAX_NANOS), "18446744073709551615.999999999");
}

#[test]
fn written_readings_are_read_back() {
    let mut x: u64 = 0x2545_f491_4f6c_dd1d;
    for _ in 0..500 {
        x ^= x << 13;
        x ^= x >> 7;
        x ^= x << 17;
        let nanos = ((x as u128) << 30) % (MAX_NANOS + 1);
        assert_eq!(parsed(&written(nanos)), at(nanos));
    }
    assert_eq!(parsed(&written(MAX_NANOS)), at(MAX_NANOS));
    assert_eq!(parsed(&written(0)), at(0));
}

#[test]
fn digits_are_appended() {
    let mut out = vec![b'x'];
    push_digits(&mut out, 0);
    push_digits(&mut out, 1234567890);
    push_digits(&mut out, u128::MAX);
    assert_eq!(
        String::from_utf8(out).unwrap(),
        "x01234567890340282366920938463463374607431768211455"
    );
}

#[test]
fn fixed_width_digits_keep_the_last_digits() {
    let mut out = Vec::new();
    push_fixed_digits(&mut out, 42, 5);
    push_fixed_digits(&mut out, 123456, 3);
    push_fixed_digits(&mut out, 7, 0);
    assert_eq!(String::from_utf8(out).unwrap(), "00042456");
}

#[test]
fn fixed_point_numbers_are_written() {
    let mut out = Vec::new();
    push_fixed_point(&mut out, 10_000, 3);
    out.push(b' ');
    push_fixed_point(&mut out, 5, 3);
    out.push(b' ');
    push_fixed_point(&mut out, 1_000_000_000, 6);
    out.push(b' ');
    push_fixed_point(&mut out, 17, 0);
    assert_eq!(String::from_utf8(out).unwrap(), "10.000 0.005 1000.000000 17.");
}

fn agrees_with_the_standard_parser(text: &str) {
    let standard = text.parse::<f64>();
    let read = parsed(text);
    assert_eq!(read.is_ok(), standard.is_ok(), "{:?}", text);
    if let (Ok(reading), Ok(value)) = (read, standard) {
        match reading {
            ServerReading::NotANumber => assert!(value.is_nan(), "{:?}", text),
            ServerReading::Beyond { negative } => {
                assert!(value.abs() >= 18446744073709551616.0, "{:?}", text);
                assert_eq!(negative, value.is_sign_negative(), "{:?}", text);
            }
            ServerReading::Far { .. } => panic!("{:?}", text),
            ServerReading::At { negative, nanos, .. } => {
                assert_eq!(negative, value.is_sign_negative(), "{:?}", text);
                let seconds = nanos as f64 / 1e9;
                assert!(
                    (seconds - value.abs()).abs() <= 1e-9 + value.abs() * 1e-15,
                    "{:?}",
                    text
                );
            }
        }
    }
}

#[test]
fn every_short_text_is_read_as_the_standard_parser_reads_it() {
    let alphabet = ["0", "1", "9", ".", "e", "E", "+", "-", "i", "n", "f", "a"];
    let mut texts: Vec<String> = vec![String::new()];
    let mut from = 0;
    for _ in 0..5 {
        let upto = texts.len();
        for index in from..upto {
            for letter in alphabet {
                let text = format!("{}{}", texts[index], letter);
                texts.push(text);
            }
        }
        from = upto;
    }
    assert_eq!(texts.len(), 1 + 12 + 144 + 1728 + 20736 + 248832);
    for text in texts {
        agrees_with_the_standard_parser(&text);
    }
}

#[test]
fn longer_texts_are_read_as_the_standard_parser_reads_them() {
    for text in [
        "1700000000.123456",
        "1700000000.1234567",
        "-1700000000.1234567",
        "1.7000000001234567e9",
        "17000000001234567e-7",
        "0.00000000017000000001234567E19",
        "18446744073709551615",
        "18446744073709560000",
        "1e19",
        "1.8e19",
        "1.9e19",
        "1e308",
        "1e309",
        "-1e309",
        "5e-324",
        "1e-500",
        "infinity",
        "-Infinity",
        "+iNFINITY",
        "infinity1",
        "nanx",
        "0.1e",
        "0.1e+",
        "0.1e+1",
        "0.1e+1.",
        "1e1e1",
        "12345678901234567890123456789012345678901234567890e-40",
        "0.00000000000000000000000000000000000000000000000001e50",
    ] {
        agrees_with_the_standard_parser(text);
    }
}
