use foxtime::clock::{ClockError, Timestamp};
use foxtime::error::ProtocolError;
use foxtime::estimator::{ServerReading, ServerTime};
use foxtime::http::{
    header_is_text, read_time_reply, time_reply, TimeReply, STATUS_OK, STATUS_SERVER_ERROR,
    TIME_HEADER, TIME_PATH,
};

fn ts(nanos: u128) -> Timestamp {
    Timestamp::from_nanos(nanos).unwrap()
}

fn at(nanos: u128) -> Result<ServerTime, ProtocolError> {
    Ok(ServerTime::Decimal(ServerReading::At { negative: false, nanos, exact: true }))
}

#[test]
fn names_of_the_interface() {
    assert_eq!(TIME_PATH, "/.well-known/time");
    assert_eq!(TIME_HEADER, "x-httpstime");
    assert_eq!(STATUS_OK, 200);
    assert_eq!(STATUS_SERVER_ERROR, 500);
}

#[test]
fn reading_is_served_with_status_200() {
    let reply = time_reply(Ok(ts(1_000_000_000_000)));
    assert_eq!(
        reply,
        TimeReply { status: 200, header: Some(b"1000.000000000".to_vec()) }
    );
}

#[test]
fn unreadable_clock_is_served_as_server_error_without_header() {
    let reply = time_reply(Err(ClockError::BeforeEpoch));
    assert_eq!(reply, TimeReply { status: 500, header: None });
}

#[test]
fn reply_is_read_back() {
    let reply = time_reply(Ok(ts(1_700_000_000_123_456_789)));
    let back = read_time_reply(reply.status, reply.header.as_deref());
    assert_eq!(back, at(1_700_000_000_123_456_789));
    let reply = time_reply(Err(ClockError::BeforeEpoch));
    let back = read_time_reply(reply.status, reply.header.as_deref());
    assert_eq!(back, Err(ProtocolError::Status { code: 500 }));
}

#[test]
fn shortest_float_text_is_read() {
    assert_eq!(
        read_time_reply(200, Some(b"1700000000.123456")),
        at(1_700_000_000_123_456_000)
    );
    assert_eq!(read_time_reply(204, Some(b"1000")), at(1_000_000_000_000));
    assert_eq!(read_time_reply(299, Some(b"1000")), at(1_000_000_000_000));
}

#[test]
fn status_outside_success_range_fails_first() {
    for code in [0u16, 100, 199, 300, 301, 404, 500, 503, 999, u16::MAX] {
        assert_eq!(
            read_time_reply(code, Some(b"1000.0")),
            Err(ProtocolError::Status { code })
        );
        assert_eq!(read_time_reply(code, None), Err(ProtocolError::Status { code }));
    }
}

#[test]
fn missing_header_fails() {
    assert_eq!(read_time_reply(200, None), Err(ProtocolError::MissingHeader));
}

#[test]
fn header_must_be_text() {
    assert_eq!(read_time_reply(200, Some(&[0xff, 0x31])), Err(ProtocolError::HeaderNotText));
    assert_eq!(read_time_reply(200, Some(&[0x31, 0x7f])), Err(ProtocolError::HeaderNotText));
    assert_eq!(read_time_reply(200, Some(&[0x31, 0x0a])), Err(ProtocolError::HeaderNotText));
    assert_eq!(read_time_reply(200, Some(&[0x00])), Err(ProtocolError::HeaderNotText));
    assert!(header_is_text(b"1000.5 \t~"));
    assert!(header_is_text(b""));
    assert!(!header_is_text(&[0x1f]));
    assert!(!header_is_text(&[0x80]));
}

#[test]
fn header_text_must_be_a_number() {
    for text in ["soon", "", "1000.0\t", " 1000", "1000 ", "1e", "e3", "--5", "1.2.3", "in", "nano"] {
        assert_eq!(
            read_time_reply(200, Some(text.as_bytes())),
            Err(ProtocolError::HeaderNotDecimal),
            "{:?}",
            text
        );
    }
}

#[test]
fn header_may_hold_a_sign_and_a_power_of_ten() {
    assert_eq!(read_time_reply(200, Some(b"1e3")), at(1_000_000_000_000));
    assert_eq!(read_time_reply(200, Some(b"+1000.5")), at(1_000_500_000_000));
    assert_eq!(read_time_reply(200, Some(b"1.7000000001234567E9")), at(1_700_000_000_123_456_700));
    assert_eq!(
        read_time_reply(200, Some(b"-5.0")),
        Ok(ServerTime::Decimal(ServerReading::At { negative: true, nanos: 5_000_000_000, exact: true }))
    );
    assert_eq!(
        read_time_reply(200, Some(b"18446744073709551616")),
        Ok(ServerTime::Decimal(ServerReading::Beyond { negative: false }))
    );
    assert_eq!(
        read_time_reply(200, Some(b"-inf")),
        Ok(ServerTime::Decimal(ServerReading::Beyond { negative: true }))
    );
    assert_eq!(
        read_time_reply(200, Some(b"NaN")),
        Ok(ServerTime::Decimal(ServerReading::NotANumber))
    );
}
