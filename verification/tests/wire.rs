use foxtime::error::ProtocolError;
use foxtime::wire::{
    build_request, build_response, decode_u64_le, encode_u64_le, parse_response, request_token,
};

#[test]
fn u64_bytes_are_little_endian() {
    assert_eq!(encode_u64_le(0x0102_0304_0506_0708), [8, 7, 6, 5, 4, 3, 2, 1]);
    assert_eq!(decode_u64_le(&[8, 7, 6, 5, 4, 3, 2, 1]), 0x0102_0304_0506_0708);
    assert_eq!(encode_u64_le(0), [0; 8]);
    assert_eq!(encode_u64_le(u64::MAX), [0xff; 8]);
    assert_eq!(decode_u64_le(&[0xff; 8]), u64::MAX);
}

#[test]
fn binary64_bytes_round_trip_without_loss() {
    let value: f64 = 1700000000.123456;
    let bytes = encode_u64_le(value.to_bits());
    assert_eq!(bytes, value.to_le_bytes());
    let back = f64::from_bits(decode_u64_le(&bytes));
    assert_eq!(back.to_bits(), value.to_bits());
    assert_eq!(back, value);
}

#[test]
fn u64_codec_agrees_with_std_on_many_values() {
    let mut x: u64 = 0x9e37_79b9_7f4a_7c15;
    for _ in 0..1000 {
        x = x.wrapping_mul(6364136223846793005).wrapping_add(1442695040888963407);
        assert_eq!(encode_u64_le(x), x.to_le_bytes());
        assert_eq!(decode_u64_le(&x.to_le_bytes()), x);
    }
}

#[test]
fn token_is_the_first_eight_bytes() {
    assert_eq!(request_token(&[]), None);
    assert_eq!(request_token(&[1, 2, 3, 4, 5, 6, 7]), None);
    assert_eq!(request_token(&[1, 2, 3, 4, 5, 6, 7, 8]), Some([1, 2, 3, 4, 5, 6, 7, 8]));
    assert_eq!(
        request_token(&[1, 2, 3, 4, 5, 6, 7, 8, 9, 10]),
        Some([1, 2, 3, 4, 5, 6, 7, 8])
    );
}

#[test]
fn request_is_the_token() {
    assert_eq!(build_request(&[9, 8, 7, 6, 5, 4, 3, 2]), vec![9, 8, 7, 6, 5, 4, 3, 2]);
}

#[test]
fn response_is_token_then_timestamp() {
    let out = build_response(&[1, 2, 3, 4, 5, 6, 7, 8], 1000.0f64.to_bits());
    assert_eq!(
        out,
        vec![1, 2, 3, 4, 5, 6, 7, 8, 0, 0, 0, 0, 0, 0x40, 0x8f, 0x40]
    );
}

#[test]
fn short_response_is_rejected_whole() {
    for len in 0..16usize {
        let datagram = vec![0xabu8; len];
        assert_eq!(parse_response(&datagram), Err(ProtocolError::ShortDatagram { len }));
    }
}

#[test]
fn response_of_sixteen_bytes_is_read() {
    let mut datagram = vec![1u8, 2, 3, 4, 5, 6, 7, 8];
    datagram.extend_from_slice(&1700000000.123456f64.to_le_bytes());
    let response = parse_response(&datagram).unwrap();
    assert_eq!(response.token, [1, 2, 3, 4, 5, 6, 7, 8]);
    assert_eq!(response.timestamp_bits, 1700000000.123456f64.to_bits());
}

#[test]
fn trailing_bytes_of_a_response_are_ignored() {
    let mut datagram = build_response(&[7; 8], 0x0123_4567_89ab_cdef);
    datagram.extend_from_slice(&[0xee; 5]);
    let response = parse_response(&datagram).unwrap();
    assert_eq!(response.token, [7; 8]);
    assert_eq!(response.timestamp_bits, 0x0123_4567_89ab_cdef);
}
