//! The datagram wire format: an 8-byte echo token, followed in a response by
//! the server's reading as the 8 bytes of a little-endian binary64.

use vstd::prelude::*;
use crate::error::ProtocolError;

verus! {

/// Length of the echo token that opens every datagram.
pub const TOKEN_LEN: usize = 8;

/// Minimum length of a valid response: token and timestamp field.
pub const RESPONSE_LEN: usize = 16;

/// The number whose little-endian base-256 digits are `bytes`.
pub open spec fn le_value(bytes: Seq<u8>) -> nat
    decreases bytes.len(),
{
    if bytes.len() == 0 {
        0
    } else {
        bytes[0] as nat + 256 * le_value(bytes.drop_first())
    }
}

/// The first `width` little-endian base-256 digits of `value`.
pub open spec fn le_digits(value: nat, width: nat) -> Seq<u8>
    decreases width,
{
    if width == 0 {
        Seq::empty()
    } else {
        seq![(value % 256) as u8] + le_digits(value / 256, (width - 1) as nat)
    }
}

/// Reading back the digits of a value gives the value, as far as the width
/// holds it.
pub proof fn lemma_value_of_digits(value: nat, width: nat)
    ensures
        le_digits(value, width).len() == width,
        le_value(le_digits(value, width)) == value % vstd::arithmetic::power::pow(256, width) as nat,
    decreases width,
{
    vstd::arithmetic::power::lemma_pow0(256);
    if width == 0 {
    } else {
        let rest = le_digits(value / 256, (width - 1) as nat);
        let all = le_digits(value, width);
        lemma_value_of_digits(value / 256, (width - 1) as nat);
        assert(all.drop_first() =~= rest);
        assert(all[0] == (value % 256) as u8);
        let p = vstd::arithmetic::power::pow(256, (width - 1) as nat);
        vstd::arithmetic::power::lemma_pow_positive(256, (width - 1) as nat);
        vstd::arithmetic::power::lemma_pow1(256);
        assert(vstd::arithmetic::power::pow(256, width) == 256 * p) by {
            vstd::arithmetic::power::lemma_pow_adds(256, 1, (width - 1) as nat);
        }
        // value % (256 * p) == value % 256 + 256 * ((value / 256) % p)
        vstd::arithmetic::div_mod::lemma_breakdown(value as int, 256, p);
    }
}

/// The digits of a sequence's value, at its own length, are the sequence.
pub proof fn lemma_digits_of_value(bytes: Seq<u8>)
    ensures
        le_digits(le_value(bytes), bytes.len()) == bytes,
    decreases bytes.len(),
{
    if bytes.len() == 0 {
        assert(le_digits(le_value(bytes), 0) =~= bytes);
    } else {
        let rest = bytes.drop_first();
        lemma_digits_of_value(rest);
        let v = le_value(bytes);
        assert(v % 256 == bytes[0] as nat && v / 256 == le_value(rest)) by {
            vstd::arithmetic::div_mod::lemma_fundamental_div_mod_converse(
                v as int,
                256,
                le_value(rest) as int,
                bytes[0] as int,
            );
        }
        assert(le_digits(v, bytes.len()) =~= bytes);
    }
}

/// Eight digits hold every value below 2^64.
pub proof fn lemma_eight_digits_bound(bytes: Seq<u8>)
    requires
        bytes.len() == 8,
    ensures
        le_value(bytes) <= u64::MAX,
{
    reveal_with_fuel(le_value, 9);
    assert(bytes.drop_first().drop_first().drop_first().drop_first().drop_first().drop_first()
        .drop_first().drop_first().len() == 0);
}

/// Writes `value` as its eight little-endian bytes.
pub fn encode_u64_le(value: u64) -> (bytes: [u8; 8])
    ensures
        bytes@ == le_digits(value as nat, 8),
{
    let v1: u64 = value / 256;
    let v2: u64 = v1 / 256;
    let v3: u64 = v2 / 256;
    let v4: u64 = v3 / 256;
    let v5: u64 = v4 / 256;
    let v6: u64 = v5 / 256;
    let v7: u64 = v6 / 256;
    let bytes: [u8; 8] = [
        (value % 256) as u8,
        (v1 % 256) as u8,
        (v2 % 256) as u8,
        (v3 % 256) as u8,
        (v4 % 256) as u8,
        (v5 % 256) as u8,
        (v6 % 256) as u8,
        (v7 % 256) as u8,
    ];
    proof {
        reveal_with_fuel(le_digits, 9);
        assert(bytes@ =~= le_digits(value as nat, 8));
    }
    bytes
}

/// Reads eight little-endian bytes back into the value they hold.
pub fn decode_u64_le(bytes: &[u8; 8]) -> (value: u64)
    ensures
        value as nat == le_value(bytes@),
{
    proof {
        reveal_with_fuel(le_value, 9);
        lemma_eight_digits_bound(bytes@);
    }
    let ghost s = bytes@;
    let ghost s1 = s.drop_first();
    let ghost s2 = s1.drop_first();
    let ghost s3 = s2.drop_first();
    let ghost s4 = s3.drop_first();
    let ghost s5 = s4.drop_first();
    let ghost s6 = s5.drop_first();
    let ghost s7 = s6.drop_first();
    let mut value: u64 = bytes[7] as u64;
    assert(value == le_value(s7)) by {
        assert(s7.drop_first().len() == 0);
    }
    value = value * 256 + bytes[6] as u64;
    assert(value == le_value(s6));
    value = value * 256 + bytes[5] as u64;
    assert(value == le_value(s5));
    value = value * 256 + bytes[4] as u64;
    assert(value == le_value(s4));
    value = value * 256 + bytes[3] as u64;
    assert(value == le_value(s3));
    value = value * 256 + bytes[2] as u64;
    assert(value == le_value(s2));
    value = value * 256 + bytes[1] as u64;
    assert(value == le_value(s1));
    value = value * 256 + bytes[0] as u64;
    value
}

/// Encoding and then decoding returns the value unchanged: the byte form
/// loses nothing.
pub proof fn lemma_u64_round_trip(value: u64)
    ensures
        le_value(le_digits(value as nat, 8)) == value as nat,
{
    lemma_value_of_digits(value as nat, 8);
    assert(vstd::arithmetic::power::pow(256, 8) == 0x1_0000_0000_0000_0000int) by {
        reveal_with_fuel(vstd::arithmetic::power::pow, 9);
    }
    vstd::arithmetic::div_mod::lemma_small_mod(value as nat, 0x1_0000_0000_0000_0000nat);
}

/// The bytes of a response: the echoed token, then the timestamp field.
pub open spec fn response_bytes(token: Seq<u8>, timestamp_bits: u64) -> Seq<u8> {
    token + le_digits(timestamp_bits as nat, 8)
}

/// What a response datagram carries.
#[derive(Clone, Copy, Debug, PartialEq, Eq)]
pub struct Response {
    /// The token that the server echoed.
    pub token: [u8; 8],
    /// The server's reading, as the bit pattern of a binary64 of seconds.
    pub timestamp_bits: u64,
}

fn first_eight(bytes: &[u8], start: usize) -> (out: [u8; 8])
    requires
        start + 8 <= bytes@.len(),
    ensures
        out@ == bytes@.subrange(start as int, start + 8),
{
    let out: [u8; 8] = [
        bytes[start],
        bytes[start + 1],
        bytes[start + 2],
        bytes[start + 3],
        bytes[start + 4],
        bytes[start + 5],
        bytes[start + 6],
        bytes[start + 7],
    ];
    assert(out@ =~= bytes@.subrange(start as int, start + 8));
    out
}

/// The echo token of an inbound datagram: its first eight bytes, copied and
/// never interpreted. A datagram of fewer than eight bytes has none.
pub fn request_token(datagram: &[u8]) -> (token: Option<[u8; 8]>)
    ensures
        token is Some <==> datagram@.len() >= TOKEN_LEN,
        token matches Some(t) ==> t@ == datagram@.subrange(0, 8),
{
    if datagram.len() < TOKEN_LEN {
        None
    } else {
        Some(first_eight(datagram, 0))
    }
}

/// The request datagram that carries `token`: the token and nothing else.
pub fn build_request(token: &[u8; 8]) -> (out: Vec<u8>)
    ensures
        out@ == token@,
{
    let mut out: Vec<u8> = Vec::with_capacity(TOKEN_LEN);
    let mut i: usize = 0;
    while i < 8
        invariant
            i <= 8,
            out@ == token@.subrange(0, i as int),
        decreases 8 - i,
    {
        out.push(token[i]);
        i = i + 1;
        assert(out@ =~= token@.subrange(0, i as int));
    }
    assert(token@.subrange(0, 8) =~= token@);
    out
}

/// The response datagram for `token` and a server reading of
/// `timestamp_bits`: sixteen bytes, the token first.
pub fn build_response(token: &[u8; 8], timestamp_bits: u64) -> (out: Vec<u8>)
    ensures
        out@ == response_bytes(token@, timestamp_bits),
        out@.len() == RESPONSE_LEN,
{
    let mut out = build_request(token);
    let field = encode_u64_le(timestamp_bits);
    let mut i: usize = 0;
    while i < 8
        invariant
            i <= 8,
            out@ == token@ + field@.subrange(0, i as int),
        decreases 8 - i,
    {
        out.push(field[i]);
        i = i + 1;
        assert(out@ =~= token@ + field@.subrange(0, i as int));
    }
    assert(field@.subrange(0, 8) =~= field@);
    out
}

/// Reads a response datagram. One of fewer than sixteen bytes is rejected
/// whole, with its length; of a longer one the bytes past the sixteenth are
/// ignored.
pub fn parse_response(datagram: &[u8]) -> (r: Result<Response, ProtocolError>)
    ensures
        r is Err <==> datagram@.len() < RESPONSE_LEN,
        r matches Err(e) ==> e == (ProtocolError::ShortDatagram { len: datagram@.len() as usize }),
        r matches Ok(response) ==> {
            &&& response.token@ == datagram@.subrange(0, 8)
            &&& response.timestamp_bits as nat == le_value(datagram@.subrange(8, 16))
        },
{
    if datagram.len() < RESPONSE_LEN {
        Err(ProtocolError::ShortDatagram { len: datagram.len() })
    } else {
        let token = first_eight(datagram, 0);
        let field = first_eight(datagram, 8);
        Ok(Response { token, timestamp_bits: decode_u64_le(&field) })
    }
}

/// A response that was built is read back as it was built, whatever bytes
/// follow it.
pub proof fn lemma_response_round_trip(token: Seq<u8>, timestamp_bits: u64, trailing: Seq<u8>)
    requires
        token.len() == 8,
    ensures
        (response_bytes(token, timestamp_bits) + trailing).len() >= 16,
        (response_bytes(token, timestamp_bits) + trailing).subrange(0, 8) == token,
        le_value((response_bytes(token, timestamp_bits) + trailing).subrange(8, 16))
            == timestamp_bits as nat,
{
    let all = response_bytes(token, timestamp_bits) + trailing;
    let field = le_digits(timestamp_bits as nat, 8);
    lemma_value_of_digits(timestamp_bits as nat, 8);
    lemma_u64_round_trip(timestamp_bits);
    assert(all.subrange(0, 8) =~= token);
    assert(all.subrange(8, 16) =~= field);
}

} // verus!
