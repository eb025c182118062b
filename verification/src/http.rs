//! The single-shot transport's side of the protocol: the response that the
//! time responder's reading becomes, and the reading that a client takes
//! out of a response.

use vstd::prelude::*;
use crate::clock::ClockError;
use crate::clock::Timestamp;
use crate::clock::MAX_NANOS;
use crate::decimal::decimal_text;
use crate::decimal::format_decimal;
use crate::decimal::parse_decimal;
use crate::decimal::text_reading;
use crate::error::ProtocolError;
use crate::estimator::ServerReading;
use crate::estimator::ServerTime;

verus! {

/// The path under which the time is served.
pub const TIME_PATH: &'static str = "/.well-known/time";

/// The response header that carries the server's reading.
pub const TIME_HEADER: &'static str = "x-httpstime";

/// The status of a response that carries a reading.
pub const STATUS_OK: u16 = 200;

/// The status of a response to a request that found the clock unreadable.
pub const STATUS_SERVER_ERROR: u16 = 500;

/// What the server answers to a request for the time.
#[derive(Debug, PartialEq, Eq)]
pub struct TimeReply {
    /// The status code.
    pub status: u16,
    /// The value of the timestamp header; `None` where the response has no
    /// such header.
    pub header: Option<Vec<u8>>,
}

/// Whether a status lies in the success range, 200 to 299.
pub open spec fn is_success(status: u16) -> bool {
    200 <= status < 300
}

/// Whether a byte may stand in a header value that is text: visible ASCII,
/// the space and the tab.
pub open spec fn is_text_byte(b: u8) -> bool {
    32 <= b < 127 || b == 9
}

/// Whether a header value is text.
pub open spec fn is_text(value: Seq<u8>) -> bool {
    forall|i: int| 0 <= i < value.len() ==> is_text_byte(#[trigger] value[i])
}

/// What a client makes of a response with this status and this value of the
/// timestamp header. The status is looked at first, then whether the header
/// is there, whether it is text, and whether the text is a number in
/// decimal notation.
pub open spec fn reading_in_reply(status: u16, header: Option<Seq<u8>>) -> Result<
    ServerTime,
    ProtocolError,
> {
    if !is_success(status) {
        Err(ProtocolError::Status { code: status })
    } else {
        match header {
            None => Err(ProtocolError::MissingHeader),
            Some(value) => if !is_text(value) {
                Err(ProtocolError::HeaderNotText)
            } else {
                match text_reading(value) {
                    Some(reading) => Ok(ServerTime::Decimal(reading)),
                    None => Err(ProtocolError::HeaderNotDecimal),
                }
            },
        }
    }
}

/// The bytes of the header value at hand, if there is one.
pub open spec fn value_at_hand(header: Option<&[u8]>) -> Option<Seq<u8>> {
    match header {
        Some(value) => Some(value@),
        None => None,
    }
}

/// The time responder's answer on the single-shot transport: status 200
/// with the reading in the timestamp header, or, where the clock could not
/// be read, status 500 without that header.
pub fn time_reply(reading: Result<Timestamp, ClockError>) -> (reply: TimeReply)
    ensures
        match reading {
            Ok(t) => {
                &&& reply.status == STATUS_OK
                &&& reply.header is Some
                &&& reply.header->0@ == decimal_text(t.nanos())
            },
            Err(_) => reply.status == STATUS_SERVER_ERROR && reply.header is None,
        },
{
    match reading {
        Ok(t) => TimeReply { status: STATUS_OK, header: Some(format_decimal(&t)) },
        Err(_) => TimeReply { status: STATUS_SERVER_ERROR, header: None },
    }
}

/// Whether every byte of a header value is text.
pub fn header_is_text(value: &[u8]) -> (text: bool)
    ensures
        text == is_text(value@),
{
    let mut i: usize = 0;
    while i < value.len()
        invariant
            i <= value@.len(),
            forall|j: int| 0 <= j < i ==> is_text_byte(#[trigger] value@[j]),
        decreases value@.len() - i,
    {
        let b: u8 = value[i];
        if !((32 <= b && b < 127) || b == 9) {
            return false;
        }
        i = i + 1;
    }
    true
}

/// Takes the server's time out of a response, given its status and the
/// value of its timestamp header, if it has one.
pub fn read_time_reply(status: u16, header: Option<&[u8]>) -> (r: Result<ServerTime, ProtocolError>)
    ensures
        r == reading_in_reply(status, value_at_hand(header)),
{
    if status < 200 || status >= 300 {
        return Err(ProtocolError::Status { code: status });
    }
    match header {
        None => Err(ProtocolError::MissingHeader),
        Some(value) => {
            if !header_is_text(value) {
                Err(ProtocolError::HeaderNotText)
            } else {
                match parse_decimal(value) {
                    Ok(reading) => Ok(ServerTime::Decimal(reading)),
                    Err(e) => Err(e),
                }
            }
        },
    }
}

/// What the responder writes for a reading, a client reads back as that
/// reading; and the responder's answer for an unreadable clock is, to a
/// client, a response with a failing status.
pub proof fn lemma_reply_round_trip(nanos: nat)
    requires
        nanos <= MAX_NANOS,
    ensures
        reading_in_reply(STATUS_OK, Some(decimal_text(nanos))) == Ok::<ServerTime, ProtocolError>(
            ServerTime::Decimal(
                ServerReading::At { negative: false, nanos: nanos as u128, exact: true },
            ),
        ),
        reading_in_reply(STATUS_SERVER_ERROR, None) == Err::<ServerTime, ProtocolError>(
            ProtocolError::Status { code: STATUS_SERVER_ERROR },
        ),
{
    let text = decimal_text(nanos);
    crate::decimal::lemma_decimal_round_trip(nanos);
    crate::decimal::lemma_decimal_bytes(nanos);
    assert forall|i: int| 0 <= i < text.len() implies is_text_byte(#[trigger] text[i]) by {
        assert(crate::decimal::is_decimal_byte(text[i]));
    }
}

} // verus!
