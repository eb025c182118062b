//! The library's edge to code that is not verified here: the system clock,
//! the standard library's strings, and the base64 decoder. What this file
//! states of them is believed, not proved; everything else in the library is
//! proved from it.

use vstd::prelude::*;
use base64::DecodeError;
use base64::Engine;
use std::time::Duration;
use std::time::SystemTime;
use std::time::SystemTimeError;

verus! {

#[verifier::external_type_specification]
#[verifier::external_body]
pub struct ExSystemTime(SystemTime);

#[verifier::external_type_specification]
#[verifier::external_body]
pub struct ExSystemTimeError(SystemTimeError);

#[verifier::external_type_specification]
#[verifier::external_body]
pub struct ExDecodeError(DecodeError);

/// `SystemTime::now`: the system clock's present reading. Nothing is claimed
/// of it.
pub assume_specification[ SystemTime::now ]() -> (t: SystemTime)
;

/// `SystemTime::duration_since` against `UNIX_EPOCH`: the time elapsed
/// since the epoch, or an error where the reading precedes it. Nothing is
/// claimed of which.
#[verifier::external_body]
pub(crate) fn since_epoch(reading: &SystemTime) -> (r: Result<Duration, SystemTimeError>) {
    reading.duration_since(std::time::UNIX_EPOCH)
}

/// `Duration::as_secs`: the whole seconds of a duration. Nothing is claimed
/// of the number.
pub assume_specification[ Duration::as_secs ](d: &Duration) -> (secs: u64)
;

/// `Duration::subsec_nanos`: the fractional part of a duration in
/// nanoseconds, which is always less than one billion.
pub assume_specification[ Duration::subsec_nanos ](d: &Duration) -> (nanos: u32)
    ensures
        nanos < 1_000_000_000,
;

/// `String::push`: appends one character to the end of the string.
pub assume_specification[ String::push ](s: &mut String, c: char)
    ensures
        final(s)@ == old(s)@.push(c),
;

/// What the standard base64 alphabet with padding makes of `text`: the
/// bytes it encodes, or nothing where it is no such encoding.
pub uninterp spec fn base64_standard(text: Seq<char>) -> Option<Seq<u8>>;

/// `Engine::decode` of `base64::engine::general_purpose::STANDARD`: decodes
/// `text` into a new vector, or says why it is not base64. The result
/// depends on the text alone; the contract gives it its name and claims
/// nothing else of it.
#[verifier::external_body]
pub(crate) fn decode_standard(text: &str) -> (r: Result<Vec<u8>, DecodeError>)
    ensures
        match r {
            Ok(bytes) => base64_standard(text@) == Some(bytes@),
            Err(_) => base64_standard(text@) is None,
        },
{
    base64::engine::general_purpose::STANDARD.decode(text)
}

} // verus!
