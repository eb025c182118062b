//! What can go wrong, by the component that reports it.

use vstd::prelude::*;
use crate::clock::ClockError;

verus! {

/// The step of an exchange at which the transport failed.
#[derive(Clone, Copy, Debug, PartialEq, Eq, Structural)]
pub enum Phase {
    /// Reaching the server, the handshake included.
    Connect,
    /// Sending the timed request.
    Send,
    /// Waiting for the response.
    Receive,
}

/// A peer that did not keep to the protocol.
#[derive(Clone, Copy, Debug, PartialEq, Eq, Structural)]
pub enum ProtocolError {
    /// A response datagram of `len` bytes, too short to hold a token and a
    /// timestamp.
    ShortDatagram { len: usize },
    /// A response with a status outside the success range.
    Status { code: u16 },
    /// A response without the timestamp header.
    MissingHeader,
    /// A timestamp header that is not text.
    HeaderNotText,
    /// A timestamp header that is text but no number in decimal notation.
    HeaderNotDecimal,
}

/// A setting that was rejected before any network activity.
#[derive(Clone, Copy, Debug, PartialEq, Eq, Structural)]
pub enum ConfigurationError {
    /// The certificate fingerprint is not base64.
    FingerprintNotBase64,
    /// The certificate fingerprint decodes to `len` bytes, not to 32.
    FingerprintLength { len: usize },
}

/// Why a measurement gave no sample.
#[derive(Clone, Copy, Debug, PartialEq, Eq, Structural)]
pub enum EstimatorError {
    /// The local clock could not be read.
    Clock(ClockError),
    /// The transport failed at the given phase.
    Transport(Phase),
    /// The server's answer was not a valid response.
    Protocol(ProtocolError),
    /// The local clock moved backward between the two readings.
    ClockWentBackward,
}

} // verus!
