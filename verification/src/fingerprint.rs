//! The pinned certificate fingerprint: base64 text for the 32 bytes of a
//! SHA-256 digest, checked before any network activity.

use vstd::prelude::*;
use crate::error::ConfigurationError;
use crate::outside::base64_standard;
use crate::outside::decode_standard;

verus! {

/// The length of a SHA-256 digest in bytes.
pub const DIGEST_LEN: usize = 32;

/// The fingerprint that decoded bytes are, or the reason they are none:
/// `decoded` is what the base64 decoder made of the setting, `None` where
/// the setting was not base64.
pub open spec fn fingerprint_in(decoded: Option<Seq<u8>>) -> Result<Seq<u8>, ConfigurationError> {
    match decoded {
        None => Err(ConfigurationError::FingerprintNotBase64),
        Some(bytes) => if bytes.len() == DIGEST_LEN {
            Ok(bytes)
        } else {
            Err(ConfigurationError::FingerprintLength { len: bytes.len() as usize })
        },
    }
}

/// Whether `r` is the digest, or the error, that `model` describes.
pub open spec fn is_fingerprint(r: Result<[u8; 32], ConfigurationError>, model: Result<
    Seq<u8>,
    ConfigurationError,
>) -> bool {
    match model {
        Ok(bytes) => r is Ok && r->Ok_0@ == bytes,
        Err(e) => r == Err::<[u8; 32], ConfigurationError>(e),
    }
}

/// The bytes that were decoded, if any were.
pub open spec fn decoded_bytes(decoded: Option<&[u8]>) -> Option<Seq<u8>> {
    match decoded {
        Some(bytes) => Some(bytes@),
        None => None,
    }
}

/// Takes the fingerprint out of what the decoder returned: exactly 32 bytes
/// are a fingerprint, anything else is rejected with its length.
pub fn fingerprint_from_decoded(decoded: Option<&[u8]>) -> (r: Result<
    [u8; 32],
    ConfigurationError,
>)
    ensures
        is_fingerprint(r, fingerprint_in(decoded_bytes(decoded))),
{
    match decoded {
        None => Err(ConfigurationError::FingerprintNotBase64),
        Some(bytes) => {
            if bytes.len() != DIGEST_LEN {
                return Err(ConfigurationError::FingerprintLength { len: bytes.len() });
            }
            let mut digest: [u8; 32] = [0u8;32];
            let mut i: usize = 0;
            while i < DIGEST_LEN
                invariant
                    i <= DIGEST_LEN,
                    bytes@.len() == DIGEST_LEN,
                    forall|j: int| 0 <= j < i ==> digest@[j] == bytes@[j],
                decreases DIGEST_LEN - i,
            {
                digest[i] = bytes[i];
                i = i + 1;
            }
            assert(digest@ =~= bytes@);
            Ok(digest)
        },
    }
}

/// Reads the fingerprint setting: base64 text that must decode to the 32
/// bytes of a digest.
pub fn parse_fingerprint(text: &str) -> (r: Result<[u8; 32], ConfigurationError>)
    ensures
        is_fingerprint(r, fingerprint_in(base64_standard(text@))),
{
    match decode_standard(text) {
        Ok(bytes) => fingerprint_from_decoded(Some(bytes.as_slice())),
        Err(_) => fingerprint_from_decoded(None),
    }
}

} // verus!
