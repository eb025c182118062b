use foxtime::error::ConfigurationError;
use foxtime::fingerprint::{fingerprint_from_decoded, parse_fingerprint, DIGEST_LEN};

#[test]
fn fingerprint_is_decoded_from_base64() {
    assert_eq!(DIGEST_LEN, 32);
    assert_eq!(
        parse_fingerprint("AAAAAAAAAAAAAAAAAAAAAAAAAAAAAAAAAAAAAAAAAAA="),
        Ok([0u8; 32])
    );
    let mut expected = [0u8; 32];
    for (i, b) in expected.iter_mut().enumerate() {
        *b = i as u8;
    }
    assert_eq!(
        parse_fingerprint("AAECAwQFBgcICQoLDA0ODxAREhMUFRYXGBkaGxwdHh8="),
        Ok(expected)
    );
    assert_eq!(
        parse_fingerprint("/////////////////////////////////////////+8="),
        Ok({
            let mut all = [0xffu8; 32];
            all[31] = 0xef;
            all
        })
    );
}

#[test]
fn what_is_not_base64_is_rejected() {
    for text in ["!!!", "AAAA AAAA", "A", "AAECAwQFBgcICQoLDA0ODxAREhMUFRYXGBkaGxwdHh8", "====", "AA=A"] {
        assert_eq!(
            parse_fingerprint(text),
            Err(ConfigurationError::FingerprintNotBase64),
            "{:?}",
            text
        );
    }
    // the alphabet with - and _ is another encoding
    assert_eq!(
        parse_fingerprint("_____________________________________-___8="),
        Err(ConfigurationError::FingerprintNotBase64)
    );
}

#[test]
fn digest_must_have_32_bytes() {
    assert_eq!(parse_fingerprint(""), Err(ConfigurationError::FingerprintLength { len: 0 }));
    assert_eq!(parse_fingerprint("AAAA"), Err(ConfigurationError::FingerprintLength { len: 3 }));
    assert_eq!(
        parse_fingerprint("AAECAwQFBgcICQoLDA0ODxAREhMUFRYXGBkaGxwdHg=="),
        Err(ConfigurationError::FingerprintLength { len: 31 })
    );
    assert_eq!(
        parse_fingerprint("AAECAwQFBgcICQoLDA0ODxAREhMUFRYXGBkaGxwdHh8g"),
        Err(ConfigurationError::FingerprintLength { len: 33 })
    );
}

#[test]
fn decoded_bytes_become_the_digest() {
    assert_eq!(fingerprint_from_decoded(None), Err(ConfigurationError::FingerprintNotBase64));
    assert_eq!(fingerprint_from_decoded(Some(&[7u8; 32])), Ok([7u8; 32]));
    assert_eq!(
        fingerprint_from_decoded(Some(&[7u8; 31])),
        Err(ConfigurationError::FingerprintLength { len: 31 })
    );
    assert_eq!(
        fingerprint_from_decoded(Some(&[])),
        Err(ConfigurationError::FingerprintLength { len: 0 })
    );
}
