use cjdns_core::CJDNSPublicKey;
use cjdns_core::KeyError;

fn pub_key_r(s: &'static str) -> Result<CJDNSPublicKey, KeyError> {
    CJDNSPublicKey::try_from(s.to_string())
}

fn pub_key(s: &'static str) -> CJDNSPublicKey {
    pub_key_r(s).expect("bad test public key")
}

#[test]
fn test_public_key_from_string() {
    // Valid cases
    assert!(pub_key_r("xpr2z2s3hnr0qzpk2u121uqjv15dc335v54pccqlqj6c5p840yy0.k").is_ok());

    // Invalid cases
    let invalid_pub_keys = vec![
        // wrong len
        pub_key_r("xpr2z2s3hnr0qzpk2u121uqjv15dc335v54pccqlqj6c5p840yy0"),
        pub_key_r("xpr2z2s3hnr0qzpkc5p840yy0.k"),
        // wrong alphabet
        pub_key_r("XPR2z2s3hnr0qzpk2u121uqjv15dc335v54pccqlqj6c5p840yy0.k"),
        pub_key_r("aer2z2s3hnr0qzpk2u121uqjv15dc335v54pccqlqj6c5p840yy0.k"),
        // can not be decoded
        pub_key_r("xxxxxxxxxxxxxxxxxxxxxxxxxxxxxxxxxxxxxxxxxxxxxxxxxxxx.k"),
        // can not be decoded, takes lots of bytes - last char = 8
        pub_key_r("xpr2z2s3hnr0qzpk2u121uqjv15dc335v54pccqlqj6c5p840yy8.k"),
    ];
    for err_res in invalid_pub_keys {
        assert!(err_res.is_err())
    }
}

#[test]
fn test_to_from_bytes() {
    let pub_key = pub_key("xpr2z2s3hnr0qzpk2u121uqjv15dc335v54pccqlqj6c5p840yy0.k");
    let pub_key_bytes = pub_key.bytes();
    let rebuilt = CJDNSPublicKey::from_bytes(pub_key_bytes);
    assert_eq!(rebuilt.bytes(), pub_key_bytes);
    assert_eq!(rebuilt, pub_key);
}

#[test]
fn test_public_key_error_kinds() {
    // a grammar mismatch and a failed decoding are told apart
    assert_eq!(
        pub_key_r("xpr2z2s3hnr0qzpkc5p840yy0.k"),
        Err(KeyError::CannotCreateFromString)
    );
    assert_eq!(
        pub_key_r("xpr2z2s3hnr0qzpk2u121uqjv15dc335v54pccqlqj6c5p840yy8.k"),
        Err(KeyError::CannotDecode)
    );
}

#[test]
fn test_public_key_to_text() {
    let text = "xpr2z2s3hnr0qzpk2u121uqjv15dc335v54pccqlqj6c5p840yy0.k";
    let key = pub_key(text);
    assert_eq!(key.to_text(), text.to_string());
}
