use context_engine::crypto::{
    data_key_from_base64, decrypt_from_base64, encrypt_to_base64, seal_to_base64, CryptoError,
};

const KEY_B64: &str = "AAAAAAAAAAAAAAAAAAAAAAAAAAAAAAAAAAAAAAAAAAA=";

#[test]
fn data_key_decodes_to_32_bytes() {
    assert_eq!(data_key_from_base64(&format!(" {KEY_B64}\n")), Ok([0u8; 32]));
    assert_eq!(data_key_from_base64("AAAA"), Err(CryptoError::KeyLength));
    assert_eq!(data_key_from_base64("!!"), Err(CryptoError::InvalidBase64));
}

#[test]
fn sealing_matches_known_answer() {
    let sealed = seal_to_base64(&[0u8; 32], &[0u8; 12], b"").unwrap();
    assert_eq!(sealed, "AAAAAAAAAAAAAAAAUw+K+8dFNrmpY7TxxMtziw==");
    assert_eq!(decrypt_from_base64(&[0u8; 32], &sealed), Ok(Vec::new()));
}

#[test]
fn encryption_round_trips() {
    let key = [7u8; 32];
    let sealed = encrypt_to_base64(&key, b"sqlite:///tmp/x.db").unwrap();
    assert_eq!(decrypt_from_base64(&key, &sealed), Ok(b"sqlite:///tmp/x.db".to_vec()));
    let again = encrypt_to_base64(&key, b"sqlite:///tmp/x.db").unwrap();
    assert_ne!(sealed, again);
}

#[test]
fn opening_reports_each_failure() {
    let key = [7u8; 32];
    let sealed = encrypt_to_base64(&key, b"secret").unwrap();
    assert_eq!(decrypt_from_base64(&[8u8; 32], &sealed), Err(CryptoError::DecryptFailed));
    assert_eq!(decrypt_from_base64(&key, "AAAA"), Err(CryptoError::CiphertextTooShort));
    assert_eq!(decrypt_from_base64(&key, "not base64!"), Err(CryptoError::InvalidBase64));
    assert_eq!(CryptoError::DecryptFailed.message(), "decrypt failed");
    assert_eq!(CryptoError::KeyLength.message(), "DATA_KEY must decode to 32 bytes");
    assert_eq!(CryptoError::InvalidBase64.message(), "invalid base64");
}
