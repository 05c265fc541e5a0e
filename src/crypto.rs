//! Credential encryption: AES-256-GCM with a random 96-bit nonce, stored as
//! base64 of the nonce followed by the ciphertext and its tag.
use vstd::prelude::*;
use crate::replay::{base64_of, base64_standard};
use crate::text::trimmed;
use aes_gcm::aead::rand_core::RngCore;
use aes_gcm::aead::{Aead, KeyInit};
use base64::Engine;

verus! {

/// Where the key that encrypts stored credentials came from: the
/// environment, the key file in the data directory, or freshly generated and
/// written there.
#[derive(Clone, Copy, Debug, PartialEq, Eq, Structural)]
pub enum DataKeySource {
    Env,
    File,
    Generated,
}

/// Why a credential could not be sealed or opened.
#[derive(Clone, Copy, Debug, PartialEq, Eq, Structural)]
pub enum CryptoError {
    /// The text is not standard base64.
    InvalidBase64,
    /// Fewer bytes than a nonce.
    CiphertextTooShort,
    /// Authentication failed: wrong key or altered data.
    DecryptFailed,
    /// The cipher refused the plaintext.
    EncryptFailed,
    /// A data key must decode to 32 bytes.
    KeyLength,
}

impl CryptoError {
    /// A human-readable description.
    pub fn message(&self) -> (r: String)
        ensures
            r@ == (match *self {
                CryptoError::InvalidBase64 => "invalid base64"@,
                CryptoError::CiphertextTooShort => "ciphertext too short"@,
                CryptoError::DecryptFailed => "decrypt failed"@,
                CryptoError::EncryptFailed => "encrypt failed"@,
                CryptoError::KeyLength => "DATA_KEY must decode to 32 bytes"@,
            }),
    {
        match self {
            CryptoError::InvalidBase64 => "invalid base64".to_owned(),
            CryptoError::CiphertextTooShort => "ciphertext too short".to_owned(),
            CryptoError::DecryptFailed => "decrypt failed".to_owned(),
            CryptoError::EncryptFailed => "encrypt failed".to_owned(),
            CryptoError::KeyLength => "DATA_KEY must decode to 32 bytes".to_owned(),
        }
    }
}

/// The bytes that standard, padded base64 text decodes to; `None` when the
/// text is malformed.
pub uninterp spec fn base64_decoded(s: Seq<char>) -> Option<Seq<u8>>;

/// AES-256-GCM decryption of `ciphertext` (with its tag) under `key` and a
/// 96-bit `nonce`; `None` when authentication fails.
pub uninterp spec fn aes256_gcm_open(key: Seq<u8>, nonce: Seq<u8>, ciphertext: Seq<u8>) -> Option<Seq<u8>>;

/// AES-256-GCM encryption of `plaintext` under `key` and a 96-bit `nonce`:
/// the ciphertext followed by its tag; `None` when the cipher refuses it.
pub uninterp spec fn aes256_gcm_seal(key: Seq<u8>, nonce: Seq<u8>, plaintext: Seq<u8>) -> Option<Seq<u8>>;

pub open spec fn opt_bytes(o: Option<Vec<u8>>) -> Option<Seq<u8>> {
    match o {
        Some(v) => Some(v@),
        None => None,
    }
}

/// Relies on `base64::engine::general_purpose::STANDARD.decode`: padded,
/// standard-alphabet base64; `None` for the error case.
#[verifier::external_body]
fn base64_decode(s: &str) -> (r: Option<Vec<u8>>)
    ensures
        opt_bytes(r) == base64_decoded(s@),
{
    base64::engine::general_purpose::STANDARD.decode(s).ok()
}

/// Relies on `aes_gcm::Aes256Gcm` through `Aead::decrypt`, after
/// `KeyInit::new_from_slice`, which accepts any 32-byte key.
#[verifier::external_body]
fn aes_open(key: &[u8; 32], nonce: &[u8], ciphertext: &[u8]) -> (r: Option<Vec<u8>>)
    requires
        nonce@.len() == 12,
    ensures
        opt_bytes(r) == aes256_gcm_open(key@, nonce@, ciphertext@),
{
    let cipher = aes_gcm::Aes256Gcm::new_from_slice(key).ok()?;
    cipher.decrypt(aes_gcm::Nonce::from_slice(nonce), ciphertext).ok()
}

/// Relies on `aes_gcm::Aes256Gcm` through `Aead::encrypt`, after
/// `KeyInit::new_from_slice`, which accepts any 32-byte key. Encryption
/// refuses only plaintexts over `P_MAX`, 2^36 bytes.
#[verifier::external_body]
fn aes_seal(key: &[u8; 32], nonce: &[u8; 12], plaintext: &[u8]) -> (r: Option<Vec<u8>>)
    ensures
        opt_bytes(r) == aes256_gcm_seal(key@, nonce@, plaintext@),
        plaintext@.len() <= 0x10_0000_0000 ==> r is Some,
{
    let cipher = aes_gcm::Aes256Gcm::new_from_slice(key).ok()?;
    cipher.encrypt(aes_gcm::Nonce::from_slice(nonce), plaintext).ok()
}

/// Relies on `aes_gcm::aead::OsRng` (`RngCore::fill_bytes`): 12 bytes from
/// the operating system's generator. Nothing is known of their values.
#[verifier::external_body]
fn random_nonce() -> (r: [u8; 12]) {
    let mut nonce = [0u8; 12];
    aes_gcm::aead::OsRng.fill_bytes(&mut nonce);
    nonce
}

/// What opening the stored text `b64` under `key` gives.
pub open spec fn opened(key: Seq<u8>, b64: Seq<char>) -> Result<Seq<u8>, CryptoError> {
    match base64_decoded(b64) {
        None => Err(CryptoError::InvalidBase64),
        Some(b) => if b.len() < 12 {
            Err(CryptoError::CiphertextTooShort)
        } else {
            match aes256_gcm_open(key, b.subrange(0, 12), b.subrange(12, b.len() as int)) {
                Some(p) => Ok(p),
                None => Err(CryptoError::DecryptFailed),
            }
        },
    }
}

pub open spec fn result_bytes(r: Result<Vec<u8>, CryptoError>) -> Result<Seq<u8>, CryptoError> {
    match r {
        Ok(v) => Ok(v@),
        Err(e) => Err(e),
    }
}

/// Opens a credential stored as base64 of nonce, ciphertext and tag.
pub fn decrypt_from_base64(key: &[u8; 32], b64: &str) -> (r: Result<Vec<u8>, CryptoError>)
    ensures
        result_bytes(r) == opened(key@, b64@),
{
    let bytes = match base64_decode(b64) {
        Some(b) => b,
        None => return Err(CryptoError::InvalidBase64),
    };
    if bytes.len() < 12 {
        return Err(CryptoError::CiphertextTooShort);
    }
    let (nonce, ciphertext) = bytes.as_slice().split_at(12);
    match aes_open(key, nonce, ciphertext) {
        Some(p) => Ok(p),
        None => Err(CryptoError::DecryptFailed),
    }
}

/// Seals `plaintext` under `key` and the given `nonce`: base64 of the nonce
/// followed by the ciphertext and its tag.
pub fn seal_to_base64(key: &[u8; 32], nonce: &[u8; 12], plaintext: &[u8]) -> (r: Result<String, CryptoError>)
    ensures
        match aes256_gcm_seal(key@, nonce@, plaintext@) {
            Some(ct) => r matches Ok(s) && s@ == base64_of(nonce@ + ct),
            None => r == Err::<String, CryptoError>(CryptoError::EncryptFailed),
        },
        plaintext@.len() <= 0x10_0000_0000 ==> r is Ok,
{
    let ct = match aes_seal(key, nonce, plaintext) {
        Some(c) => c,
        None => return Err(CryptoError::EncryptFailed),
    };
    let mut out: Vec<u8> = Vec::new();
    let mut k: usize = 0;
    while k < 12
        invariant
            k <= 12,
            out@ == nonce@.subrange(0, k as int),
        decreases 12 - k,
    {
        out.push(nonce[k]);
        assert(out@ =~= nonce@.subrange(0, k + 1));
        k = k + 1;
    }
    assert(nonce@.subrange(0, 12) =~= nonce@);
    let mut j: usize = 0;
    while j < ct.len()
        invariant
            j <= ct@.len(),
            out@ == nonce@ + ct@.subrange(0, j as int),
        decreases ct@.len() - j,
    {
        out.push(ct[j]);
        assert(out@ =~= nonce@ + ct@.subrange(0, j + 1));
        j = j + 1;
    }
    assert(ct@.subrange(0, ct@.len() as int) =~= ct@);
    Ok(base64_standard(out.as_slice()))
}

/// `s` is the stored form of `plaintext` sealed under `key` and `nonce`.
pub open spec fn sealed_as(key: Seq<u8>, nonce: Seq<u8>, plaintext: Seq<u8>, s: Seq<char>) -> bool {
    match aes256_gcm_seal(key, nonce, plaintext) {
        Some(ct) => s == base64_of(nonce + ct),
        None => false,
    }
}

/// Seals `plaintext` under `key` with a fresh random nonce.
pub fn encrypt_to_base64(key: &[u8; 32], plaintext: &[u8]) -> (r: Result<String, CryptoError>)
    ensures
        r matches Ok(s) ==> exists|n: Seq<u8>| n.len() == 12 && #[trigger] sealed_as(key@, n, plaintext@, s@),
        r matches Err(e) ==> e == CryptoError::EncryptFailed,
        plaintext@.len() <= 0x10_0000_0000 ==> r is Ok,
{
    let nonce = random_nonce();
    let r = seal_to_base64(key, &nonce, plaintext);
    proof {
        if r is Ok {
            assert(sealed_as(key@, nonce@, plaintext@, r->Ok_0@));
        }
    }
    r
}

/// The data key written as base64 text: it must decode to exactly 32 bytes
/// once surrounding whitespace is trimmed.
pub fn data_key_from_base64(text: &str) -> (r: Result<[u8; 32], CryptoError>)
    ensures
        match base64_decoded(crate::text::trim(text@)) {
            None => r == Err::<[u8; 32], CryptoError>(CryptoError::InvalidBase64),
            Some(b) => if b.len() == 32 {
                r matches Ok(key) && key@ == b
            } else {
                r == Err::<[u8; 32], CryptoError>(CryptoError::KeyLength)
            },
        },
{
    let t = trimmed(text);
    let bytes = match base64_decode(t.as_str()) {
        Some(b) => b,
        None => return Err(CryptoError::InvalidBase64),
    };
    if bytes.len() != 32 {
        return Err(CryptoError::KeyLength);
    }
    let mut key = [0u8; 32];
    let mut k: usize = 0;
    while k < 32
        invariant
            k <= 32,
            bytes@.len() == 32,
            forall|i: int| 0 <= i < k ==> key@[i] == bytes@[i],
        decreases 32 - k,
    {
        key.set(k, bytes[k]);
        k = k + 1;
    }
    assert(key@ =~= bytes@);
    Ok(key)
}

} // verus!
