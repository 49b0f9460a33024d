//! Authenticated encryption of arbitrary byte payloads under a 256-bit key,
//! with the fresh random nonce embedded as a prefix of the blob.

use vstd::prelude::*;

use crate::errors::VaultError;

verus! {

/// Length in bytes of every symmetric key in the vault.
pub const KEY_LEN: usize = 32;

/// Length in bytes of the random nonce that prefixes every ciphertext blob.
pub const NONCE_LEN: usize = 12;

/// Length in bytes of the authentication tag that the cipher appends.
pub const TAG_LEN: usize = 16;

/// Largest payload the cipher accepts, in bytes.
pub const MAX_PLAINTEXT_LEN: u64 = 0x10_0000_0000;

/// What AES-256-GCM decryption returns for a key, a nonce and a raw
/// ciphertext-with-tag: the plaintext when the tag authenticates, `None`
/// otherwise. A pure function of its arguments.
pub uninterp spec fn aes256gcm_open(key: Seq<u8>, nonce: Seq<u8>, ct: Seq<u8>) -> Option<Seq<u8>>;

/// Relies on `aes_gcm::Aes256Gcm` through `aead::Aead::encrypt`: sealing is
/// deterministic in (key, nonce, plaintext), appends a 16-byte tag, decrypts
/// back to the same plaintext under the same key and nonce, and fails only
/// when the plaintext exceeds the cipher's length bound (2^36 bytes).
#[verifier::external_body]
fn gcm_seal_call(key: &[u8], nonce: &[u8], plaintext: &[u8]) -> (r: Option<Vec<u8>>)
    requires
        key@.len() == KEY_LEN,
        nonce@.len() == NONCE_LEN,
    ensures
        r matches Some(c) ==> {
            &&& c@.len() == plaintext@.len() + TAG_LEN
            &&& aes256gcm_open(key@, nonce@, c@) == Some(plaintext@)
        },
        plaintext@.len() <= MAX_PLAINTEXT_LEN ==> r is Some,
{
    let cipher = match <aes_gcm::Aes256Gcm as aes_gcm::aead::KeyInit>::new_from_slice(key) {
        Ok(c) => c,
        Err(_) => return None,
    };
    match aes_gcm::aead::Aead::encrypt(&cipher, aes_gcm::Nonce::from_slice(nonce), plaintext) {
        Ok(c) => Some(c),
        Err(_) => None,
    }
}

/// Relies on `aes_gcm::Aes256Gcm` through `aead::Aead::decrypt`: returns the
/// plaintext exactly when the authentication tag matches, `None` otherwise.
#[verifier::external_body]
fn gcm_open_call(key: &[u8], nonce: &[u8], ct: &[u8]) -> (r: Option<Vec<u8>>)
    requires
        key@.len() == KEY_LEN,
        nonce@.len() == NONCE_LEN,
    ensures
        r matches Some(p) ==> aes256gcm_open(key@, nonce@, ct@) == Some(p@),
        r is None ==> aes256gcm_open(key@, nonce@, ct@) is None,
{
    let cipher = match <aes_gcm::Aes256Gcm as aes_gcm::aead::KeyInit>::new_from_slice(key) {
        Ok(c) => c,
        Err(_) => return None,
    };
    match aes_gcm::aead::Aead::decrypt(&cipher, aes_gcm::Nonce::from_slice(nonce), ct) {
        Ok(p) => Some(p),
        Err(_) => None,
    }
}

/// Relies on `rand::rngs::OsRng` through `rand::RngCore::fill_bytes`: fills a
/// buffer with operating-system randomness; nothing can be promised of the
/// bytes beyond their number. Aborts the process only if the OS RNG fails.
#[verifier::external_body]
pub(crate) fn os_random_bytes(n: usize) -> (r: Vec<u8>)
    ensures
        r@.len() == n,
{
    let mut buf = vec![0u8; n];
    rand::RngCore::fill_bytes(&mut rand::rngs::OsRng, &mut buf);
    buf
}

/// What `decrypt` returns for a key and a nonce-prefixed blob.
pub open spec fn decrypt_spec(key: Seq<u8>, blob: Seq<u8>) -> Result<Seq<u8>, VaultError> {
    if blob.len() < NONCE_LEN {
        Err(VaultError::MalformedCiphertext)
    } else {
        match aes256gcm_open(key, blob.take(NONCE_LEN as int), blob.skip(NONCE_LEN as int)) {
            Some(p) => Ok(p),
            None => Err(VaultError::AuthenticationFailed),
        }
    }
}

/// Encrypt a payload under a 32-byte key: draw a fresh random 96-bit nonce,
/// seal the payload, and return nonce ‖ ciphertext ‖ tag.
///
/// The blob decrypts back to the payload under the same key: the round trip
/// `decrypt(key, encrypt(key, p)) == p` is this postcondition.
pub fn encrypt(key: &[u8], plaintext: &[u8]) -> (r: Result<Vec<u8>, VaultError>)
    requires
        key@.len() == KEY_LEN,
    ensures
        r matches Ok(c) ==> {
            &&& c@.len() == plaintext@.len() + NONCE_LEN + TAG_LEN
            &&& decrypt_spec(key@, c@) == Ok::<Seq<u8>, VaultError>(plaintext@)
        },
        plaintext@.len() <= MAX_PLAINTEXT_LEN ==> r is Ok,
        r matches Err(e) ==> e == VaultError::EncryptionFailed,
{
    let nonce = os_random_bytes(NONCE_LEN);
    let sealed = match gcm_seal_call(key, nonce.as_slice(), plaintext) {
        Some(c) => c,
        None => {
            return Err(VaultError::EncryptionFailed);
        },
    };
    let mut blob: Vec<u8> = Vec::new();
    blob.extend_from_slice(nonce.as_slice());
    blob.extend_from_slice(sealed.as_slice());
    proof {
        assert(blob@.take(NONCE_LEN as int) =~= nonce@);
        assert(blob@.skip(NONCE_LEN as int) =~= sealed@);
    }
    Ok(blob)
}

/// Decrypt a nonce-prefixed blob under a 32-byte key.
///
/// Rejects blobs shorter than the nonce with `MalformedCiphertext`; otherwise
/// splits the nonce off and authenticates, failing with `AuthenticationFailed`
/// on a wrong key or any tampering.
pub fn decrypt(key: &[u8], blob: &[u8]) -> (r: Result<Vec<u8>, VaultError>)
    requires
        key@.len() == KEY_LEN,
    ensures
        r matches Ok(p) ==> decrypt_spec(key@, blob@) == Ok::<Seq<u8>, VaultError>(p@),
        r matches Err(e) ==> decrypt_spec(key@, blob@) == Err::<Seq<u8>, VaultError>(e),
{
    if blob.len() < NONCE_LEN {
        return Err(VaultError::MalformedCiphertext);
    }
    let nonce = vstd::slice::slice_subrange(blob, 0, NONCE_LEN);
    let ct = vstd::slice::slice_subrange(blob, NONCE_LEN, blob.len());
    match gcm_open_call(key, nonce, ct) {
        Some(p) => Ok(p),
        None => Err(VaultError::AuthenticationFailed),
    }
}

} // verus!
