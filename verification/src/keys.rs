//! The two-tier key hierarchy: a password-derived master key (KEK) that wraps
//! per-note content keys (DEK), plus salt generation.

use vstd::prelude::*;
use vstd::string::StringSliceAdditionalSpecFns;

use crate::aead::{decrypt, decrypt_spec, encrypt, os_random_bytes, KEY_LEN, NONCE_LEN, TAG_LEN};
use crate::errors::VaultError;

verus! {

/// Argon2id memory cost in KiB (64 MiB).
pub const ARGON2_M_COST: u32 = 65536;

/// Argon2id iteration count.
pub const ARGON2_T_COST: u32 = 3;

/// Argon2id degree of parallelism.
pub const ARGON2_P_COST: u32 = 4;

/// Longest password, in bytes, that the derivation function accepts.
pub const MAX_PASSWORD_LEN: u64 = 0xFFFF_FFFF;

/// The key that Argon2id derives from a password, a salt and the cost
/// parameters, at the given output length. A pure function of its arguments.
pub uninterp spec fn argon2id_key(
    password: Seq<u8>,
    salt: Seq<u8>,
    m_cost: u32,
    t_cost: u32,
    p_cost: u32,
    out_len: usize,
) -> Seq<u8>;

/// Relies on `argon2::Argon2::hash_password_into` (Argon2id, version 0x13):
/// the derived key is a pure, deterministic function of the password, the
/// salt, the cost parameters and the output length, and derivation succeeds
/// exactly when the parameters and the password length are within the
/// bounds the crate checks (the salt length is pinned by the caller; a
/// memory cost below eight blocks per lane is rounded up, not refused).
#[verifier::external_body]
fn argon2id_call(
    password: &[u8],
    salt: &[u8],
    m_cost: u32,
    t_cost: u32,
    p_cost: u32,
    out_len: usize,
) -> (r: Option<Vec<u8>>)
    requires
        salt@.len() == KEY_LEN,
    ensures
        r matches Some(k) ==> {
            &&& k@ == argon2id_key(password@, salt@, m_cost, t_cost, p_cost, out_len)
            &&& k@.len() == out_len
        },
        r is Some <==> ({
            &&& 8 <= m_cost
            &&& 1 <= t_cost
            &&& 1 <= p_cost <= 0xFF_FFFF
            &&& 4 <= out_len <= 0xFFFF_FFFF
            &&& password@.len() <= MAX_PASSWORD_LEN
        }),
{
    let params = match argon2::Params::new(m_cost, t_cost, p_cost, Some(out_len)) {
        Ok(p) => p,
        Err(_) => return None,
    };
    let ctx = argon2::Argon2::new(argon2::Algorithm::Argon2id, argon2::Version::V0x13, params);
    let mut out = vec![0u8; out_len];
    match ctx.hash_password_into(password, salt, &mut out) {
        Ok(()) => Some(out),
        Err(_) => None,
    }
}

/// Whether the derivation function accepts this password.
pub open spec fn derivable(password: Seq<char>) -> bool {
    vstd::utf8::encode_utf8(password).len() <= MAX_PASSWORD_LEN
}

/// The master key that `Kek::derive` computes from a password and a salt,
/// with the vault's fixed cost parameters.
pub open spec fn kek_spec(password: Seq<char>, salt: Seq<u8>) -> Seq<u8> {
    argon2id_key(
        vstd::utf8::encode_utf8(password),
        salt,
        ARGON2_M_COST,
        ARGON2_T_COST,
        ARGON2_P_COST,
        KEY_LEN,
    )
}

/// Key Encryption Key — derived from the password, wraps DEKs.
pub struct Kek {
    bytes: Vec<u8>,
}

impl View for Kek {
    type V = Seq<u8>;

    closed spec fn view(&self) -> Seq<u8> {
        self.bytes@
    }
}

impl Kek {
    /// A well-formed KEK holds exactly 32 bytes.
    pub open spec fn wf(&self) -> bool {
        self@.len() == KEY_LEN
    }

    /// Derive the KEK from a password and the vault salt using Argon2id with
    /// the fixed cost parameters. Deterministic: identical inputs always
    /// yield the identical 32-byte key.
    pub fn derive(password: &str, salt: &[u8]) -> (r: Result<Kek, VaultError>)
        requires
            salt@.len() == KEY_LEN,
        ensures
            r matches Ok(k) ==> k.wf() && k@ == kek_spec(password@, salt@),
            r is Ok <==> derivable(password@),
            r matches Err(e) ==> e == VaultError::KeyDerivationFailed,
    {
        let bytes = match argon2id_call(
            password.as_bytes(),
            salt,
            ARGON2_M_COST,
            ARGON2_T_COST,
            ARGON2_P_COST,
            KEY_LEN,
        ) {
            Some(k) => k,
            None => {
                return Err(VaultError::KeyDerivationFailed);
            },
        };
        Ok(Kek { bytes })
    }

    /// The raw key bytes, for the cipher.
    pub fn as_bytes(&self) -> (r: &[u8])
        ensures
            r@ == self@,
    {
        self.bytes.as_slice()
    }

    /// Rebuild a KEK from raw bytes (after recovery).
    pub fn from_bytes(bytes: Vec<u8>) -> (r: Kek)
        requires
            bytes@.len() == KEY_LEN,
        ensures
            r.wf() && r@ == bytes@,
    {
        Kek { bytes }
    }

    /// Overwrite the key bytes with zeros before the value is released.
    pub fn erase(&mut self)
        ensures
            final(self)@ == Seq::new(old(self)@.len(), |i: int| 0u8),
    {
        zeroize_in_place(&mut self.bytes);
    }
}

/// Data Encryption Key — unique per note, encrypts content.
pub struct Dek {
    bytes: Vec<u8>,
}

impl View for Dek {
    type V = Seq<u8>;

    closed spec fn view(&self) -> Seq<u8> {
        self.bytes@
    }
}

impl Dek {
    /// A well-formed DEK holds exactly 32 bytes.
    pub open spec fn wf(&self) -> bool {
        self@.len() == KEY_LEN
    }

    /// Generate a new random DEK.
    pub fn generate() -> (r: Dek)
        ensures
            r.wf(),
    {
        Dek { bytes: os_random_bytes(KEY_LEN) }
    }

    /// The raw key bytes, for the cipher.
    pub fn as_bytes(&self) -> (r: &[u8])
        ensures
            r@ == self@,
    {
        self.bytes.as_slice()
    }

    /// Create a DEK from raw bytes (after unwrapping).
    pub fn from_bytes(bytes: Vec<u8>) -> (r: Dek)
        requires
            bytes@.len() == KEY_LEN,
        ensures
            r.wf() && r@ == bytes@,
    {
        Dek { bytes }
    }

    /// Overwrite the key bytes with zeros before the value is released.
    pub fn erase(&mut self)
        ensures
            final(self)@ == Seq::new(old(self)@.len(), |i: int| 0u8),
    {
        zeroize_in_place(&mut self.bytes);
    }
}

/// Relies on `zeroize::Zeroize` for byte slices: actively overwrites every
/// byte of the buffer with zero.
#[verifier::external_body]
fn zeroize_in_place(buf: &mut Vec<u8>)
    ensures
        final(buf)@ == Seq::new(old(buf)@.len(), |i: int| 0u8),
{
    zeroize::Zeroize::zeroize(buf.as_mut_slice());
}

/// Generate a random 32-byte salt.
pub fn generate_salt() -> (r: Vec<u8>)
    ensures
        r@.len() == KEY_LEN,
{
    os_random_bytes(KEY_LEN)
}

/// What `unwrap_dek` returns for a wrapping key and a wrapped-key blob:
/// the decrypted bytes when they authenticate and are exactly key-sized.
pub open spec fn unwrap_spec(kek: Seq<u8>, blob: Seq<u8>) -> Result<Seq<u8>, VaultError> {
    match decrypt_spec(kek, blob) {
        Ok(d) => if d.len() == KEY_LEN {
            Ok(d)
        } else {
            Err(VaultError::InvalidKeySize)
        },
        Err(e) => Err(e),
    }
}

/// Wrap a DEK under the KEK (encrypt the DEK). Always succeeds, the blob is
/// nonce ‖ encrypted key ‖ tag, and it unwraps back to the same DEK under
/// the same KEK.
pub fn wrap_dek(kek: &Kek, dek: &Dek) -> (r: Result<Vec<u8>, VaultError>)
    requires
        kek.wf(),
        dek.wf(),
    ensures
        r matches Ok(w) ==> {
            &&& unwrap_spec(kek@, w@) == Ok::<Seq<u8>, VaultError>(dek@)
            &&& w@.len() == KEY_LEN + NONCE_LEN + TAG_LEN
        },
        r is Ok,
{
    encrypt(kek.as_bytes(), dek.as_bytes())
}

/// Unwrap a DEK with the KEK (decrypt and validate the key size).
pub fn unwrap_dek(kek: &Kek, wrapped_dek: &[u8]) -> (r: Result<Dek, VaultError>)
    requires
        kek.wf(),
    ensures
        r matches Ok(d) ==> d.wf() && unwrap_spec(kek@, wrapped_dek@) == Ok::<Seq<u8>, VaultError>(
            d@,
        ),
        r matches Err(e) ==> unwrap_spec(kek@, wrapped_dek@) == Err::<Seq<u8>, VaultError>(e),
{
    let dek_bytes = match decrypt(kek.as_bytes(), wrapped_dek) {
        Ok(d) => d,
        Err(e) => {
            return Err(e);
        },
    };
    if dek_bytes.len() != KEY_LEN {
        return Err(VaultError::InvalidKeySize);
    }
    Ok(Dek::from_bytes(dek_bytes))
}

} // verus!
