use vstd::prelude::*;

verus! {

/// The discriminated error kinds of the vault.
///
/// Authentication failures deliberately do not distinguish a wrong key from a
/// tampered or corrupt ciphertext.
#[derive(Clone, Copy, Debug, PartialEq, Eq, Structural)]
pub enum VaultError {
    /// A stored artifact that an operation needs is missing.
    IoFailure,
    /// The password hash could not be computed.
    KeyDerivationFailed,
    /// The authenticated cipher refused to seal a payload.
    EncryptionFailed,
    /// The authentication tag did not match: wrong key, or tampering.
    AuthenticationFailed,
    /// A ciphertext blob is too short to contain a nonce.
    MalformedCiphertext,
    /// An unwrapped or recovered key is not exactly the expected key size.
    InvalidKeySize,
    /// Decrypted note bytes are not valid text.
    InvalidEncoding,
    /// An operation needed the master key while the session was locked.
    VaultLocked,
}

impl VaultError {
    /// A human-readable message for display, one per kind.
    pub fn message(&self) -> (m: &'static str)
        ensures
            *self is IoFailure ==> m@ == "file operation failed"@,
            *self is KeyDerivationFailed ==> m@ == "key derivation failed"@,
            *self is EncryptionFailed ==> m@ == "encryption failed"@,
            *self is AuthenticationFailed ==> m@ == "decryption failed"@,
            *self is MalformedCiphertext ==> m@ == "ciphertext too short"@,
            *self is InvalidKeySize ==> m@ == "invalid key size"@,
            *self is InvalidEncoding ==> m@ == "invalid UTF-8 in decrypted content"@,
            *self is VaultLocked ==> m@ == "vault is locked"@,
    {
        match self {
            VaultError::IoFailure => "file operation failed",
            VaultError::KeyDerivationFailed => "key derivation failed",
            VaultError::EncryptionFailed => "encryption failed",
            VaultError::AuthenticationFailed => "decryption failed",
            VaultError::MalformedCiphertext => "ciphertext too short",
            VaultError::InvalidKeySize => "invalid key size",
            VaultError::InvalidEncoding => "invalid UTF-8 in decrypted content",
            VaultError::VaultLocked => "vault is locked",
        }
    }
}

} // verus!
