//! An envelope-encryption vault for notes: a password-derived master key
//! wraps a fresh content key per note, note text is stored under
//! authenticated encryption with an embedded nonce, and a human-enterable
//! recovery code gives a second, independent way to unwrap the master key.
//! The note store maps each logical path to an encrypted artifact pair or a
//! legacy plaintext file, and lists and searches both forms side by side.

pub mod aead;
pub mod dates;
pub mod errors;
pub mod keys;
pub mod recovery;
pub mod session;
pub mod store;
pub mod text;
