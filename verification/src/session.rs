//! The vault session: configuration paths and the in-memory unlocked master
//! key, held behind exclusive access for the lifetime of a session.

use vstd::prelude::*;

use crate::aead::KEY_LEN;
use crate::errors::VaultError;
use crate::keys::Kek;

verus! {

/// Paths of the vault's own artifacts, relative to a base directory.
pub struct VaultConfig {
    /// The `.vault` directory itself.
    pub vault_dir: String,
    /// The persisted 32-byte salt.
    pub salt_path: String,
    /// The password-verification artifact.
    pub verify_path: String,
    /// The serialized recovery record.
    pub recovery_path: String,
}

impl VaultConfig {
    /// The vault layout under a base directory; an empty base gives
    /// relative paths, as joining an empty directory does.
    pub fn new(base_dir: &str) -> (r: VaultConfig)
        ensures
            base_dir@.len() > 0 ==> {
                &&& r.vault_dir@ == base_dir@ + "/.vault"@
                &&& r.salt_path@ == base_dir@ + "/.vault/salt"@
                &&& r.verify_path@ == base_dir@ + "/.vault/verify"@
                &&& r.recovery_path@ == base_dir@ + "/.vault/recovery.key"@
            },
            base_dir@.len() == 0 ==> {
                &&& r.vault_dir@ == ".vault"@
                &&& r.salt_path@ == ".vault/salt"@
                &&& r.verify_path@ == ".vault/verify"@
                &&& r.recovery_path@ == ".vault/recovery.key"@
            },
    {
        if base_dir.is_empty() {
            VaultConfig {
                vault_dir: String::from_str(".vault"),
                salt_path: String::from_str(".vault/salt"),
                verify_path: String::from_str(".vault/verify"),
                recovery_path: String::from_str(".vault/recovery.key"),
            }
        } else {
            VaultConfig {
                vault_dir: String::from_str(base_dir).concat("/.vault"),
                salt_path: String::from_str(base_dir).concat("/.vault/salt"),
                verify_path: String::from_str(base_dir).concat("/.vault/verify"),
                recovery_path: String::from_str(base_dir).concat("/.vault/recovery.key"),
            }
        }
    }
}

/// The session state: `Locked`, or `Unlocked` with the master key in memory.
pub struct VaultSession {
    kek: Option<Kek>,
}

impl VaultSession {
    /// The unlocked key bytes, if any.
    pub closed spec fn key_view(&self) -> Option<Seq<u8>> {
        match self.kek {
            Some(k) => Some(k@),
            None => None,
        }
    }

    /// Whether a master key is unlocked in this session.
    pub open spec fn is_unlocked(&self) -> bool {
        self.key_view() is Some
    }

    /// A well-formed session holds a 32-byte key or none.
    pub open spec fn wf(&self) -> bool {
        self.key_view() matches Some(k) ==> k.len() == KEY_LEN
    }

    /// A fresh, locked session.
    pub fn new() -> (r: VaultSession)
        ensures
            r.wf(),
            !r.is_unlocked(),
    {
        VaultSession { kek: None }
    }

    /// Place a derived master key into the session.
    pub fn unlock(&mut self, kek: Kek)
        requires
            kek.wf(),
        ensures
            final(self).wf(),
            final(self).key_view() == Some(kek@),
    {
        self.lock();
        self.kek = Some(kek);
    }

    /// Lock the session: the key bytes are overwritten with zeros before
    /// they are released.
    pub fn lock(&mut self)
        ensures
            final(self).wf(),
            !final(self).is_unlocked(),
    {
        let prev = self.kek.take();
        match prev {
            Some(mut k) => {
                k.erase();
            },
            None => {},
        }
    }

    /// Borrow the unlocked master key, or fail when the session is locked.
    /// This is the only way other components reach the key.
    pub fn kek(&self) -> (r: Result<&Kek, VaultError>)
        requires
            self.wf(),
        ensures
            self.is_unlocked() ==> (r matches Ok(k) && k.wf() && Some(k@) == self.key_view()),
            !self.is_unlocked() ==> r == Err::<&Kek, VaultError>(VaultError::VaultLocked),
    {
        match self.kek.as_ref() {
            Some(k) => Ok(k),
            None => Err(VaultError::VaultLocked),
        }
    }
}

} // verus!
