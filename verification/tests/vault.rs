use ghostnote::errors::VaultError;
use ghostnote::keys::Kek;
use ghostnote::recovery::{RecoveryData, RecoveryKey};
use ghostnote::session::{VaultConfig, VaultSession};
use ghostnote::store::{is_vault_initialized, NoteFiles};

#[test]
fn recovery_round_trip() {
    let kek = Kek::from_bytes(vec![42u8; 32]);
    let salt = [9u8; 32];
    let code = RecoveryKey::generate();
    let record = RecoveryData::create(&kek, &code, &salt).expect("create");
    let recovered = record.recover_kek(&code, &salt).expect("recover");
    assert_eq!(recovered.as_bytes(), kek.as_bytes());
}

#[test]
fn recovery_with_wrong_code_fails() {
    let kek = Kek::from_bytes(vec![42u8; 32]);
    let salt = [9u8; 32];
    let code = RecoveryKey::generate();
    let record = RecoveryData::create(&kek, &code, &salt).expect("create");
    let wrong = RecoveryKey::from_input("AAAA-BBBB-CCCC-DDDD-EEEE-FFFF");
    assert!(matches!(
        record.recover_kek(&wrong, &salt),
        Err(VaultError::AuthenticationFailed)
    ));
}

#[test]
fn recovery_code_shape() {
    let code = RecoveryKey::generate();
    let s = code.as_str();
    // 24 base64 characters in 6 dash-separated groups of 4
    assert_eq!(s.len(), 29);
    let groups: Vec<&str> = s.split('-').collect();
    assert_eq!(groups.len(), 6);
    for g in groups {
        assert_eq!(g.len(), 4);
        for c in g.chars() {
            assert!(c.is_ascii_alphanumeric() || c == '+' || c == '/');
        }
    }
}

#[test]
fn recovery_input_parsing_strips_separators() {
    let code = RecoveryKey::generate();
    let reentered = RecoveryKey::from_input(code.as_str());
    // the displayed, dashed form denotes the same secret when re-entered
    let kek = Kek::from_bytes(vec![1u8; 32]);
    let salt = [2u8; 32];
    let record = RecoveryData::create(&kek, &code, &salt).expect("create");
    let recovered = record.recover_kek(&reentered, &salt).expect("recover");
    assert_eq!(recovered.as_bytes(), kek.as_bytes());
}

#[test]
fn from_input_removes_dashes_and_spaces() {
    let k = RecoveryKey::from_input(" AB-CD ef-12 ");
    assert_eq!(k.as_str(), "ABCDef12");
}

#[test]
fn vault_config_paths() {
    let config = VaultConfig::new("/home/someone/notes");
    assert_eq!(config.vault_dir, "/home/someone/notes/.vault");
    assert_eq!(config.salt_path, "/home/someone/notes/.vault/salt");
    assert_eq!(config.verify_path, "/home/someone/notes/.vault/verify");
    assert_eq!(config.recovery_path, "/home/someone/notes/.vault/recovery.key");
    // an empty base gives relative paths, as joining an empty directory does
    let relative = VaultConfig::new("");
    assert_eq!(relative.vault_dir, ".vault");
    assert_eq!(relative.salt_path, ".vault/salt");
    assert_eq!(relative.verify_path, ".vault/verify");
    assert_eq!(relative.recovery_path, ".vault/recovery.key");
}

#[test]
fn vault_initialized_iff_salt_stored() {
    let config = VaultConfig::new("base");
    let mut files = NoteFiles::new();
    assert!(!is_vault_initialized(&config, &files));
    files.put(&config.salt_path, vec![0u8; 32], 0);
    assert!(is_vault_initialized(&config, &files));
}

#[test]
fn session_lock_and_unlock() {
    let mut session = VaultSession::new();
    assert!(matches!(session.kek(), Err(VaultError::VaultLocked)));
    session.unlock(Kek::from_bytes(vec![5u8; 32]));
    assert_eq!(session.kek().unwrap().as_bytes(), &[5u8; 32][..]);
    session.lock();
    assert!(matches!(session.kek(), Err(VaultError::VaultLocked)));
}

#[test]
fn error_messages() {
    assert_eq!(VaultError::IoFailure.message(), "file operation failed");
    assert_eq!(VaultError::KeyDerivationFailed.message(), "key derivation failed");
    assert_eq!(VaultError::EncryptionFailed.message(), "encryption failed");
    assert_eq!(VaultError::AuthenticationFailed.message(), "decryption failed");
    assert_eq!(VaultError::MalformedCiphertext.message(), "ciphertext too short");
    assert_eq!(VaultError::InvalidKeySize.message(), "invalid key size");
    assert_eq!(
        VaultError::InvalidEncoding.message(),
        "invalid UTF-8 in decrypted content"
    );
    assert_eq!(VaultError::VaultLocked.message(), "vault is locked");
}
