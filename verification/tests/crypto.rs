use ghostnote::aead::{decrypt, encrypt, KEY_LEN, NONCE_LEN};
use ghostnote::errors::VaultError;
use ghostnote::keys::{generate_salt, unwrap_dek, wrap_dek, Dek, Kek};

#[test]
fn encrypt_decrypt_round_trip() {
    let key = [7u8; 32];
    let payloads: Vec<Vec<u8>> = vec![
        Vec::new(),
        vec![0u8],
        b"attack at dawn".to_vec(),
        vec![0xFFu8; 300],
    ];
    for payload in payloads {
        let blob = encrypt(&key, &payload).expect("encrypt");
        assert_eq!(blob.len(), payload.len() + NONCE_LEN + 16);
        let back = decrypt(&key, &blob).expect("decrypt");
        assert_eq!(back, payload);
    }
}

#[test]
fn fresh_nonce_per_call() {
    let key = [9u8; 32];
    let a = encrypt(&key, b"same payload").expect("encrypt");
    let b = encrypt(&key, b"same payload").expect("encrypt");
    assert_ne!(a[..NONCE_LEN], b[..NONCE_LEN]);
}

#[test]
fn tamper_detection_every_bit() {
    let key = [3u8; 32];
    let blob = encrypt(&key, b"attack at dawn").expect("encrypt");
    for i in 0..blob.len() {
        for bit in 0..8 {
            let mut tampered = blob.clone();
            tampered[i] ^= 1u8 << bit;
            let r = decrypt(&key, &tampered);
            assert_eq!(r.unwrap_err(), VaultError::AuthenticationFailed);
        }
    }
}

#[test]
fn wrong_key_fails_authentication() {
    let key = [3u8; 32];
    let other = [4u8; 32];
    let blob = encrypt(&key, b"secret").expect("encrypt");
    assert_eq!(decrypt(&other, &blob).unwrap_err(), VaultError::AuthenticationFailed);
}

#[test]
fn short_blob_is_malformed() {
    let key = [1u8; 32];
    for n in 0..NONCE_LEN {
        let blob = vec![0u8; n];
        assert_eq!(decrypt(&key, &blob).unwrap_err(), VaultError::MalformedCiphertext);
    }
    // exactly one nonce and nothing else: not malformed, but unauthenticated
    let blob = vec![0u8; NONCE_LEN];
    assert_eq!(decrypt(&key, &blob).unwrap_err(), VaultError::AuthenticationFailed);
}

#[test]
fn wrap_unwrap_round_trip() {
    let kek = Kek::from_bytes(vec![11u8; 32]);
    let dek = Dek::generate();
    let dek_bytes = dek.as_bytes().to_vec();
    let wrapped = wrap_dek(&kek, &dek).expect("wrap");
    let unwrapped = unwrap_dek(&kek, &wrapped).expect("unwrap");
    assert_eq!(unwrapped.as_bytes(), &dek_bytes[..]);
}

#[test]
fn unwrap_with_wrong_kek_fails() {
    let kek = Kek::from_bytes(vec![11u8; 32]);
    let wrong = Kek::from_bytes(vec![12u8; 32]);
    let dek = Dek::generate();
    let wrapped = wrap_dek(&kek, &dek).expect("wrap");
    assert!(matches!(
        unwrap_dek(&wrong, &wrapped),
        Err(VaultError::AuthenticationFailed)
    ));
}

#[test]
fn unwrap_of_wrong_size_payload_fails() {
    let kek = Kek::from_bytes(vec![11u8; 32]);
    // a valid blob under the kek whose payload is not key-sized
    let blob = encrypt(&[11u8; 32], b"sixteen bytes!!!").expect("encrypt");
    assert!(matches!(unwrap_dek(&kek, &blob), Err(VaultError::InvalidKeySize)));
}

#[test]
fn salt_and_dek_sizes() {
    assert_eq!(generate_salt().len(), KEY_LEN);
    assert_eq!(Dek::generate().as_bytes().len(), KEY_LEN);
    let two = (generate_salt(), generate_salt());
    assert_ne!(two.0, two.1);
}

#[test]
fn derive_is_deterministic() {
    let salt = [5u8; 32];
    let a = Kek::derive("correct horse battery staple", &salt).expect("derive");
    let b = Kek::derive("correct horse battery staple", &salt).expect("derive");
    assert_eq!(a.as_bytes(), b.as_bytes());
    assert_eq!(a.as_bytes().len(), KEY_LEN);
}

#[test]
fn derive_depends_on_password_and_salt() {
    let salt = [5u8; 32];
    let other_salt = [6u8; 32];
    let a = Kek::derive("password one", &salt).expect("derive");
    let b = Kek::derive("password two", &salt).expect("derive");
    let c = Kek::derive("password one", &other_salt).expect("derive");
    assert_ne!(a.as_bytes(), b.as_bytes());
    assert_ne!(a.as_bytes(), c.as_bytes());
}

#[test]
fn erase_zeroizes_key_bytes() {
    let mut kek = Kek::from_bytes(vec![0xAB; 32]);
    kek.erase();
    assert_eq!(kek.as_bytes(), &[0u8; 32][..]);
}
