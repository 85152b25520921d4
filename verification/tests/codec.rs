use base64::Engine;
use command_center::codec::{
    decrypt_data, decrypt_name, encrypt_data, encrypt_name, CodecError, CHUNK_SIZE,
    ENCRYPTED_CHUNK_SIZE, ENCRYPTION_OVERHEAD,
};

#[test]
fn constants_are_consistent() {
    assert_eq!(ENCRYPTED_CHUNK_SIZE, CHUNK_SIZE + ENCRYPTION_OVERHEAD);
    assert_eq!(ENCRYPTION_OVERHEAD, 44);
    assert_eq!(CHUNK_SIZE, 4096);
}

#[test]
fn encrypt_grows_by_overhead_and_round_trips() {
    let data: Vec<u8> = (0..1000u32).map(|i| (i % 251) as u8).collect();
    let ct = encrypt_data(&data, "pw1").unwrap();
    assert_eq!(ct.len(), data.len() + ENCRYPTION_OVERHEAD);
    let back = decrypt_data(&ct, "pw1").unwrap();
    assert_eq!(back, data);
}

#[test]
fn encrypt_empty_round_trips() {
    let ct = encrypt_data(&[], "pw1").unwrap();
    assert_eq!(ct.len(), ENCRYPTION_OVERHEAD);
    let back = decrypt_data(&ct, "pw1").unwrap();
    assert!(back.is_empty());
}

#[test]
fn two_encryptions_differ_but_both_decrypt() {
    let data = b"same plaintext".to_vec();
    let c1 = encrypt_data(&data, "pw1").unwrap();
    let c2 = encrypt_data(&data, "pw1").unwrap();
    assert_ne!(c1, c2);
    assert_eq!(decrypt_data(&c1, "pw1").unwrap(), data);
    assert_eq!(decrypt_data(&c2, "pw1").unwrap(), data);
}

#[test]
fn wrong_secret_fails() {
    let ct = encrypt_data(b"secret notes", "pw1").unwrap();
    assert_eq!(decrypt_data(&ct, "pw2").unwrap_err(), CodecError::DecryptionFailed);
}

#[test]
fn corrupted_ciphertext_fails() {
    let mut ct = encrypt_data(b"secret notes", "pw1").unwrap();
    let last = ct.len() - 1;
    ct[last] ^= 1;
    assert_eq!(decrypt_data(&ct, "pw1").unwrap_err(), CodecError::DecryptionFailed);
}

#[test]
fn too_short_ciphertext_fails() {
    assert_eq!(decrypt_data(&[0u8; 10], "pw1").unwrap_err(), CodecError::DecryptionFailed);
}

#[test]
fn name_round_trips_and_is_path_safe() {
    let name = encrypt_name("notes/2024/plan.md", "pw1").unwrap();
    assert!(!name.contains('/'));
    assert_eq!(decrypt_name(&name, "pw1").unwrap(), "notes/2024/plan.md");
}

#[test]
fn name_wrong_secret_fails() {
    let name = encrypt_name("notes/plan.md", "pw1").unwrap();
    assert_eq!(decrypt_name(&name, "pw2").unwrap_err(), CodecError::DecryptionFailed);
}

#[test]
fn name_not_base64_fails() {
    assert_eq!(decrypt_name("!!!not base64!!!", "pw1").unwrap_err(), CodecError::NameNotEncoded);
}

#[test]
fn name_not_text_fails() {
    // A ciphertext whose plaintext is not UTF-8 decodes and decrypts but is
    // refused as a name.
    let ct = encrypt_data(&[0xff, 0xfe, 0x80], "pw1").unwrap();
    let name = base64::engine::general_purpose::URL_SAFE.encode(&ct);
    assert_eq!(decrypt_name(&name, "pw1").unwrap_err(), CodecError::NameNotText);
}

#[test]
fn name_too_long_fails() {
    let long_path = "a".repeat(0x0100_0001);
    assert_eq!(encrypt_name(&long_path, "pw1").unwrap_err(), CodecError::NameTooLong);
}
