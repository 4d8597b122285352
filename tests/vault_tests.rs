use aes_gcm_siv::aead::{Aead, KeyInit};
use aes_gcm_siv::Aes256GcmSiv;
use vault_core::cli::Cli;
use vault_core::credential::Credential;
use vault_core::envelope::{
    decode_envelope, decrypt_vault, derive_key, encode_envelope, encrypt_vault, open_vault,
    seal_vault, VaultEnvelope, VaultError,
};
use vault_core::codec::{decode_payload, encode_payload};
use vault_core::vault::Vault;

fn ids(vault: &Vault) -> Vec<u64> {
    vault.get_credentials().iter().map(|c| *c.get_id()).collect()
}

#[test]
fn credential_creation() {
    let credential = Credential::new(
        7,
        "testuser".to_string(),
        "testpassword".to_string(),
        "Test Service".to_string(),
        "Test notes".to_string(),
    );

    assert_eq!(credential.get_service(), "Test Service");
    assert_eq!(credential.get_username(), "testuser");
    assert_eq!(credential.get_password(), "testpassword");
    assert_eq!(credential.get_notes(), "Test notes");
    assert_eq!(*credential.get_id(), 7);
}

#[test]
fn vault_creation_and_password_change() {
    let mut vault = Vault::new("Test Vault", "testpassword");

    assert_eq!(vault.get_vault_name(), "Test Vault");
    assert_eq!(vault.get_credentials().len(), 0);

    vault.set_vault_password("newpassword".as_bytes());
    let new_key = derive_key("newpassword", vault.get_salt());

    assert_eq!(*vault.get_vault_key(), new_key);
}

#[test]
fn vault_add_and_remove_credential() {
    let mut vault = Vault::new("Test Vault", "testpassword");
    let id = vault.add_credential(
        "testuser".to_string(),
        "testpassword".to_string(),
        "Test Service".to_string(),
        "Test notes".to_string(),
    );
    assert_eq!(vault.get_credentials().len(), 1);

    assert!(vault.delete_credential_by_id(id));
    assert_eq!(vault.get_credentials().len(), 0);
}

#[test]
fn vault_file_encryption_and_decryption() {
    let vault = Vault::new("Test Vault", "testpassword");
    let vault_file = encrypt_vault(&vault).unwrap();
    let decrypted_vault = decrypt_vault(&vault_file, "testpassword").unwrap();

    assert_eq!(vault.get_vault_name(), decrypted_vault.get_vault_name());
    assert_eq!(vault.get_salt(), decrypted_vault.get_salt());
    assert_eq!(vault.get_vault_key(), decrypted_vault.get_vault_key());
    assert_eq!(vault.get_credentials().len(), decrypted_vault.get_credentials().len());
}

#[test]
fn round_trip_keeps_name_and_credentials() {
    let mut vault = Vault::new("personal", "pw-one");
    vault.add_credential("bob".to_string(), "s3cret".to_string(), "bank".to_string(), "".to_string());
    vault.add_credential("ünïcødé".to_string(), "p:w".to_string(), "mail".to_string(), "note: x".to_string());
    let text = encrypt_vault(&vault).unwrap();
    let back = decrypt_vault(&text, "pw-one").unwrap();
    assert_eq!(back.get_vault_name(), "personal");
    assert_eq!(ids(&back), ids(&vault));
    let c = &back.get_credentials()[1];
    assert_eq!(c.get_username(), "ünïcødé");
    assert_eq!(c.get_password(), "p:w");
    assert_eq!(c.get_service(), "mail");
    assert_eq!(c.get_notes(), "note: x");
}

#[test]
fn wrong_password_is_authentication_failure() {
    let vault = Vault::new("work", "alpha");
    let text = encrypt_vault(&vault).unwrap();
    assert!(matches!(decrypt_vault(&text, "beta"), Err(VaultError::AuthenticationFailure)));
}

#[test]
fn flipped_bits_are_detected() {
    let mut vault = Vault::new("work", "alpha");
    vault.add_credential("u".to_string(), "p".to_string(), "s".to_string(), "n".to_string());
    let envelope = seal_vault(&vault).unwrap();
    let key = *vault.get_vault_key();
    let payload = encode_payload(vault.get_vault_name(), vault.get_credentials());
    assert_eq!(envelope.ciphertext.len(), payload.len() + 16);
    assert_ne!(&envelope.ciphertext[..payload.len()], &payload[..]);
    for i in [0usize, 5, envelope.ciphertext.len() - 1] {
        for bit in [0u8, 3, 7] {
            let mut ciphertext = envelope.ciphertext.clone();
            ciphertext[i] ^= 1 << bit;
            let altered = VaultEnvelope {
                name: envelope.name.clone(),
                salt: envelope.salt,
                nonce: envelope.nonce,
                ciphertext,
            };
            assert!(matches!(open_vault(&altered, &key), Err(VaultError::AuthenticationFailure)));
        }
    }
    for i in 0..12 {
        let mut nonce = envelope.nonce;
        nonce[i] ^= 0x10;
        let altered = VaultEnvelope {
            name: envelope.name.clone(),
            salt: envelope.salt,
            nonce,
            ciphertext: envelope.ciphertext.clone(),
        };
        assert!(matches!(open_vault(&altered, &key), Err(VaultError::AuthenticationFailure)));
    }
    assert!(open_vault(&envelope, &key).is_ok());
}

#[test]
fn ids_stay_distinct() {
    let mut vault = Vault::new("many", "pw");
    for i in 0..200 {
        vault.add_credential(format!("u{}", i), "p".to_string(), "s".to_string(), "".to_string());
    }
    let mut all = ids(&vault);
    all.sort();
    all.dedup();
    assert_eq!(all.len(), 200);
}

#[test]
fn delete_missing_id_changes_nothing() {
    let mut vault = Vault::new("v", "pw");
    let a = vault.add_credential("a".to_string(), "1".to_string(), "x".to_string(), "".to_string());
    let b = vault.add_credential("b".to_string(), "2".to_string(), "y".to_string(), "".to_string());
    let c = vault.add_credential("c".to_string(), "3".to_string(), "z".to_string(), "".to_string());
    let mut missing = a.wrapping_add(1);
    while missing == b || missing == c || missing == a {
        missing = missing.wrapping_add(1);
    }
    assert!(!vault.delete_credential_by_id(missing));
    assert_eq!(ids(&vault), vec![a, b, c]);
    assert!(vault.delete_credential_by_id(b));
    assert_eq!(ids(&vault), vec![a, c]);
    assert!(!vault.delete_credential_by_id(b));
    assert_eq!(ids(&vault), vec![a, c]);
}

#[test]
fn search_matches_service_username_and_notes() {
    let mut vault = Vault::new("v", "pw");
    let a = vault.add_credential("alice".to_string(), "1".to_string(), "email".to_string(), "".to_string());
    let b = vault.add_credential("bob".to_string(), "2".to_string(), "bank".to_string(), "mail box".to_string());
    let c = vault.add_credential("carol".to_string(), "mail".to_string(), "forum".to_string(), "".to_string());
    let found: Vec<u64> = vault.search_credential_by_str("mail".to_string()).iter().map(|c| *c.get_id()).collect();
    assert_eq!(found, vec![a, b]);
    let found: Vec<u64> = vault.search_credential_by_str("ali".to_string()).iter().map(|c| *c.get_id()).collect();
    assert_eq!(found, vec![a]);
    let found: Vec<u64> = vault.search_credential_by_str("Mail".to_string()).iter().map(|c| *c.get_id()).collect();
    assert!(found.is_empty());
    let found: Vec<u64> = vault.search_credential_by_str("".to_string()).iter().map(|c| *c.get_id()).collect();
    assert_eq!(found, vec![a, b, c]);
}

#[test]
fn password_change_then_reopen() {
    let mut vault = Vault::new("v", "old-pw");
    vault.add_credential("u".to_string(), "p".to_string(), "s".to_string(), "".to_string());
    let salt = *vault.get_salt();
    vault.set_vault_password("new-pw".as_bytes());
    assert_eq!(*vault.get_salt(), salt);
    let text = encrypt_vault(&vault).unwrap();
    let back = decrypt_vault(&text, "new-pw").unwrap();
    assert_eq!(ids(&back), ids(&vault));
    assert!(matches!(decrypt_vault(&text, "old-pw"), Err(VaultError::AuthenticationFailure)));
}

#[test]
fn work_vault_scenario() {
    let mut vault = Vault::new("work", "correct-horse");
    vault.add_credential("alice".to_string(), "hunter2".to_string(), "email".to_string(), "".to_string());
    let saved = encrypt_vault(&vault).unwrap();
    let loaded = decrypt_vault(&saved, "correct-horse").unwrap();
    assert_eq!(loaded.get_vault_name(), "work");
    assert_eq!(loaded.get_credentials().len(), 1);
    let c = &loaded.get_credentials()[0];
    assert_eq!(c.get_username(), "alice");
    assert_eq!(c.get_password(), "hunter2");
    assert_eq!(c.get_service(), "email");
    assert_eq!(c.get_notes(), "");
    assert!(matches!(decrypt_vault(&saved, "wrong-pw"), Err(VaultError::AuthenticationFailure)));
}

#[test]
fn malformed_texts_are_rejected() {
    assert!(matches!(decode_envelope(b"abc"), Err(VaultError::MalformedEnvelope)));
    assert!(matches!(decode_envelope(b"a:b:c"), Err(VaultError::MalformedEnvelope)));
    assert!(matches!(decode_envelope(b"YQ==:AA==:AA==:AA==:AA=="), Err(VaultError::MalformedEnvelope)));
    assert!(matches!(decode_envelope(b"YQ==:!!!!:AA==:AA=="), Err(VaultError::MalformedEnvelope)));
    // a salt of one byte
    assert!(matches!(decode_envelope(b"YQ==:AA==:AAAAAAAAAAAAAAAA:AA=="), Err(VaultError::MalformedEnvelope)));
}

#[test]
fn envelope_text_layout() {
    let envelope = VaultEnvelope { name: "ab".to_string(), salt: [0u8; 32], nonce: [1u8; 12], ciphertext: vec![0xff, 0x00] };
    let text = encode_envelope(&envelope);
    let expected = format!(
        "YWI=:{}:AQEBAQEBAQEBAQEB:/wA=",
        "AAAAAAAAAAAAAAAAAAAAAAAAAAAAAAAAAAAAAAAAAAA="
    );
    assert_eq!(String::from_utf8(text.clone()).unwrap(), expected);
    let back = decode_envelope(&text).unwrap();
    assert_eq!(back.name, "ab");
    assert_eq!(back.salt, [0u8; 32]);
    assert_eq!(back.nonce, [1u8; 12]);
    assert_eq!(back.ciphertext, vec![0xff, 0x00]);
}

#[test]
fn payload_layout() {
    let creds = vec![Credential::new(0x0102, "u".to_string(), "p".to_string(), "s".to_string(), "é".to_string())];
    let bytes = encode_payload("v", &creds);
    let mut expected: Vec<u8> = vec![1, 0, 0, 0, 0, 0, 0, 0, b'v'];
    expected.extend_from_slice(&[1, 0, 0, 0, 0, 0, 0, 0]);
    expected.extend_from_slice(&[2, 1, 0, 0, 0, 0, 0, 0]);
    for t in [b'u', b'p', b's'] {
        expected.extend_from_slice(&[1, 0, 0, 0, 0, 0, 0, 0, t]);
    }
    expected.extend_from_slice(&[2, 0, 0, 0, 0, 0, 0, 0, 0xc3, 0xa9]);
    assert_eq!(bytes, expected);
    let (name, back) = decode_payload(&bytes).unwrap();
    assert_eq!(name, "v");
    assert_eq!(back[0].get_notes(), "é");
    let mut longer = bytes.clone();
    longer.push(0);
    assert!(decode_payload(&longer).is_none());
    assert!(decode_payload(&bytes[..bytes.len() - 1]).is_none());
}

fn seal_raw(key: &[u8; 32], nonce: [u8; 12], plaintext: &[u8]) -> VaultEnvelope {
    let cipher = Aes256GcmSiv::new(key.into());
    let ciphertext = cipher.encrypt(&nonce.into(), plaintext).unwrap();
    VaultEnvelope { name: "dup".to_string(), salt: [9u8; 32], nonce, ciphertext }
}

#[test]
fn duplicate_ids_are_malformed() {
    let creds = vec![
        Credential::new(5, "a".to_string(), "1".to_string(), "x".to_string(), "".to_string()),
        Credential::new(5, "b".to_string(), "2".to_string(), "y".to_string(), "".to_string()),
    ];
    let payload = encode_payload("dup", &creds);
    let key = [3u8; 32];
    let envelope = seal_raw(&key, [4u8; 12], &payload);
    assert!(matches!(open_vault(&envelope, &key), Err(VaultError::MalformedVault)));
    let garbage = seal_raw(&key, [4u8; 12], b"not a payload");
    assert!(matches!(open_vault(&garbage, &key), Err(VaultError::MalformedVault)));
    let distinct = vec![
        Credential::new(5, "a".to_string(), "1".to_string(), "x".to_string(), "".to_string()),
        Credential::new(6, "b".to_string(), "2".to_string(), "y".to_string(), "".to_string()),
    ];
    let good = seal_raw(&key, [4u8; 12], &encode_payload("dup", &distinct));
    let vault = open_vault(&good, &key).unwrap();
    assert_eq!(vault.get_salt(), &[9u8; 32]);
    assert_eq!(ids(&vault), vec![5, 6]);
}

#[test]
fn key_depends_on_password_and_salt() {
    let a = derive_key("pw", &[0u8; 32]);
    assert_eq!(a, derive_key("pw", &[0u8; 32]));
    assert_ne!(a, derive_key("pw", &[1u8; 32]));
    assert_ne!(a, derive_key("pX", &[0u8; 32]));
    assert_ne!(&a[..2], b"pw");
}

#[test]
fn setters_replace_one_field() {
    let mut c = Credential::new(1, "u".to_string(), "p".to_string(), "s".to_string(), "n".to_string());
    c.set_password("q".to_string());
    c.set_notes("m".to_string());
    assert_eq!(c.get_password(), "q");
    assert_eq!(c.get_notes(), "m");
    assert_eq!(c.get_username(), "u");
    let mut v = Vault::new("a", "pw");
    v.set_vault_name("b".to_string());
    assert_eq!(v.get_vault_name(), "b");
}

#[test]
fn menu_options_by_number() {
    let cli = Cli::new(vec!["Load Vault".to_string(), "Exit".to_string()]);
    assert_eq!(cli.options().len(), 2);
    assert_eq!(cli.option_for(1).unwrap(), "Load Vault");
    assert_eq!(cli.option_for(2).unwrap(), "Exit");
    assert!(cli.option_for(0).is_none());
    assert!(cli.option_for(3).is_none());
}
