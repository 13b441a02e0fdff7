use pico_fido::keys::{sha256, sign, Keys, CREDENTIAL_ID_LEN, PUBLIC_KEY_LEN, SECRET_KEY_LEN};
use pico_fido::store::{bytes_eq, CredentialStore, CtapCredential, StorageError, MAX_CREDENTIALS};

fn keys() -> Keys {
    Keys::new([7u8; 32])
}

#[test]
fn two_created_ids_differ() {
    let mut k = keys();
    let mut s = CredentialStore::new();
    let a = s.create(&mut k, vec![1; 32], vec![9], true, 0).unwrap();
    let b = s.create(&mut k, vec![1; 32], vec![9], true, 0).unwrap();
    assert_eq!(a.id.len(), CREDENTIAL_ID_LEN);
    assert!(a.id.len() >= 16);
    assert_ne!(a.id, b.id);
    assert_eq!(s.len(), 2);
    assert_eq!(a.sign_count, 0);
    assert_eq!(a.public_key.len(), PUBLIC_KEY_LEN);
    assert_eq!(a.secret_key.len(), SECRET_KEY_LEN);
}

#[test]
fn random_ids_depend_on_seed() {
    let a = Keys::new([1u8; 32]).random_id();
    let b = Keys::new([2u8; 32]).random_id();
    assert_ne!(a, b);
    assert_eq!(Keys::new([3u8; 32]).random_bytes(5).len(), 5);
}

#[test]
fn store_refuses_when_full() {
    let mut k = keys();
    let mut s = CredentialStore::new();
    for _ in 0..MAX_CREDENTIALS {
        assert!(s.create(&mut k, vec![1; 32], vec![], false, 0).is_ok());
    }
    assert!(matches!(s.create(&mut k, vec![1; 32], vec![], false, 0), Err(StorageError::Full)));
    assert_eq!(s.len(), MAX_CREDENTIALS);
}

#[test]
fn duplicate_id_is_refused() {
    let mut k = keys();
    let mut s = CredentialStore::new();
    let a = s.create(&mut k, vec![1; 32], vec![], false, 0).unwrap();
    let again = CtapCredential::new(a.id.clone(), vec![2; 32], vec![], k.new_key_pair(), false, 1);
    assert_eq!(s.insert(again), Err(StorageError::Corrupt));
    assert_eq!(s.len(), 1);
}

#[test]
fn delete_and_lookup() {
    let mut k = keys();
    let mut s = CredentialStore::new();
    let a = s.create(&mut k, vec![1; 32], vec![5], false, 3).unwrap();
    let b = s.create(&mut k, vec![2; 32], vec![6], false, 4).unwrap();
    assert!(s.contains(&a.id));
    assert_eq!(s.get(&b.id).unwrap().user_handle, vec![6]);
    assert_eq!(s.delete(&a.id), Ok(()));
    assert!(!s.contains(&a.id));
    assert_eq!(s.delete(&a.id), Err(StorageError::NotFound));
    assert!(s.get(&a.id).is_none());
    assert_eq!(s.len(), 1);
    s.clear();
    assert_eq!(s.len(), 0);
}

#[test]
fn list_filters_by_relying_party() {
    let mut k = keys();
    let mut s = CredentialStore::new();
    let a = s.create(&mut k, vec![1; 32], vec![], false, 0).unwrap();
    s.create(&mut k, vec![2; 32], vec![], false, 0).unwrap();
    let c = s.create(&mut k, vec![1; 32], vec![], false, 0).unwrap();
    let l = s.list(&[1; 32]);
    assert_eq!(l.len(), 2);
    assert_eq!(l[0].id, a.id);
    assert_eq!(l[1].id, c.id);
    assert!(s.list(&[3; 32]).is_empty());
}

#[test]
fn sign_counter_advances() {
    let mut k = keys();
    let mut s = CredentialStore::new();
    s.create(&mut k, vec![1; 32], vec![], false, 0).unwrap();
    assert_eq!(s.bump_sign_count(0), 1);
    assert_eq!(s.bump_sign_count(0), 2);
    assert_eq!(s.at(0).sign_count, 2);
}

#[test]
fn sha256_known_digest() {
    let d = sha256(b"abc");
    let expected: [u8; 32] = [
        0xba, 0x78, 0x16, 0xbf, 0x8f, 0x01, 0xcf, 0xea, 0x41, 0x41, 0x40, 0xde, 0x5d, 0xae, 0x22,
        0x23, 0xb0, 0x03, 0x61, 0xa3, 0x96, 0x17, 0x7a, 0x9c, 0xb4, 0x10, 0xff, 0x61, 0xf2, 0x00,
        0x15, 0xad,
    ];
    assert_eq!(d, expected.to_vec());
}

#[test]
fn signing_is_deterministic_and_rejects_bad_keys() {
    let mut k = keys();
    let kp = k.new_key_pair();
    let s1 = sign(&kp.secret, b"message").unwrap();
    let s2 = sign(&kp.secret, b"message").unwrap();
    assert_eq!(s1, s2);
    assert_ne!(s1, b"message".to_vec());
    assert!(sign(&[0u8; 32], b"message").is_none());
    assert!(sign(&[1u8; 3], b"message").is_none());
}

#[test]
fn byte_equality() {
    assert!(bytes_eq(&[1, 2, 3], &[1, 2, 3]));
    assert!(!bytes_eq(&[1, 2, 3], &[1, 2, 4]));
    assert!(!bytes_eq(&[1, 2], &[1, 2, 3]));
}

#[test]
fn same_seed_same_draws() {
    let mut a = Keys::new([11u8; 32]);
    let mut b = Keys::new([11u8; 32]);
    assert_eq!(a.random_id(), b.random_id());
    let (ka, kb) = (a.new_key_pair(), b.new_key_pair());
    assert_eq!(ka.secret, kb.secret);
    assert_eq!(ka.public, kb.public);
    assert_ne!(a.random_bytes(16), Keys::new([12u8; 32]).random_bytes(16));
}

#[test]
fn public_key_matches_secret() {
    let kp = Keys::new([13u8; 32]).new_key_pair();
    let sk = k256::ecdsa::SigningKey::from_slice(&kp.secret).unwrap();
    assert_eq!(sk.verifying_key().to_encoded_point(false).as_bytes(), &kp.public[..]);
}
