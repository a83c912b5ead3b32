use btclib::crypto::{PrivateKey, Signature};

#[test]
fn signature_verifies_with_its_public_key() {
    let key = PrivateKey::new_key();
    let h = btclib::sha256::Hash::hash(b"an output");
    let sig = Signature::sign_output(&h, &key).unwrap();
    assert!(sig.verify(&h, &key.public_key()));
}

#[test]
fn signature_fails_with_another_key_or_message() {
    let key = PrivateKey::new_key();
    let other = PrivateKey::new_key();
    let h = btclib::sha256::Hash::hash(b"an output");
    let sig = Signature::sign_output(&h, &key).unwrap();
    assert!(!sig.verify(&h, &other.public_key()));
    assert!(!sig.verify(&btclib::sha256::Hash::hash(b"another output"), &key.public_key()));
}

#[test]
fn zero_bytes_are_no_secret_key() {
    assert!(PrivateKey::from_bytes([0u8; 32]).is_none());
}

#[test]
fn key_bytes_round_trip() {
    let key = PrivateKey::new_key();
    let back = PrivateKey::from_bytes(key.to_bytes()).unwrap();
    assert!(back.public_key().same(&key.public_key()));
}

#[test]
fn known_key_has_known_public_key() {
    // secret scalar 1: the public key is the generator point G.
    let mut bytes = [0u8; 32];
    bytes[31] = 1;
    let key = PrivateKey::from_bytes(bytes).unwrap();
    let pk = key.public_key();
    assert_eq!(pk.0[0], 0x02);
    assert_eq!(pk.0[1], 0x79);
    assert_eq!(pk.0[2], 0xbe);
    assert_eq!(pk.0[32], 0x98);
}

#[test]
fn garbage_signature_does_not_verify() {
    let key = PrivateKey::new_key();
    let h = btclib::sha256::Hash::hash(b"x");
    assert!(!Signature([0u8; 64]).verify(&h, &key.public_key()));
}
