use k256::pkcs8::EncodePublicKey;
use btclib::crypto::{PrivateKey, PublicKey, Signature};
use btclib::u256::U256;

fn h(w: u64) -> btclib::sha256::Hash {
    btclib::sha256::Hash(U256::from_words(w, 0, 0, 0))
}

#[test]
fn signature_verifies_under_its_public_key_only() {
    let sk = PrivateKey::new_key();
    let other = PrivateKey::new_key();
    let sig = Signature::sign_output(&h(42), &sk);
    assert_eq!(sig.bytes.len(), 64);
    assert!(sig.verify(&h(42), &sk.public_key()));
    assert!(!sig.verify(&h(43), &sk.public_key()));
    assert!(!sig.verify(&h(42), &other.public_key()));
}

#[test]
fn private_key_bytes_round_trip() {
    let sk = PrivateKey::new_key();
    let again = PrivateKey::from_bytes(sk.to_bytes()).unwrap();
    assert!(again.public_key().same(&sk.public_key()));
    assert!(PrivateKey::from_bytes(vec![0u8; 32]).is_err());
    assert!(PrivateKey::from_bytes(vec![1u8; 16]).is_err());
    assert!(PrivateKey::from_bytes(vec![1u8; 33]).is_err());
}

#[test]
fn public_key_pem_round_trip() {
    let pk = PrivateKey::from_bytes(vec![5u8; 32]).unwrap().public_key();
    let pem = pk.to_pem().unwrap();
    assert!(pem.starts_with("-----BEGIN PUBLIC KEY-----"));
    assert!(!pem.contains('\r'));
    let back = PublicKey::from_pem(&pem).unwrap();
    assert!(back.same(&pk));
    assert!(PublicKey::from_pem("not a key").is_err());
    let bad = PublicKey { der: vec![1, 2, 3] };
    assert!(bad.to_pem().is_err());
}

#[test]
fn der_encoding_is_the_spki_of_the_key() {
    let pk = PrivateKey::from_bytes(vec![5u8; 32]).unwrap().public_key();
    let theirs = *k256::ecdsa::SigningKey::from_slice(&[5u8; 32]).unwrap().verifying_key();
    assert_eq!(pk.der, theirs.to_public_key_der().unwrap().as_bytes().to_vec());
}
