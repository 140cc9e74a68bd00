use btclib::crypto::PrivateKey;
use btclib::sha256::Serializable;
use btclib::time::Timestamp;
use btclib::transaction::{Tx, TxInput, TxOutput, Uuid};
use btclib::u256::U256;
use ciborium::value::Value;

fn cbor<T: serde::Serialize>(value: &T) -> Vec<u8> {
    let mut out = Vec::new();
    ciborium::ser::into_writer(value, &mut out).unwrap();
    out
}

fn secret(byte: u8) -> Vec<u8> {
    vec![byte; 32]
}

fn hash_of(w: [u64; 4]) -> btclib::sha256::Hash {
    btclib::sha256::Hash(U256::from_words(w[0], w[1], w[2], w[3]))
}

#[test]
fn hash_of_empty_input_is_sha256_read_big_endian() {
    let h = btclib::sha256::Hash::hash_bytes(&Vec::new());
    // SHA-256("") = e3b0c442 98fc1c14 9afbf4c8 996fb924 27ae41e4 649b934c a495991b 7852b855
    assert_eq!(h.0.w3, 0xe3b0_c442_98fc_1c14);
    assert_eq!(h.0.w2, 0x9afb_f4c8_996f_b924);
    assert_eq!(h.0.w1, 0x27ae_41e4_649b_934c);
    assert_eq!(h.0.w0, 0xa495_991b_7852_b855);
}

#[test]
fn hash_encoding_matches_ciborium() {
    let h = hash_of([1, 24, 256, u64::MAX]);
    assert_eq!(h.serialize(), cbor(&[1u64, 24, 256, u64::MAX]));
}

#[test]
fn cbor_heads_use_the_shortest_form() {
    for n in [0u64, 23, 24, 255, 256, 65535, 65536, 0xFFFF_FFFF, 0x1_0000_0000, u64::MAX] {
        let mut out = Vec::new();
        btclib::cbor::push_uint(&mut out, n);
        assert_eq!(out, cbor(&n), "integer {n}");
    }
    let mut out = Vec::new();
    btclib::cbor::push_text(&mut out, "timestamp".as_bytes());
    assert_eq!(out, cbor(&"timestamp"));
}

#[test]
fn timestamp_encoding_matches_chrono() {
    for (secs, nanos) in [(0i64, 0u32), (1_700_000_000, 123_000_000), (1_700_000_000, 5), (-1, 999_999_999)] {
        let ts = Timestamp::new(secs, nanos).unwrap();
        let mut out = Vec::new();
        ts.push_cbor(&mut out);
        let dt = chrono::DateTime::<chrono::Utc>::from_timestamp(secs, nanos).unwrap();
        assert_eq!(out, cbor(&dt), "{secs}.{nanos}");
    }
}

#[test]
fn timestamp_range_is_chrono_range() {
    assert!(Timestamp::new(btclib::time::MIN_TIMESTAMP, 0).is_some());
    assert!(Timestamp::new(btclib::time::MAX_TIMESTAMP, 999_999_999).is_some());
    assert!(Timestamp::new(btclib::time::MIN_TIMESTAMP - 1, 0).is_none());
    assert!(Timestamp::new(btclib::time::MAX_TIMESTAMP + 1, 0).is_none());
    assert!(Timestamp::new(0, 1_000_000_000).is_none());
    assert!(chrono::DateTime::<chrono::Utc>::from_timestamp(btclib::time::MIN_TIMESTAMP, 0).is_some());
    assert!(chrono::DateTime::<chrono::Utc>::from_timestamp(btclib::time::MAX_TIMESTAMP, 999_999_999).is_some());
    assert!(chrono::DateTime::<chrono::Utc>::from_timestamp(btclib::time::MIN_TIMESTAMP - 1, 0).is_none());
    assert!(chrono::DateTime::<chrono::Utc>::from_timestamp(btclib::time::MAX_TIMESTAMP + 1, 0).is_none());
}

#[test]
fn key_and_signature_encodings_match_serde() {
    let sk = PrivateKey::from_bytes(secret(7)).unwrap();
    let pk = sk.public_key();
    let signing = k256::ecdsa::SigningKey::from_slice(&secret(7)).unwrap();
    let verifying = *signing.verifying_key();
    let mut out = Vec::new();
    pk.push_cbor(&mut out);
    assert_eq!(out, cbor(&verifying));

    let h = hash_of([5, 6, 7, 8]);
    let sig = btclib::crypto::Signature::sign_output(&h, &sk);
    let theirs = k256::ecdsa::Signature::from_slice(&sig.bytes).unwrap();
    let mut out = Vec::new();
    sig.push_cbor(&mut out);
    assert_eq!(out, cbor(&theirs));
}

fn output(amount: u64, id: u8, sk: &PrivateKey) -> TxOutput {
    TxOutput { amount, unique_id: Uuid([id; 16]), pubkey: sk.public_key() }
}

fn output_value(amount: u64, id: u8, secret_byte: u8) -> Value {
    let vk = *k256::ecdsa::SigningKey::from_slice(&secret(secret_byte)).unwrap().verifying_key();
    Value::Map(vec![
        (Value::Text("amount".to_string()), Value::Integer(amount.into())),
        (
            Value::Text("unique_id".to_string()),
            Value::serialized(&uuid::Uuid::from_bytes([id; 16])).unwrap(),
        ),
        (Value::Text("pubkey".to_string()), Value::serialized(&vk).unwrap()),
    ])
}

#[test]
fn output_encoding_and_hash_match_ciborium() {
    let sk = PrivateKey::from_bytes(secret(3)).unwrap();
    let out = output(1234, 9, &sk);
    let expected = cbor(&output_value(1234, 9, 3));
    assert_eq!(out.serialize(), expected);
    assert_eq!(out.hash(), btclib::sha256::Hash::hash_bytes(&expected));
}

#[test]
fn transaction_encoding_matches_ciborium() {
    let sk = PrivateKey::from_bytes(secret(4)).unwrap();
    let prev = hash_of([11, 12, 13, 14]);
    let sig = btclib::crypto::Signature::sign_output(&prev, &sk);
    let theirs = k256::ecdsa::Signature::from_slice(&sig.bytes).unwrap();
    let tx = Tx::new(
        vec![TxInput { prev_tx_output_hash: prev, signature: sig }],
        vec![output(10, 1, &sk), output(20, 2, &sk)],
    );
    let input_value = Value::Map(vec![
        (Value::Text("prev_tx_output_hash".to_string()), Value::serialized(&[11u64, 12, 13, 14]).unwrap()),
        (Value::Text("signature".to_string()), Value::serialized(&theirs).unwrap()),
    ]);
    let tx_value = Value::Map(vec![
        (Value::Text("inputs".to_string()), Value::Array(vec![input_value])),
        (
            Value::Text("outputs".to_string()),
            Value::Array(vec![output_value(10, 1, 4), output_value(20, 2, 4)]),
        ),
    ]);
    let expected = cbor(&tx_value);
    assert_eq!(tx.serialize(), expected);
    assert_eq!(tx.hash(), btclib::sha256::Hash::hash_bytes(&expected));
}

#[test]
fn new_uuids_are_version_four() {
    for _ in 0..32 {
        let id = btclib::transaction::Uuid::new_v4();
        assert_eq!(id.0[6] >> 4, 4);
        assert_eq!(id.0[8] >> 6, 2);
        assert_eq!(uuid::Uuid::from_bytes(id.0).get_version_num(), 4);
    }
}

#[test]
fn now_is_after_the_epoch() {
    assert!(btclib::time::Timestamp::now().secs() > 1_600_000_000);
}
