use btclib::crypto::PrivateKey;
use btclib::merkle_root::MerkleRoot;
use btclib::sha256::Serializable;
use btclib::transaction::{Tx, TxOutput, Uuid};

fn tx(id: u8) -> Tx {
    let pk = PrivateKey::from_bytes(vec![1u8; 32]).unwrap().public_key();
    Tx::new(vec![], vec![TxOutput { amount: id as u64, unique_id: Uuid([id; 16]), pubkey: pk }])
}

fn pair(a: &btclib::sha256::Hash, b: &btclib::sha256::Hash) -> btclib::sha256::Hash {
    let mut bytes = Vec::new();
    btclib::cbor::push_array_head(&mut bytes, 2);
    bytes.extend(a.serialize());
    bytes.extend(b.serialize());
    btclib::sha256::Hash::hash_bytes(&bytes)
}

#[test]
fn merkle_root_of_no_transactions_is_zero() {
    assert_eq!(MerkleRoot::calculate(&[]), MerkleRoot(btclib::sha256::Hash::zero()));
}

#[test]
fn merkle_root_of_one_two_and_three_transactions() {
    let (a, b, c) = (tx(1), tx(2), tx(3));
    let (ha, hb, hc) = (a.hash(), b.hash(), c.hash());
    assert_eq!(MerkleRoot::calculate(&[a.clone()]), MerkleRoot(ha));
    assert_eq!(MerkleRoot::calculate(&[a.clone(), b.clone()]), MerkleRoot(pair(&ha, &hb)));
    assert_eq!(
        MerkleRoot::calculate(&[a, b, c]),
        MerkleRoot(pair(&pair(&ha, &hb), &pair(&hc, &hc)))
    );
}

#[test]
fn pair_hash_matches_ciborium_array_of_hashes() {
    let (ha, hb) = (tx(1).hash(), tx(2).hash());
    let mut bytes = Vec::new();
    ciborium::ser::into_writer(
        &[[ha.0.w0, ha.0.w1, ha.0.w2, ha.0.w3], [hb.0.w0, hb.0.w1, hb.0.w2, hb.0.w3]],
        &mut bytes,
    )
    .unwrap();
    assert_eq!(pair(&ha, &hb), btclib::sha256::Hash::hash_bytes(&bytes));
}
