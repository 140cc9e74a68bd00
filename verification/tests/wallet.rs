use k256::pkcs8::DecodePublicKey;
use btclib::crypto::{PrivateKey, PublicKey};
use btclib::transaction::{TxOutput, Uuid};
use btclib::wallet::{
    check_has_keys, find_recipient, FeeType, Key, LoadedKey, Recipient, UtxoStore, WalletError,
};

fn key(byte: u8) -> PrivateKey {
    PrivateKey::from_bytes(vec![byte; 32]).unwrap()
}

fn out(amount: u64, id: u8, pk: &PublicKey) -> TxOutput {
    TxOutput { amount, unique_id: Uuid([id; 16]), pubkey: pk.clone() }
}

/// A wallet with keys 1 and 2; key 1 owns 100 (flagged), 200 and 300; key 2 owns 1000.
fn store() -> UtxoStore {
    let mut s = UtxoStore::new();
    for b in [1u8, 2] {
        let sk = key(b);
        s.add_key(LoadedKey { public: sk.public_key(), private: sk });
    }
    let p1 = key(1).public_key();
    let p2 = key(2).public_key();
    s.utxos.push((p1.clone(), vec![(true, out(100, 1, &p1)), (false, out(200, 2, &p1)), (false, out(300, 3, &p1))]));
    s.utxos.push((p2.clone(), vec![(false, out(1000, 4, &p2))]));
    s
}

#[test]
fn balance_counts_every_utxo() {
    assert_eq!(store().get_balance(), 1600);
    assert_eq!(UtxoStore::new().get_balance(), 0);
}

#[test]
fn my_privkey_finds_the_matching_key() {
    let s = store();
    let found = s.my_privkey(&key(2).public_key()).unwrap();
    assert_eq!(found.to_bytes(), vec![2u8; 32]);
    assert!(matches!(s.my_privkey(&key(5).public_key()), Err(WalletError::KeyNotFound)));
}

#[test]
fn payment_picks_unflagged_utxos_in_order_and_returns_change() {
    let s = store();
    let recipient = key(7).public_key();
    let tx = s.create_transaction(&recipient, 250, 50).unwrap();
    // 200 and 300 cover 300; the flagged 100 is skipped
    assert_eq!(tx.inputs.len(), 2);
    assert_eq!(tx.inputs[0].prev_tx_output_hash, out(200, 2, &key(1).public_key()).hash());
    assert_eq!(tx.inputs[1].prev_tx_output_hash, out(300, 3, &key(1).public_key()).hash());
    for input in &tx.inputs {
        assert!(input.signature.verify(&input.prev_tx_output_hash, &key(1).public_key()));
    }
    assert_eq!(tx.outputs.len(), 2);
    assert_eq!(tx.outputs[0].amount, 250);
    assert!(tx.outputs[0].pubkey.same(&recipient));
    assert_eq!(tx.outputs[1].amount, 200);
    assert!(tx.outputs[1].pubkey.same(&key(1).public_key()));
}

#[test]
fn exact_payment_has_no_change() {
    let s = store();
    let tx = s.create_transaction(&key(7).public_key(), 150, 50).unwrap();
    assert_eq!(tx.inputs.len(), 1);
    assert_eq!(tx.outputs.len(), 1);
    // crossing into the next key's UTXOs
    let tx = s.create_transaction(&key(7).public_key(), 1400, 100).unwrap();
    assert_eq!(tx.inputs.len(), 3);
    assert_eq!(tx.outputs.len(), 1);
    assert!(tx.inputs[2].signature.verify(&tx.inputs[2].prev_tx_output_hash, &key(2).public_key()));
}

#[test]
fn payment_errors() {
    let s = store();
    assert!(matches!(s.create_transaction(&key(7).public_key(), 1501, 0), Err(WalletError::InsufficientFunds)));
    let mut unknown = store();
    let p9 = key(9).public_key();
    unknown.utxos.insert(0, (p9.clone(), vec![(false, out(5, 9, &p9))]));
    assert!(matches!(unknown.create_transaction(&key(7).public_key(), 1, 0), Err(WalletError::KeyNotFound)));
}

#[test]
fn recipients_and_keys_in_the_configuration() {
    let contacts = vec![
        Recipient { name: "Alice".to_string(), key_path: "alice.pub.pem".to_string() },
        Recipient { name: "Bob".to_string(), key_path: "bob.pub.pem".to_string() },
    ];
    assert_eq!(find_recipient(&contacts, "Bob"), Ok(1));
    assert_eq!(find_recipient(&contacts, "Carol"), Err(WalletError::RecipientNotFound));
    assert_eq!(check_has_keys(&vec![]), Err(WalletError::NoKeys));
    let keys = vec![Key { public: "a.pub.pem".to_string(), private: "a.priv.cbor".to_string() }];
    assert_eq!(check_has_keys(&keys), Ok(()));
    assert_ne!(FeeType::Fixed, FeeType::Percent);
}

#[test]
fn set_utxos_replaces_or_appends_the_key_group() {
    let mut s = store();
    let p1 = key(1).public_key();
    let p3 = key(3).public_key();
    s.set_utxos(&p1, vec![(out(50, 9, &p1), true), (out(70, 8, &p1), false)]);
    assert_eq!(s.utxos.len(), 2);
    assert!(s.utxos[0].0.same(&p1));
    assert_eq!(s.utxos[0].1.len(), 2);
    assert!(s.utxos[0].1[0].0);
    assert_eq!(s.utxos[0].1[0].1.amount, 50);
    assert!(!s.utxos[0].1[1].0);
    assert_eq!(s.utxos[0].1[1].1.amount, 70);
    assert_eq!(s.utxos[1].1[0].1.amount, 1000);
    s.set_utxos(&p3, vec![(out(5, 7, &p3), false)]);
    assert_eq!(s.utxos.len(), 3);
    // the new group goes after the leading groups whose keys come before it
    let vk = |pk: &PublicKey| {
        ecdsa::VerifyingKey::<k256::Secp256k1>::from_public_key_der(&pk.der).unwrap()
    };
    let mut at = 0;
    while at < 2 && vk(&[&p1, &key(2).public_key()][at]) < vk(&p3) {
        at += 1;
    }
    assert!(s.utxos[at].0.same(&p3));
    assert_eq!(s.get_balance(), 50 + 70 + 1000 + 5);
    assert_eq!(s.my_keys.len(), 2);
}

#[test]
fn set_utxos_keeps_new_groups_in_key_order() {
    let mut s = UtxoStore::new();
    let keys: Vec<PublicKey> = (1u8..=6).map(|b| key(b).public_key()).collect();
    for k in &keys {
        s.set_utxos(k, vec![(out(1, 1, k), false)]);
    }
    let vks: Vec<_> = s
        .utxos
        .iter()
        .map(|g| ecdsa::VerifyingKey::<k256::Secp256k1>::from_public_key_der(&g.0.der).unwrap())
        .collect();
    assert_eq!(vks.len(), 6);
    for w in vks.windows(2) {
        assert!(w[0] < w[1]);
    }
}
