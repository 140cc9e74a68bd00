use btclib::block::{Block, BlockHeader};
use btclib::blockchain::{min_target, Blockchain};
use btclib::crypto::{PrivateKey, Signature};
use btclib::error::BtcError;
use btclib::merkle_root::MerkleRoot;
use btclib::time::Timestamp;
use btclib::transaction::{Tx, TxInput, TxOutput, Uuid};

fn key(byte: u8) -> PrivateKey {
    PrivateKey::from_bytes(vec![byte; 32]).unwrap()
}

fn ts(secs: i64) -> Timestamp {
    Timestamp::new(secs, 0).unwrap()
}

const T0: i64 = 1_700_000_000;

/// A chain whose genesis block pays three outputs of 1000, 2000 and 3000 sats to `sk`;
/// returns the chain and the three output hashes.
fn funded_chain(sk: &PrivateKey) -> (Blockchain, Vec<btclib::sha256::Hash>) {
    let outputs: Vec<TxOutput> = [1000u64, 2000, 4_999_997_000]
        .iter()
        .enumerate()
        .map(|(i, a)| TxOutput { amount: *a, unique_id: Uuid([i as u8 + 1; 16]), pubkey: sk.public_key() })
        .collect();
    let hashes = outputs.iter().map(|o| o.hash()).collect();
    let txs = vec![Tx::new(vec![], outputs)];
    let root = MerkleRoot::calculate(&txs);
    let g = Block::new(BlockHeader::new(ts(T0), 0, btclib::sha256::Hash::zero(), root, min_target()), txs);
    let mut chain = Blockchain::new();
    chain.add_block(g).unwrap();
    chain.rebuild_utxo_set();
    (chain, hashes)
}

fn spend(sk: &PrivateKey, inputs: &[btclib::sha256::Hash], amounts: &[u64], id: u8) -> Tx {
    Tx::new(
        inputs
            .iter()
            .map(|h| TxInput { prev_tx_output_hash: *h, signature: Signature::sign_output(h, sk) })
            .collect(),
        amounts
            .iter()
            .map(|a| TxOutput { amount: *a, unique_id: Uuid([id; 16]), pubkey: key(9).public_key() })
            .collect(),
    )
}

fn hex_of(h: &btclib::sha256::Hash) -> String {
    let s = format!("{:016x}{:016x}{:016x}{:016x}", h.0.w3, h.0.w2, h.0.w1, h.0.w0);
    let t = s.trim_start_matches('0');
    if t.is_empty() { "0".to_string() } else { t.to_string() }
}

fn message(r: Result<(), BtcError>) -> String {
    match r {
        Err(BtcError::InvalidTransaction(m)) => m,
        other => panic!("expected InvalidTransaction, got {:?}", other),
    }
}

#[test]
fn admitted_transaction_marks_its_inputs() {
    let sk = key(1);
    let (mut chain, hs) = funded_chain(&sk);
    let tx = spend(&sk, &hs[0..1], &[900], 10);
    assert!(chain.add_to_mempool_at(tx, ts(T0 + 5)).is_ok());
    assert_eq!(chain.mempool().len(), 1);
    assert_eq!(chain.mempool()[0].0, ts(T0 + 5));
    assert!(chain.utxo_set().get(&hs[0]).unwrap().0);
    assert!(!chain.utxo_set().get(&hs[1]).unwrap().0);
}

#[test]
fn mempool_refusals() {
    let sk = key(1);
    let (mut chain, hs) = funded_chain(&sk);
    let missing = spend(&sk, &[btclib::sha256::Hash::zero()], &[1], 10);
    let missing_hash = hex_of(&missing.hash());
    assert_eq!(
        message(chain.add_to_mempool_at(missing, ts(T0))),
        format!("Mempool: Spending output that does not exist: 0 in tx: {missing_hash}")
    );
    let twice = spend(&sk, &[hs[0], hs[0]], &[1], 11);
    let twice_hash = hex_of(&twice.hash());
    assert_eq!(
        message(chain.add_to_mempool_at(twice, ts(T0))),
        format!("Mempool: Double spend of the output: {} within a single tx: {twice_hash}", hex_of(&hs[0]))
    );
    let greedy = spend(&sk, &hs[0..2], &[3001], 12);
    assert_eq!(message(chain.add_to_mempool_at(greedy, ts(T0))), "Mempool: Spending more than available");
    assert_eq!(chain.mempool().len(), 0);
    assert!(!chain.utxo_set().get(&hs[0]).unwrap().0);
}

#[test]
fn mempool_is_sorted_by_fee_ascending() {
    let sk = key(1);
    let (mut chain, hs) = funded_chain(&sk);
    // fees: 100, 1500, 100
    chain.add_to_mempool_at(spend(&sk, &hs[0..1], &[900], 10), ts(T0 + 1)).unwrap();
    chain.add_to_mempool_at(spend(&sk, &hs[1..2], &[500], 11), ts(T0 + 2)).unwrap();
    chain.add_to_mempool_at(spend(&sk, &hs[2..3], &[4_999_996_900], 12), ts(T0 + 3)).unwrap();
    let times: Vec<i64> = chain.mempool().iter().map(|e| e.0.secs()).collect();
    // equal fees keep their order of insertion
    assert_eq!(times, vec![T0 + 1, T0 + 3, T0 + 2]);
}

#[test]
fn spending_a_flagged_output_again_replaces_the_older_spender() {
    let sk = key(1);
    let (mut chain, hs) = funded_chain(&sk);
    chain.add_to_mempool_at(spend(&sk, &hs[0..1], &[900], 10), ts(T0 + 1)).unwrap();
    chain.add_to_mempool_at(spend(&sk, &hs[1..2], &[1900], 12), ts(T0 + 1)).unwrap();
    // the older transaction that spends the same output leaves the mempool, and the
    // outputs it spent are unflagged before the new transaction flags its own
    chain.add_to_mempool_at(spend(&sk, &hs[0..1], &[800], 11), ts(T0 + 2)).unwrap();
    assert_eq!(chain.mempool().len(), 2);
    assert!(chain.mempool().iter().any(|e| e.0 == ts(T0 + 2)));
    assert!(chain.mempool().iter().all(|e| e.1.outputs[0].amount != 900));
    assert!(chain.utxo_set().get(&hs[0]).unwrap().0);
    assert!(chain.utxo_set().get(&hs[1]).unwrap().0);
}

#[test]
fn cleanup_removes_stale_transactions_and_clears_their_flags() {
    let sk = key(1);
    let (mut chain, hs) = funded_chain(&sk);
    chain.add_to_mempool_at(spend(&sk, &hs[0..1], &[900], 10), ts(T0)).unwrap();
    chain.add_to_mempool_at(spend(&sk, &hs[1..2], &[1900], 11), ts(T0 + 100)).unwrap();
    // exactly 600 s is not too old
    chain.cleanup_mempool_at(ts(T0 + 600));
    assert_eq!(chain.mempool().len(), 2);
    chain.cleanup_mempool_at(Timestamp::new(T0 + 600, 1).unwrap());
    assert_eq!(chain.mempool().len(), 1);
    assert_eq!(chain.mempool()[0].0, ts(T0 + 100));
    assert!(!chain.utxo_set().get(&hs[0]).unwrap().0);
    assert!(chain.utxo_set().get(&hs[1]).unwrap().0);
    chain.cleanup_mempool();
    assert_eq!(chain.mempool().len(), 0);
    assert!(!chain.utxo_set().get(&hs[1]).unwrap().0);
}

#[test]
fn mined_transactions_leave_the_mempool() {
    let sk = key(1);
    let (mut chain, hs) = funded_chain(&sk);
    let tx = spend(&sk, &hs[0..1], &[900], 10);
    let kept = spend(&sk, &hs[1..2], &[1900], 11);
    chain.add_to_mempool_at(tx.clone(), ts(T0 + 1)).unwrap();
    chain.add_to_mempool_at(kept.clone(), ts(T0 + 2)).unwrap();
    let prev = chain.blocks()[0].header.hash();
    let coinbase = Tx::new(
        vec![],
        vec![TxOutput { amount: 2_500_000_100, unique_id: Uuid([50; 16]), pubkey: sk.public_key() }],
    );
    let txs = vec![coinbase, tx];
    let root = MerkleRoot::calculate(&txs);
    let mut b = Block::new(BlockHeader::new(ts(T0 + 30), 0, prev, root, min_target()), txs);
    // the reward at height 1 is still the full one
    assert!(b.verify_transactions(1, chain.utxo_set()).is_err());
    b.transactions[0] = Tx::new(
        vec![],
        vec![TxOutput { amount: 5_000_000_100, unique_id: Uuid([50; 16]), pubkey: sk.public_key() }],
    );
    b.header.merkle_root = MerkleRoot::calculate(&b.transactions);
    while !b.header.mine(100_000) {}
    assert!(chain.add_block(b).is_ok());
    assert_eq!(chain.mempool().len(), 1);
    assert_eq!(chain.mempool()[0].1.hash(), kept.hash());
}

#[test]
fn transactions_offered_now_are_stamped_with_the_clock() {
    let sk = key(1);
    let (mut chain, hs) = funded_chain(&sk);
    let before = Timestamp::now();
    chain.add_to_mempool(spend(&sk, &hs[0..1], &[900], 10)).unwrap();
    let after = Timestamp::now();
    let stamped = chain.mempool()[0].0;
    assert!(!before.gt(&stamped));
    assert!(!stamped.gt(&after));
}

#[test]
fn cleanup_keeps_the_fee_order_and_the_flags() {
    let sk = key(1);
    let (mut chain, hs) = funded_chain(&sk);
    // fees: 100 (stale later), 1500, 100
    chain.add_to_mempool_at(spend(&sk, &hs[0..1], &[900], 10), ts(T0)).unwrap();
    chain.add_to_mempool_at(spend(&sk, &hs[1..2], &[500], 11), ts(T0 + 300)).unwrap();
    chain.add_to_mempool_at(spend(&sk, &hs[2..3], &[4_999_996_900], 12), ts(T0 + 301)).unwrap();
    chain.cleanup_mempool_at(ts(T0 + 650));
    let times: Vec<i64> = chain.mempool().iter().map(|e| e.0.secs()).collect();
    assert_eq!(times, vec![T0 + 301, T0 + 300]);
    // a UTXO is flagged exactly when a mempool transaction spends it
    assert!(!chain.utxo_set().get(&hs[0]).unwrap().0);
    assert!(chain.utxo_set().get(&hs[1]).unwrap().0);
    assert!(chain.utxo_set().get(&hs[2]).unwrap().0);
}
