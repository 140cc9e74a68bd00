use btclib::block::{Block, BlockHeader};
use btclib::blockchain::{min_target, Blockchain};
use btclib::crypto::PrivateKey;
use btclib::error::BtcError;
use btclib::merkle_root::MerkleRoot;
use btclib::time::Timestamp;
use btclib::transaction::{Tx, TxInput, TxOutput, Uuid};
use btclib::u256::U256;
use btclib::utxo_set::UtxoSet;

fn key(byte: u8) -> PrivateKey {
    PrivateKey::from_bytes(vec![byte; 32]).unwrap()
}

fn ts(secs: i64) -> Timestamp {
    Timestamp::new(secs, 0).unwrap()
}

fn zero() -> btclib::sha256::Hash {
    btclib::sha256::Hash::zero()
}

fn coinbase(amount: u64, id: u8, sk: &PrivateKey) -> Tx {
    Tx::new(vec![], vec![TxOutput { amount, unique_id: Uuid([id; 16]), pubkey: sk.public_key() }])
}

fn block(prev: btclib::sha256::Hash, time: i64, txs: Vec<Tx>, target: U256) -> Block {
    let root = MerkleRoot::calculate(&txs);
    Block::new(BlockHeader::new(ts(time), 0, prev, root, target), txs)
}

fn genesis(sk: &PrivateKey) -> Block {
    block(zero(), 1_700_000_000, vec![coinbase(5_000_000_000, 1, sk)], min_target())
}

fn mined(mut b: Block) -> Block {
    while !b.header.mine(100_000) {}
    b
}

fn hex_of(h: &btclib::sha256::Hash) -> String {
    let s = format!("{:016x}{:016x}{:016x}{:016x}", h.0.w3, h.0.w2, h.0.w1, h.0.w0);
    let t = s.trim_start_matches('0');
    if t.is_empty() { "0".to_string() } else { t.to_string() }
}

fn invalid_block_message(r: Result<(), BtcError>) -> String {
    match r {
        Err(BtcError::InvalidBlock(m)) => m,
        other => panic!("expected InvalidBlock, got {:?}", other),
    }
}

#[test]
fn new_chain_is_empty_with_minimum_target() {
    let chain = Blockchain::new();
    assert_eq!(chain.block_height(), 0);
    assert_eq!(chain.target(), min_target());
    assert_eq!(min_target(), U256::from_words(u64::MAX, u64::MAX, u64::MAX, 0x0000_FFFF_FFFF_FFFF));
    assert_eq!(chain.mempool().len(), 0);
    assert_eq!(chain.utxo_set().len(), 0);
    assert_eq!(chain.calculate_block_reward(), 5_000_000_000);
}

#[test]
fn first_block_must_point_to_zero_hash() {
    let sk = key(1);
    let mut chain = Blockchain::new();
    let b = block(btclib::sha256::Hash(U256::from_words(1, 0, 0, 0)), 1, vec![coinbase(5_000_000_000, 1, &sk)], min_target());
    let m = invalid_block_message(chain.add_block(b));
    assert_eq!(m, "First block must have previous block hash set to zero");
    assert_eq!(chain.block_height(), 0);
}

#[test]
fn genesis_block_is_accepted_and_utxo_set_rebuilt() {
    let sk = key(1);
    let mut chain = Blockchain::new();
    let g = genesis(&sk);
    let out_hash = g.transactions[0].outputs[0].hash();
    assert!(chain.add_block(g).is_ok());
    assert_eq!(chain.block_height(), 1);
    // add_block leaves the UTXO set alone; rebuilding fills it
    assert_eq!(chain.utxo_set().len(), 0);
    chain.rebuild_utxo_set();
    assert_eq!(chain.utxo_set().len(), 1);
    let (marked, out) = chain.utxo_set().get(&out_hash).unwrap();
    assert!(!marked);
    assert_eq!(out.amount, 5_000_000_000);
    let mine = chain.utxo_set_for_pubkey(sk.public_key());
    assert_eq!(mine.len(), 1);
    assert_eq!(mine[0].0, out_hash);
    assert_eq!(chain.utxo_set_for_pubkey(key(2).public_key()).len(), 0);
}

#[test]
fn block_without_transactions_is_refused() {
    let mut chain = Blockchain::new();
    let b = block(zero(), 1, vec![], min_target());
    let m = invalid_block_message(chain.add_block(b));
    assert_eq!(m, "No transactions");
}

#[test]
fn coinbase_must_pay_exactly_the_reward() {
    let sk = key(1);
    let mut chain = Blockchain::new();
    let b = block(zero(), 1, vec![coinbase(5_000_000_001, 1, &sk)], min_target());
    match chain.add_block(b) {
        Err(BtcError::InvalidTransaction(m)) => {
            assert_eq!(m, "Outputs in coinbase tx do not equal to block reward + fees")
        }
        other => panic!("unexpected {:?}", other),
    }
    let b = block(zero(), 1, vec![Tx::new(vec![], vec![])], min_target());
    match chain.add_block(b) {
        Err(BtcError::InvalidTransaction(m)) => assert_eq!(m, "Coinbase transaction must have outputs"),
        other => panic!("unexpected {:?}", other),
    }
}

#[test]
fn later_blocks_are_checked_against_the_last_block() {
    let sk = key(1);
    let mut chain = Blockchain::new();
    let g = genesis(&sk);
    let g_hash = g.header.hash();
    chain.add_block(g).unwrap();
    chain.rebuild_utxo_set();

    // wrong previous hash
    let b = block(zero(), 1_700_000_010, vec![coinbase(5_000_000_000, 2, &sk)], min_target());
    assert_eq!(invalid_block_message(chain.add_block(b)), "Previous block hash mismatch");

    // a hash above the target
    let mut b = block(g_hash, 1_700_000_010, vec![coinbase(5_000_000_000, 2, &sk)], min_target());
    while b.header.hash().matches_target(min_target()) {
        b.header.nonce += 1;
    }
    assert_eq!(invalid_block_message(chain.add_block(b)), "Block hash does not match target");

    // a wrong Merkle root
    let mut b = block(g_hash, 1_700_000_010, vec![coinbase(5_000_000_000, 2, &sk)], min_target());
    b.header.merkle_root = MerkleRoot(zero());
    let b = mined(b);
    assert!(matches!(chain.add_block(b), Err(BtcError::InvalidMerkleRoot)));

    // not later than the last block
    let b = mined(block(g_hash, 1_700_000_000, vec![coinbase(5_000_000_000, 2, &sk)], min_target()));
    assert_eq!(
        invalid_block_message(chain.add_block(b)),
        "Block timestamp is not after the previous block's timestamp"
    );
    assert_eq!(chain.block_height(), 1);

    // a good one
    let b = mined(block(g_hash, 1_700_000_010, vec![coinbase(5_000_000_000, 2, &sk)], min_target()));
    assert!(b.header.hash().matches_target(min_target()));
    assert!(chain.add_block(b).is_ok());
    assert_eq!(chain.block_height(), 2);
    chain.rebuild_utxo_set();
    assert_eq!(chain.utxo_set().len(), 2);
}

#[test]
fn spending_transactions_in_a_block() {
    let sk = key(1);
    let other = key(2);
    let mut chain = Blockchain::new();
    let g = genesis(&sk);
    let g_hash = g.header.hash();
    let prev_out = g.transactions[0].outputs[0].hash();
    chain.add_block(g).unwrap();
    chain.rebuild_utxo_set();

    let spend = |sig_key: &PrivateKey, amount: u64| {
        Tx::new(
            vec![TxInput {
                prev_tx_output_hash: prev_out,
                signature: btclib::crypto::Signature::sign_output(&prev_out, sig_key),
            }],
            vec![TxOutput { amount, unique_id: Uuid([5; 16]), pubkey: other.public_key() }],
        )
    };
    // signed with the wrong key
    let b = block(g_hash, 1_700_000_010, vec![coinbase(5_000_000_000, 2, &sk), spend(&other, 1)], min_target());
    assert!(matches!(b.verify_transactions(1, chain.utxo_set()), Err(BtcError::InvalidSignature)));
    // spending more than available
    let b = block(g_hash, 1_700_000_010, vec![coinbase(5_000_000_000, 2, &sk), spend(&sk, 5_000_000_001)], min_target());
    match b.verify_transactions(1, chain.utxo_set()) {
        Err(BtcError::InvalidTransaction(m)) => assert_eq!(m, "Spending more than available"),
        other => panic!("unexpected {:?}", other),
    }
    // the same output twice in one block
    let b = block(
        g_hash,
        1_700_000_010,
        vec![coinbase(5_000_000_000, 2, &sk), spend(&sk, 1), spend(&sk, 2)],
        min_target(),
    );
    let id = uuid::Uuid::from_bytes([1; 16]).to_string();
    match b.verify_transactions(1, chain.utxo_set()) {
        Err(BtcError::InvalidTransaction(m)) => assert_eq!(m, format!("Double spend of the output: {id}")),
        other => panic!("unexpected {:?}", other),
    }
    // an output that does not exist
    let mut missing = spend(&sk, 1);
    missing.inputs[0].prev_tx_output_hash = zero();
    let b = block(g_hash, 1_700_000_010, vec![coinbase(5_000_000_000, 2, &sk), missing], min_target());
    match b.verify_transactions(1, chain.utxo_set()) {
        Err(BtcError::InvalidTransaction(m)) => assert_eq!(m, "Spending output that does not exist: 0"),
        other => panic!("unexpected {:?}", other),
    }
    match b.calculate_miner_fees(chain.utxo_set()) {
        Err(BtcError::InvalidTransaction(m)) => assert_eq!(m, "Spending output that does not exist: 0"),
        other => panic!("unexpected {:?}", other),
    }
    // the fee goes to the coinbase: 5_000_000_000 - 4_000_000_000
    let b = block(
        g_hash,
        1_700_000_010,
        vec![coinbase(6_000_000_000, 2, &sk), spend(&sk, 4_000_000_000)],
        min_target(),
    );
    assert_eq!(b.calculate_miner_fees(chain.utxo_set()).unwrap(), 1_000_000_000);
    assert!(b.verify_transactions(1, chain.utxo_set()).is_ok());
    // the fees the check saw are those the coinbase is accepted with
    let fees = b.calculate_miner_fees(chain.utxo_set()).unwrap();
    assert!(b.verify_coinbase_transaction(1, fees).is_ok());
    assert!(b.verify_coinbase_transaction(1, fees + 1).is_err());
    let b = mined(b);
    assert!(chain.add_block(b).is_ok());
    chain.rebuild_utxo_set();
    // the spent output is gone; the new coinbase and payment are there
    assert!(!chain.utxo_set().contains_key(&prev_out));
    assert_eq!(chain.utxo_set().len(), 2);
}

#[test]
fn hash_text_is_lower_hex_without_leading_zeros() {
    assert_eq!(zero().to_hex(), "0");
    let h = btclib::sha256::Hash(U256::from_words(0xab, 0, 1, 0));
    assert_eq!(h.to_hex(), "1000000000000000000000000000000ab");
    assert_eq!(h.to_hex(), hex_of(&h));
    let g = genesis(&key(1));
    let gh = g.header.hash();
    assert_eq!(gh.to_hex(), hex_of(&gh));
}

#[test]
fn reward_halves_every_halving_interval() {
    fn chain_of(n: usize) -> Blockchain {
        let mut blocks = Vec::new();
        for i in 0..n {
            blocks.push(block(zero(), i as i64, vec![], min_target()));
        }
        Blockchain::from_parts(blocks, UtxoSet::new(), min_target())
    }
    assert_eq!(chain_of(209).calculate_block_reward(), 5_000_000_000);
    assert_eq!(chain_of(210).calculate_block_reward(), 2_500_000_000);
    assert_eq!(chain_of(420).calculate_block_reward(), 1_250_000_000);
    assert_eq!(chain_of(630).calculate_block_reward(), 625_000_000);
}

fn to_decimal(x: &U256) -> bigdecimal::BigDecimal {
    let base = bigdecimal::BigDecimal::from(1u128 << 64);
    let mut v = bigdecimal::BigDecimal::from(x.w3);
    v = v * base.clone() + bigdecimal::BigDecimal::from(x.w2);
    v = v * base.clone() + bigdecimal::BigDecimal::from(x.w1);
    v * base + bigdecimal::BigDecimal::from(x.w0)
}

fn chain_with_interval(target: U256, seconds: i64) -> Blockchain {
    let mut blocks = Vec::new();
    for i in 0..50 {
        // the first block at 1000, the last one `seconds` later
        let t = if i == 49 { 1000 + seconds } else { 1000 + i };
        blocks.push(block(zero(), t, vec![], target));
    }
    Blockchain::from_parts(blocks, UtxoSet::new(), target)
}

fn expected_target(target: &U256, seconds: i64) -> String {
    // the computation as BigDecimal does it: target * (seconds / 500), integer part
    let old = to_decimal(target);
    let scaled = old.clone() * (bigdecimal::BigDecimal::from(seconds) / bigdecimal::BigDecimal::from(500));
    let scaled: bigdecimal::BigDecimal = scaled.to_string().split('.').next().unwrap().parse().unwrap();
    let quarter = to_decimal(&target.div4());
    let four = old * bigdecimal::BigDecimal::from(4);
    let bounded = if scaled < quarter { quarter } else if scaled > four { four } else { scaled };
    let min = to_decimal(&min_target());
    let new = if bounded > min { min } else { bounded };
    new.to_string()
}

#[test]
fn target_adjustment_matches_big_decimal_arithmetic() {
    let small = U256::from_words(0x1234_5678_9abc_def0, 0x0fed_cba9_8765_4321, 0x1111_2222_3333_4444, 0x0000_0000_ffff_ffff);
    for target in [small, min_target().div4(), min_target()] {
        for seconds in [500i64, 499, 501, 250, 1000, 1999, 2000, 2001, 5000, 100, 1, 0] {
            let mut chain = chain_with_interval(target, seconds);
            chain.try_adjust_target();
            let got = to_decimal(&chain.target()).to_string();
            assert_eq!(got, expected_target(&target, seconds), "target {:?}, {} s", target, seconds);
        }
    }
}

#[test]
fn target_is_only_adjusted_every_interval() {
    let target = min_target().div4();
    let mut blocks = Vec::new();
    for i in 0..49 {
        blocks.push(block(zero(), 1000 + 100 * i, vec![], target));
    }
    let mut chain = Blockchain::from_parts(blocks, UtxoSet::new(), target);
    chain.try_adjust_target();
    assert_eq!(chain.target(), target);
    // an ideal interval keeps the target
    let mut chain = chain_with_interval(target, 500);
    chain.try_adjust_target();
    assert_eq!(chain.target(), target);
    // a slow interval raises it, but never above the minimum target
    let mut chain = chain_with_interval(min_target(), 10_000);
    chain.try_adjust_target();
    assert_eq!(chain.target(), min_target());
    // a fast one lowers it by at most 4
    let mut chain = chain_with_interval(target, 1);
    chain.try_adjust_target();
    assert_eq!(chain.target(), target.div4());
}

#[test]
fn rebuilding_twice_gives_the_same_utxo_set() {
    let sk = key(1);
    let mut chain = Blockchain::new();
    let g = genesis(&sk);
    let g_hash = g.header.hash();
    let prev_out = g.transactions[0].outputs[0].hash();
    chain.add_block(g).unwrap();
    chain.rebuild_utxo_set();
    let payment = Tx::new(
        vec![TxInput {
            prev_tx_output_hash: prev_out,
            signature: btclib::crypto::Signature::sign_output(&prev_out, &sk),
        }],
        vec![TxOutput { amount: 4_000_000_000, unique_id: Uuid([5; 16]), pubkey: key(2).public_key() }],
    );
    let b = mined(block(
        g_hash,
        1_700_000_010,
        vec![coinbase(6_000_000_000, 2, &sk), payment],
        min_target(),
    ));
    chain.add_block(b).unwrap();
    chain.rebuild_utxo_set();
    let once: Vec<_> = (0..chain.utxo_set().len()).map(|i| chain.utxo_set().entry(i).0).collect();
    chain.rebuild_utxo_set();
    let twice: Vec<_> = (0..chain.utxo_set().len()).map(|i| chain.utxo_set().entry(i).0).collect();
    assert_eq!(once.len(), 2);
    assert_eq!(once.len(), twice.len());
    for h in &once {
        assert!(twice.contains(h));
        assert!(!chain.utxo_set().get(h).unwrap().0);
    }
    assert!(!chain.utxo_set().contains_key(&prev_out));
}

#[test]
fn target_adjustment_is_defined_unless_it_would_fail() {
    assert!(chain_with_interval(min_target(), 500).target_adjustment_defined());
    // an interval that runs backwards cannot be scaled
    assert!(!chain_with_interval(min_target(), -5).target_adjustment_defined());
    // nor can one whose scaled target exceeds 256 bits
    assert!(!chain_with_interval(min_target(), 500 * 70_000).target_adjustment_defined());
    assert!(chain_with_interval(min_target(), 500 * 60_000).target_adjustment_defined());
    // a chain not due for adjustment is always fine
    let mut blocks = Vec::new();
    for i in 0..7 {
        blocks.push(block(zero(), 1000 - i, vec![], min_target()));
    }
    assert!(Blockchain::from_parts(blocks, UtxoSet::new(), min_target()).target_adjustment_defined());
}

#[test]
fn rebuilding_starts_from_the_blocks_and_flags_mempool_spends() {
    let sk = key(1);
    let g = genesis(&sk);
    let prev_out = g.transactions[0].outputs[0].hash();
    // a UTXO that no block created is dropped by the rebuild
    let mut stray = UtxoSet::new();
    let stray_output = TxOutput { amount: 7, unique_id: Uuid([77; 16]), pubkey: key(2).public_key() };
    let stray_hash = stray_output.hash();
    stray.insert(stray_hash, false, stray_output);
    let mut chain = Blockchain::from_parts(vec![g], stray, min_target());
    chain.rebuild_utxo_set();
    assert!(!chain.utxo_set().contains_key(&stray_hash));
    assert!(chain.utxo_set().contains_key(&prev_out));
    // a mempool transaction spends the coinbase output: after a rebuild it stays flagged
    let payment = Tx::new(
        vec![TxInput {
            prev_tx_output_hash: prev_out,
            signature: btclib::crypto::Signature::sign_output(&prev_out, &sk),
        }],
        vec![TxOutput { amount: 4_000_000_000, unique_id: Uuid([5; 16]), pubkey: key(2).public_key() }],
    );
    chain.add_to_mempool_at(payment, Timestamp::new(1_700_000_005, 0).unwrap()).unwrap();
    assert!(chain.utxo_set().get(&prev_out).unwrap().0);
    chain.rebuild_utxo_set();
    assert!(chain.utxo_set().get(&prev_out).unwrap().0);
    assert_eq!(chain.utxo_set().len(), 1);
}
