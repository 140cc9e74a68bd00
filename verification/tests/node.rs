use btclib::block::{Block, BlockHeader};
use btclib::blockchain::{min_target, Blockchain};
use btclib::crypto::{PrivateKey, Signature};
use btclib::merkle_root::MerkleRoot;
use btclib::network::Message;
use btclib::node::{
    block_template, blocks_from, broadcast_targets, find_longest_chain_node, handle_message, height_difference, receive_item,
    should_connect, validate_template, ItemReaction, Reaction, SubscriptionItem,
};
use btclib::time::Timestamp;
use btclib::transaction::{Tx, TxInput, TxOutput, Uuid};

fn key(byte: u8) -> PrivateKey {
    PrivateKey::from_bytes(vec![byte; 32]).unwrap()
}

fn ts(secs: i64) -> Timestamp {
    Timestamp::new(secs, 0).unwrap()
}

const T0: i64 = 1_700_000_000;

fn funded_chain(sk: &PrivateKey) -> (Blockchain, btclib::sha256::Hash) {
    let out = TxOutput { amount: 5_000_000_000, unique_id: Uuid([1; 16]), pubkey: sk.public_key() };
    let h = out.hash();
    let txs = vec![Tx::new(vec![], vec![out])];
    let root = MerkleRoot::calculate(&txs);
    let g = Block::new(BlockHeader::new(ts(T0), 0, btclib::sha256::Hash::zero(), root, min_target()), txs);
    let mut chain = Blockchain::new();
    chain.add_block(g).unwrap();
    chain.rebuild_utxo_set();
    (chain, h)
}

fn payment(sk: &PrivateKey, prev: btclib::sha256::Hash, amount: u64) -> Tx {
    Tx::new(
        vec![TxInput { prev_tx_output_hash: prev, signature: Signature::sign_output(&prev, sk) }],
        vec![TxOutput { amount, unique_id: Uuid([7; 16]), pubkey: key(2).public_key() }],
    )
}

#[test]
fn template_pays_reward_and_fees_to_the_miner() {
    let sk = key(1);
    let miner = key(3);
    let (mut chain, h) = funded_chain(&sk);
    chain.add_to_mempool_at(payment(&sk, h, 4_999_999_000), ts(T0 + 1)).unwrap();
    let t = block_template(&chain, &miner.public_key(), Uuid([9; 16]), ts(T0 + 20), 1).unwrap();
    assert_eq!(t.transactions.len(), 2);
    let coinbase = &t.transactions[0];
    assert_eq!(coinbase.inputs.len(), 0);
    assert_eq!(coinbase.outputs[0].amount, 5_000_000_000 + 1000);
    assert!(coinbase.outputs[0].pubkey.same(&miner.public_key()));
    assert_eq!(t.header.prev_block_hash, chain.blocks()[0].header.hash());
    assert_eq!(t.header.merkle_root, MerkleRoot::calculate(&t.transactions));
    assert_eq!(t.header.target, chain.target());
    assert_eq!(t.header.nonce, 0);
    assert!(t.verify_transactions(1, chain.utxo_set()).is_ok());
    // the template's coinbase is not in the mempool, so it is never reported valid
    assert!(!validate_template(&chain, &t));
}

#[test]
fn template_takes_at_most_twenty_mempool_transactions() {
    let sk = key(1);
    let outputs: Vec<TxOutput> = (0..25u8)
        .map(|i| TxOutput { amount: 200_000_000, unique_id: Uuid([i; 16]), pubkey: sk.public_key() })
        .collect();
    let hashes: Vec<_> = outputs.iter().map(|o| o.hash()).collect();
    let txs = vec![Tx::new(vec![], outputs)];
    let root = MerkleRoot::calculate(&txs);
    let g = Block::new(BlockHeader::new(ts(T0), 0, btclib::sha256::Hash::zero(), root, min_target()), txs);
    let mut chain = Blockchain::new();
    chain.add_block(g).unwrap();
    chain.rebuild_utxo_set();
    for (i, h) in hashes.iter().enumerate() {
        chain.add_to_mempool_at(payment(&sk, *h, 199_999_990), ts(T0 + 1 + i as i64)).unwrap();
    }
    assert_eq!(chain.mempool().len(), 25);
    let t = block_template(&chain, &key(3).public_key(), Uuid([9; 16]), ts(T0 + 99), 1).unwrap();
    assert_eq!(t.transactions.len(), 21);
    assert_eq!(t.transactions[0].outputs[0].amount, 5_000_000_000 + 20 * 10);
}

#[test]
fn template_on_an_empty_chain_points_to_zero_hash() {
    let chain = Blockchain::new();
    let t = block_template(&chain, &key(3).public_key(), Uuid([9; 16]), ts(T0), 0).unwrap();
    assert_eq!(t.header.prev_block_hash, btclib::sha256::Hash::zero());
    assert_eq!(t.transactions[0].outputs[0].amount, 5_000_000_000);
    assert!(!validate_template(&chain, &t));
}

#[test]
fn template_of_mempool_transactions_only_is_valid() {
    let sk = key(1);
    let (mut chain, h) = funded_chain(&sk);
    let tx = payment(&sk, h, 4_999_999_000);
    chain.add_to_mempool_at(tx.clone(), ts(T0 + 1)).unwrap();
    let prev = chain.blocks()[0].header.hash();
    let txs = vec![tx];
    let root = MerkleRoot::calculate(&txs);
    let b = Block::new(BlockHeader::new(ts(T0 + 2), 0, prev, root, min_target()), txs);
    assert!(validate_template(&chain, &b));
    let stale = Block::new(BlockHeader::new(ts(T0 + 2), 0, btclib::sha256::Hash::zero(), root, min_target()), vec![]);
    assert!(!validate_template(&chain, &stale));
}

#[test]
fn longest_chain_is_the_first_with_the_most_blocks() {
    let reports = vec![("a".to_string(), 3), ("b".to_string(), 5), ("c".to_string(), 5), ("d".to_string(), -2)];
    assert_eq!(find_longest_chain_node(&reports), Some(("b".to_string(), 5)));
    let none = vec![("a".to_string(), 0), ("b".to_string(), -1)];
    assert_eq!(find_longest_chain_node(&none), None);
    assert_eq!(find_longest_chain_node(&vec![]), None);
}

#[test]
fn height_difference_and_peer_selection() {
    let (chain, _) = funded_chain(&key(1));
    assert_eq!(height_difference(&chain, 0), 1);
    assert_eq!(height_difference(&chain, 4), -3);
    let known = vec!["b:1".to_string()];
    assert!(should_connect(&"a:1".to_string(), &"me:9".to_string(), &known));
    assert!(!should_connect(&"b:1".to_string(), &"me:9".to_string(), &known));
    assert!(!should_connect(&"me:9".to_string(), &"me:9".to_string(), &known));
}

#[test]
fn node_messages() {
    let sk = key(1);
    let (mut chain, h) = funded_chain(&sk);
    let now = ts(T0 + 10);
    match handle_message(&mut chain, Message::AskDifference(0), now, Uuid([0; 16])) {
        Reaction::Reply(Message::Difference(d)) => assert_eq!(d, 1),
        _ => panic!("expected a difference"),
    }
    match handle_message(&mut chain, Message::FetchBlock(0), now, Uuid([0; 16])) {
        Reaction::Reply(Message::NewBlock(b)) => assert_eq!(b.header, chain.blocks()[0].header),
        _ => panic!("expected the block"),
    }
    assert!(matches!(handle_message(&mut chain, Message::FetchBlock(1), now, Uuid([0; 16])), Reaction::Close));
    assert!(matches!(handle_message(&mut chain, Message::Difference(1), now, Uuid([0; 16])), Reaction::Close));
    assert!(matches!(handle_message(&mut chain, Message::DiscoverNodes, now, Uuid([0; 16])), Reaction::ReplyNodeList));
    match handle_message(&mut chain, Message::FetchUTXOs(sk.public_key()), now, Uuid([0; 16])) {
        Reaction::Reply(Message::UTXOs(list)) => {
            assert_eq!(list.len(), 1);
            assert_eq!(list[0].0.amount, 5_000_000_000);
            assert!(!list[0].1);
        }
        _ => panic!("expected UTXOs"),
    }
    let tx = payment(&sk, h, 4_999_999_000);
    match handle_message(&mut chain, Message::SubmitTransaction(tx), now, Uuid([0; 16])) {
        Reaction::Broadcast(Message::NewTransaction(_)) => {}
        _ => panic!("expected a broadcast"),
    }
    assert_eq!(chain.mempool().len(), 1);
    // a submitted transaction that the mempool refuses closes the connection, unbroadcast
    let refused = payment(&sk, btclib::sha256::Hash::zero(), 1);
    assert!(matches!(handle_message(&mut chain, Message::SubmitTransaction(refused), now, Uuid([0; 16])), Reaction::Close));
    assert_eq!(chain.mempool().len(), 1);
    // a second spend of a missing output closes the connection
    let bad = payment(&sk, btclib::sha256::Hash::zero(), 1);
    assert!(matches!(handle_message(&mut chain, Message::NewTransaction(bad), now, Uuid([0; 16])), Reaction::Close));
    match handle_message(&mut chain, Message::FetchTemplate(key(3).public_key()), now, Uuid([4; 16])) {
        Reaction::Reply(Message::Template(t)) => {
            assert_eq!(t.transactions.len(), 2);
            assert_eq!(t.transactions[0].outputs[0].amount, 5_000_001_000);
            let mut mined = t;
            while !mined.header.mine(100_000) {}
            match handle_message(&mut chain, Message::SubmitTemplate(mined), now, Uuid([0; 16])) {
                Reaction::Broadcast(Message::NewBlock(_)) => {}
                _ => panic!("expected the block to be broadcast"),
            }
        }
        _ => panic!("expected a template"),
    }
    assert_eq!(chain.block_height(), 2);
    assert_eq!(chain.mempool().len(), 0);
    // the UTXO set was rebuilt: the payment and the new coinbase output are there
    assert_eq!(chain.utxo_set().len(), 2);
}

#[test]
fn subscription_items() {
    let sk = key(1);
    let (mut chain, h) = funded_chain(&sk);
    let tx = payment(&sk, h, 4_999_999_000);
    match receive_item(&mut chain, SubscriptionItem::Transaction(tx), ts(T0 + 1)) {
        ItemReaction::Broadcast(SubscriptionItem::Transaction(_)) => {}
        _ => panic!("expected a broadcast"),
    }
    let bad = payment(&sk, btclib::sha256::Hash::zero(), 1);
    assert!(matches!(receive_item(&mut chain, SubscriptionItem::Transaction(bad), ts(T0 + 2)), ItemReaction::Close(_)));
    let stale = chain.blocks()[0].clone();
    assert!(matches!(receive_item(&mut chain, SubscriptionItem::Block(stale), ts(T0 + 3)), ItemReaction::Skip));
}

#[test]
fn blocks_from_returns_the_requested_window() {
    let (chain, _) = funded_chain(&key(1));
    let all = blocks_from(&chain, 0, 10);
    assert_eq!(all.len(), 1);
    assert_eq!(all[0].header.hash(), chain.blocks()[0].header.hash());
    assert_eq!(blocks_from(&chain, 0, 0).len(), 0);
    assert_eq!(blocks_from(&chain, 1, 5).len(), 0);
    assert_eq!(blocks_from(&chain, 7, 5).len(), 0);
}

#[test]
fn broadcast_skips_the_source_peer() {
    let subs = vec!["a:1".to_string(), "b:2".to_string(), "c:3".to_string()];
    assert_eq!(broadcast_targets(&subs, &Some("b:2".to_string())), vec!["a:1".to_string(), "c:3".to_string()]);
    assert_eq!(broadcast_targets(&subs, &None), subs);
    assert_eq!(broadcast_targets(&subs, &Some("z:9".to_string())), subs);
}

#[test]
fn template_takes_the_highest_fee_transactions() {
    let sk = key(1);
    let outputs: Vec<TxOutput> = (0..25u8)
        .map(|i| TxOutput { amount: 200_000_000, unique_id: Uuid([i; 16]), pubkey: sk.public_key() })
        .collect();
    let hashes: Vec<_> = outputs.iter().map(|o| o.hash()).collect();
    let txs = vec![Tx::new(vec![], outputs)];
    let root = MerkleRoot::calculate(&txs);
    let g = Block::new(BlockHeader::new(ts(T0), 0, btclib::sha256::Hash::zero(), root, min_target()), txs);
    let mut chain = Blockchain::new();
    chain.add_block(g).unwrap();
    chain.rebuild_utxo_set();
    // fee of transaction i is i + 1
    for (i, h) in hashes.iter().enumerate() {
        chain.add_to_mempool_at(payment(&sk, *h, 200_000_000 - 1 - i as u64), ts(T0 + 1 + i as i64)).unwrap();
    }
    let t = block_template(&chain, &key(3).public_key(), Uuid([9; 16]), ts(T0 + 99), 1).unwrap();
    assert_eq!(t.transactions.len(), 21);
    // fees 6..=25 are the twenty highest
    let fees: u64 = (6..=25).sum();
    assert_eq!(t.transactions[0].outputs[0].amount, 5_000_000_000 + fees);
    for tx in &t.transactions[1..] {
        assert!(tx.outputs[0].amount <= 200_000_000 - 6);
    }
}
