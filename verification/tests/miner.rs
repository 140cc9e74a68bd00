use btclib::block::{Block, BlockHeader};
use btclib::blockchain::min_target;
use btclib::merkle_root::MerkleRoot;
use btclib::miner::{MinerState, TickAction};
use btclib::time::Timestamp;

fn template() -> Block {
    let header = BlockHeader::new(
        Timestamp::new(1_700_000_000, 0).unwrap(),
        0,
        btclib::sha256::Hash::zero(),
        MerkleRoot(btclib::sha256::Hash::zero()),
        min_target(),
    );
    Block::new(header, vec![])
}

#[test]
fn miner_fetches_then_validates() {
    let mut m = MinerState::new();
    assert_eq!(m.on_tick(), TickAction::FetchTemplate);
    assert!(m.mine_round(10).is_none());
    m.on_template(template());
    assert_eq!(m.on_tick(), TickAction::ValidateTemplate);
    m.on_validity(true);
    assert!(m.mining);
    m.on_validity(false);
    assert!(!m.mining);
    assert_eq!(m.on_tick(), TickAction::FetchTemplate);
}

#[test]
fn mining_round_finds_a_block_below_the_target() {
    let mut m = MinerState::new();
    m.on_template(template());
    let mut found = None;
    while found.is_none() {
        found = m.mine_round(50_000);
        if found.is_none() {
            // each round starts again from the template, so move the template on
            let mut t = m.template.take().unwrap();
            t.header.nonce += 50_000;
            m.on_template(t);
        }
    }
    let b = found.unwrap();
    assert!(b.header.hash().matches_target(min_target()));
    assert!(!m.mining);
    assert_eq!(m.on_tick(), TickAction::FetchTemplate);
    m.on_submitted();
    assert!(!m.mining);
}
