//! The chain: its blocks, the UTXO set, the difficulty target and the mempool.
use vstd::prelude::*;
use vstd::arithmetic::div_mod::lemma_hoist_over_denominator;

use crate::block::{
    header_hash, reports, subsidy, verify_outcome, Block, BlockV, Failure, UtxoMap,
    HALVING_INTERVAL, INITIAL_REWARD, SATS_PER_BTC,
};
use crate::crypto::PublicKey;
use crate::error::BtcError;
use crate::mempool::{
    admitted_mempool, admitted_utxos, check_offered_inputs, entries_view, fee_defined,
    fresh_entries, input_amount, lemma_offered_failure_kinds, offer_defined, offer_error,
    offer_rejection, offer_reported, replace_for_inputs, replaced, set_flags, set_hash_flags,
    set_input_flags, sort_entries_by_fee, split_stale, stale_input_hashes, EntryV,
    MempoolEntry, sorted_by_fee, fee_of, is_stale, lemma_set_flags, lemma_filter_sorted,
    lemma_fee_ignores_flags, input_hashes, lemma_set_flags_append, spent_in, flags_track,
    spends_disjoint, lemma_admitted, lemma_admission_tracks_flags,
};
use crate::merkle_root::{merkle_root_of, MerkleRoot};
use crate::time::{nanos_between, whole_seconds, Timestamp};
use crate::transaction::{output_hash, tx_hash, InputV, OutputV, Tx, TxInput, TxV};
use crate::u256::{u256_modulus, U256};
use crate::utxo_set::{keys_unique, UtxoEntry, UtxoSet};

verus! {

/// Ideal block time in seconds
pub const IDEAL_BLOCK_TIME: u64 = 10;

/// Difficulty update interval in blocks
pub const DIFFICULTY_UPDATE_INTERVAL: u64 = 50;

/// Maximum mempool transaction age in seconds
pub const MAX_MEMPOOL_TRANSACTION_AGE: u64 = 600;

/// Maximum amount of transactions allowed in a block
pub const BLOCK_TRANSACTION_CAP: usize = 20;

/// The minimum target (little-endian: the first 2 bytes are zero), that is 2^240 - 1.
pub open spec fn spec_min_target() -> U256 {
    U256 {
        w0: 0xFFFF_FFFF_FFFF_FFFF,
        w1: 0xFFFF_FFFF_FFFF_FFFF,
        w2: 0xFFFF_FFFF_FFFF_FFFF,
        w3: 0x0000_FFFF_FFFF_FFFF,
    }
}

/// Minimum target (little-endian: the first 2 bytes are zero)
#[verifier::when_used_as_spec(spec_min_target)]
pub fn min_target() -> (r: U256)
    ensures
        r == spec_min_target(),
{
    U256 {
        w0: 0xFFFF_FFFF_FFFF_FFFF,
        w1: 0xFFFF_FFFF_FFFF_FFFF,
        w2: 0xFFFF_FFFF_FFFF_FFFF,
        w3: 0x0000_FFFF_FFFF_FFFF,
    }
}

/// What a chain stands for.
pub struct ChainV {
    pub blocks: Seq<BlockV>,
    pub utxos: UtxoMap,
    pub target: U256,
    pub mempool: Seq<EntryV>,
}

/// The chain: blocks, the UTXO set (each output with a flag that is set while a transaction
/// in the mempool spends it), the current difficulty target and the mempool.
#[derive(Debug)]
pub struct Blockchain {
    blocks: Vec<Block>,
    utxo_set: UtxoSet,
    target: U256,
    mempool: Vec<MempoolEntry>,
}

/// The views of blocks.
pub open spec fn blocks_view(s: Seq<Block>) -> Seq<BlockV> {
    s.map_values(|b: Block| b@)
}

impl View for Blockchain {
    type V = ChainV;

    closed spec fn view(&self) -> ChainV {
        ChainV {
            blocks: blocks_view(self.blocks@),
            utxos: self.utxo_set.spec_map(),
            target: self.target,
            mempool: entries_view(self.mempool@),
        }
    }
}

// ---------------------------------------------------------------------------------------
// Difficulty adjustment

/// The target is adjusted when the chain has a positive multiple of the update interval
/// of blocks.
pub open spec fn adjustment_due(n: int) -> bool {
    n > 0 && n % (DIFFICULTY_UPDATE_INTERVAL as int) == 0
}

/// Whole seconds between the first and the last of the last `DIFFICULTY_UPDATE_INTERVAL`
/// blocks.
pub open spec fn interval_seconds(blocks: Seq<BlockV>) -> int {
    whole_seconds(
        nanos_between(
            blocks[blocks.len() - DIFFICULTY_UPDATE_INTERVAL as int].header.timestamp,
            blocks.last().header.timestamp,
        ),
    )
}

/// Ideal time of one update interval, in seconds.
pub open spec fn ideal_interval_seconds() -> int {
    (IDEAL_BLOCK_TIME * DIFFICULTY_UPDATE_INTERVAL) as int
}

/// `target * actual / ideal`, its fractional part dropped.
pub open spec fn scaled_target(target: int, seconds: int) -> int {
    target * seconds / ideal_interval_seconds()
}

/// The scaled target kept within a factor of 4 of the old target, then capped at the
/// minimum target.
pub open spec fn clamp_target(target: int, scaled: int) -> int {
    let bounded = if scaled < target / 4 {
        target / 4
    } else if scaled > target * 4 {
        target * 4
    } else {
        scaled
    };
    if bounded <= min_target().value() {
        bounded
    } else {
        min_target().value()
    }
}

/// The adjustment can be computed: the interval is not negative (or the target is zero),
/// the scaled target fits in 256 bits, and so does four times the target where it is
/// compared.
pub open spec fn adjustment_defined(blocks: Seq<BlockV>, target: U256) -> bool {
    adjustment_due(blocks.len() as int) ==> {
        let s = interval_seconds(blocks);
        let scaled = scaled_target(target.value(), s);
        &&& (s >= 0 || target.value() == 0)
        &&& scaled < u256_modulus()
        &&& (scaled >= target.value() / 4 ==> target.value() * 4 < u256_modulus())
    }
}

/// An adjustment looks only at the last update interval: at an adjustment the new target is
/// the old one scaled by the whole seconds from the first to the last of the last
/// `DIFFICULTY_UPDATE_INTERVAL` blocks (clamped), and putting whole intervals of blocks in
/// front of them changes nothing.
pub proof fn lemma_adjustment_uses_last_interval(pre: Seq<BlockV>, blocks: Seq<BlockV>, target: U256)
    requires
        blocks.len() > 0,
        (blocks.len() as int) % 50 == 0,
        (pre.len() as int) % (DIFFICULTY_UPDATE_INTERVAL as int) == 0,
    ensures
        ({
            let t = target.value();
            let scaled = t * whole_seconds(
                nanos_between(
                    blocks[blocks.len() - 50].header.timestamp,
                    blocks[blocks.len() - 1].header.timestamp,
                ),
            ) / 500;
            let bounded = if scaled < t / 4 {
                t / 4
            } else if scaled > t * 4 {
                t * 4
            } else {
                scaled
            };
            adjusted_target(blocks, target) == if bounded <= min_target().value() {
                bounded
            } else {
                min_target().value()
            }
        }),
        adjustment_due((pre + blocks).len() as int),
        adjusted_target(pre + blocks, target) == adjusted_target(blocks, target),
{
    let all = pre + blocks;
    let n = blocks.len() as int;
    assert(all.len() == pre.len() + n);
    assert(n >= 50);
    assert(all[all.len() - 50] == blocks[n - 50]);
    assert(all.last() == blocks[n - 1]);
    assert(blocks.last() == blocks[n - 1]);
    assert(ideal_interval_seconds() == 500);
}

/// Between adjustments the target stays: unless the chain has a positive multiple of 50
/// blocks, the target after an adjustment attempt is the target before it.
pub proof fn lemma_no_adjustment_between(blocks: Seq<BlockV>, target: U256)
    requires
        blocks.len() == 0 || (blocks.len() as int) % 50 != 0,
    ensures
        adjusted_target(blocks, target) == target.value(),
{
}

/// The value of the target after an adjustment attempt on a chain with these blocks.
pub open spec fn adjusted_target(blocks: Seq<BlockV>, target: U256) -> int {
    if adjustment_due(blocks.len() as int) {
        clamp_target(target.value(), scaled_target(target.value(), interval_seconds(blocks)))
    } else {
        target.value()
    }
}

/// `target * seconds / ideal`, its fractional part dropped; `None` when it does not fit in
/// 256 bits.
fn checked_scale_target(target: &U256, seconds: i64) -> (r: Option<U256>)
    requires
        seconds >= 0 || target.value() == 0,
    ensures
        match r {
            Some(s) => s.value() == scaled_target(target.value(), seconds as int)
                && scaled_target(target.value(), seconds as int) < u256_modulus(),
            None => scaled_target(target.value(), seconds as int) >= u256_modulus(),
        },
{
    if seconds <= 0 {
        assert(target.value() * seconds == 0) by (nonlinear_arith)
            requires
                seconds == 0 || target.value() == 0,
        ;
        return Some(U256::zero());
    }
    let t: u64 = seconds as u64;
    let (q, rem) = target.div_rem_small(500);
    assert((rem as u128) * (t as u128) < 500 * 0x1_0000_0000_0000_0000) by (nonlinear_arith)
        requires
            rem < 500,
            t < 0x1_0000_0000_0000_0000,
    ;
    let prod: u128 = (rem as u128) * (t as u128);
    assert(prod / 500 < 0x1_0000_0000_0000_0000) by (nonlinear_arith)
        requires
            prod < 500 * 0x1_0000_0000_0000_0000,
    ;
    let extra: u64 = (prod / 500) as u64;
    proof {
        let v = target.value();
        assert(v * t == (q.value() * t) * 500 + rem * t) by (nonlinear_arith)
            requires
                q.value() * 500 + rem == v,
        ;
        lemma_hoist_over_denominator(rem * t, q.value() * t, 500);
        assert(ideal_interval_seconds() == 500);
        assert(scaled_target(v, seconds as int) == q.value() * t + extra);
        assert(0 <= rem * t) by (nonlinear_arith)
            requires
                rem >= 0,
                t >= 0,
        ;
        assert(q.value() * t >= 0) by (nonlinear_arith)
            requires
                q.value() >= 0,
                t >= 0,
        ;
    }
    match q.checked_mul_small(t) {
        Some(qt) => qt.checked_add_small(extra),
        None => None,
    }
}

/// `target * seconds / ideal`, its fractional part dropped.
fn scale_target(target: &U256, seconds: i64) -> (r: U256)
    requires
        seconds >= 0 || target.value() == 0,
        scaled_target(target.value(), seconds as int) < u256_modulus(),
    ensures
        r.value() == scaled_target(target.value(), seconds as int),
{
    match checked_scale_target(target, seconds) {
        Some(s) => s,
        None => {
            assert(false);
            U256::zero()
        },
    }
}

// ---------------------------------------------------------------------------------------
// Block acceptance

/// Why a block is refused.
#[derive(Clone, Copy, Debug, PartialEq, Eq, Structural)]
pub enum Rejection {
    FirstBlockPrevHash,
    PrevHashMismatch,
    TargetMismatch,
    MerkleRootMismatch,
    TimestampNotAfter,
    Transactions(Failure),
}

/// The zero hash.
pub open spec fn zero_hash() -> crate::sha256::Hash {
    crate::sha256::Hash(U256 { w0: 0, w1: 0, w2: 0, w3: 0 })
}

/// Outcome of checking the transactions of a block at the next height of the chain.
pub open spec fn tx_rejection(c: ChainV, b: BlockV) -> Option<Rejection> {
    match verify_outcome(b.transactions, c.blocks.len() as u64, c.utxos) {
        Some(f) => Some(Rejection::Transactions(f)),
        None => None,
    }
}

/// Why the chain refuses a block, checked in order; `None` when it accepts it. The first
/// block must point to the zero hash; a later one must point to the hash of the last block,
/// have a hash below the last block's target, carry the Merkle root of its
/// transactions and be later than the last block. Its transactions must be valid.
pub open spec fn block_rejection(c: ChainV, b: BlockV) -> Option<Rejection> {
    if c.blocks.len() == 0 {
        if b.header.prev_block_hash != zero_hash() {
            Some(Rejection::FirstBlockPrevHash)
        } else {
            tx_rejection(c, b)
        }
    } else {
        let last = c.blocks.last().header;
        if b.header.prev_block_hash != header_hash(last) {
            Some(Rejection::PrevHashMismatch)
        } else if !(header_hash(b.header).0.value() < last.target.value()) {
            Some(Rejection::TargetMismatch)
        } else if b.header.merkle_root != merkle_root_of(b.transactions) {
            Some(Rejection::MerkleRootMismatch)
        } else if !(nanos_between(last.timestamp, b.header.timestamp) > 0) {
            Some(Rejection::TimestampNotAfter)
        } else {
            tx_rejection(c, b)
        }
    }
}

/// The error `e` is the one that reports the rejection `r` by a chain with the UTXO map
/// `utxos`.
pub open spec fn rejection_reported(e: BtcError, r: Rejection, utxos: UtxoMap) -> bool {
    match r {
        Rejection::FirstBlockPrevHash => e matches BtcError::InvalidBlock(m) && m@
            == "First block must have previous block hash set to zero"@,
        Rejection::PrevHashMismatch => e matches BtcError::InvalidBlock(m) && m@
            == "Previous block hash mismatch"@,
        Rejection::TargetMismatch => e matches BtcError::InvalidBlock(m) && m@
            == "Block hash does not match target"@,
        Rejection::MerkleRootMismatch => e is InvalidMerkleRoot,
        Rejection::TimestampNotAfter => e matches BtcError::InvalidBlock(m) && m@
            == "Block timestamp is not after the previous block's timestamp"@,
        Rejection::Transactions(f) => reports(e, f, utxos),
    }
}

/// Hashes of a sequence of transactions.
pub open spec fn tx_hashes(txs: Seq<TxV>) -> Seq<crate::sha256::Hash> {
    txs.map_values(|t: TxV| tx_hash(t))
}

/// The mempool entries whose transaction is not among the block's transactions.
pub open spec fn mempool_after_block(mempool: Seq<EntryV>, b: BlockV) -> Seq<EntryV> {
    mempool.filter(|e: EntryV| !tx_hashes(b.transactions).contains(tx_hash(e.1)))
}

/// Hashes of the transactions.
fn tx_hash_list(txs: &Vec<Tx>) -> (r: Vec<crate::sha256::Hash>)
    ensures
        r@ == tx_hashes(txs@.map_values(|t: Tx| t@)),
{
    let ghost all = txs@.map_values(|t: Tx| t@);
    let mut r: Vec<crate::sha256::Hash> = Vec::new();
    let mut k: usize = 0;
    while k < txs.len()
        invariant
            k <= txs@.len(),
            all == txs@.map_values(|t: Tx| t@),
            r@ == tx_hashes(all.take(k as int)),
        decreases txs@.len() - k,
    {
        r.push(txs[k].hash());
        k = k + 1;
        assert(r@ =~= tx_hashes(all.take(k as int)));
    }
    assert(all.take(k as int) =~= all);
    r
}

/// The entries whose transaction hash is not among `mined`.
fn retain_unmined(mempool: &Vec<MempoolEntry>, mined: &Vec<crate::sha256::Hash>) -> (r: Vec<MempoolEntry>)
    ensures
        entries_view(r@) == entries_view(mempool@).filter(
            |e: EntryV| !mined@.contains(tx_hash(e.1)),
        ),
{
    let ghost all = entries_view(mempool@);
    let ghost pred = |e: EntryV| !mined@.contains(tx_hash(e.1));
    let mut kept: Vec<MempoolEntry> = Vec::new();
    let mut k: usize = 0;
    while k < mempool.len()
        invariant
            k <= mempool@.len(),
            all == entries_view(mempool@),
            pred == (|e: EntryV| !mined@.contains(tx_hash(e.1))),
            entries_view(kept@) == all.take(k as int).filter(pred),
        decreases mempool@.len() - k,
    {
        let entry = &mempool[k];
        assert(all.take(k + 1).drop_last() =~= all.take(k as int));
        assert(all[k as int] == (entry.0, entry.1@));
        let h = entry.1.hash();
        let found = crate::block::contains_hash(mined, &h);
        assert(pred(all[k as int]) == !found);
        assert(all.take(k + 1).last() == all[k as int]);
        assert(all.take(k + 1).filter(pred) == if pred(all[k as int]) {
            all.take(k as int).filter(pred).push(all[k as int])
        } else {
            all.take(k as int).filter(pred)
        }) by {
            reveal(Seq::filter);
        }
        if !found {
            let ghost before = kept@;
            kept.push((entry.0, entry.1.clone()));
            assert(entries_view(kept@) =~= entries_view(before).push(all[k as int]));
        }
        k = k + 1;
    }
    assert(all.take(k as int) =~= all);
    kept
}

// ---------------------------------------------------------------------------------------
// Rebuilding the UTXO set

/// The map with the outputs that the inputs spend removed, in order.
pub open spec fn spend_inputs(m: UtxoMap, inputs: Seq<InputV>) -> UtxoMap
    decreases inputs.len(),
{
    if inputs.len() == 0 {
        m
    } else {
        spend_inputs(m, inputs.drop_last()).remove(inputs.last().prev_tx_output_hash)
    }
}

/// The map with the outputs added under their hashes, unmarked, in order.
pub open spec fn add_outputs(m: UtxoMap, outputs: Seq<OutputV>) -> UtxoMap
    decreases outputs.len(),
{
    if outputs.len() == 0 {
        m
    } else {
        add_outputs(m, outputs.drop_last()).insert(
            output_hash(outputs.last()),
            (false, outputs.last()),
        )
    }
}

/// One transaction applied to the map: the outputs it spends removed, its outputs added.
pub open spec fn apply_tx(m: UtxoMap, tx: TxV) -> UtxoMap {
    add_outputs(spend_inputs(m, tx.inputs), tx.outputs)
}

/// Transactions applied to the map in order.
pub open spec fn apply_txs(m: UtxoMap, txs: Seq<TxV>) -> UtxoMap
    decreases txs.len(),
{
    if txs.len() == 0 {
        m
    } else {
        apply_tx(apply_txs(m, txs.drop_last()), txs.last())
    }
}

/// The transactions of the blocks applied to the map in order.
pub open spec fn apply_blocks(m: UtxoMap, blocks: Seq<BlockV>) -> UtxoMap
    decreases blocks.len(),
{
    if blocks.len() == 0 {
        m
    } else {
        apply_txs(apply_blocks(m, blocks.drop_last()), blocks.last().transactions)
    }
}

/// Hashes of the outputs that the entries' transactions spend, in order.
pub open spec fn mempool_input_hashes(s: Seq<EntryV>) -> Seq<crate::sha256::Hash>
    decreases s.len(),
{
    if s.len() == 0 {
        Seq::empty()
    } else {
        mempool_input_hashes(s.drop_last()) + input_hashes(s.last().1.inputs)
    }
}

/// The UTXO set rebuilt from the blocks: the outputs that the chain's transactions create and
/// no later one spends, each flagged when a mempool transaction spends it.
pub open spec fn rebuilt_utxos(blocks: Seq<BlockV>, mempool: Seq<EntryV>) -> UtxoMap {
    set_flags(apply_blocks(Map::empty(), blocks), mempool_input_hashes(mempool), true)
}

/// An output hash is among those the entries spend exactly when an entry spends it.
pub proof fn lemma_mempool_hashes_contain(s: Seq<EntryV>, h: crate::sha256::Hash)
    ensures
        mempool_input_hashes(s).contains(h) <==> spent_in(s, h),
    decreases s.len(),
{
    if s.len() > 0 {
        let d = s.drop_last();
        let x = s.last();
        lemma_mempool_hashes_contain(d, h);
        let a = mempool_input_hashes(d);
        let t = input_hashes(x.1.inputs);
        let all = a + t;
        if all.contains(h) {
            let k = choose|k: int| 0 <= k < all.len() && all[k] == h;
            if k < a.len() {
                assert(a[k] == h);
                let (i, j) = choose|i: int, j: int|
                    0 <= i < d.len() && 0 <= j < d[i].1.inputs.len()
                        && (#[trigger] d[i].1.inputs[j]).prev_tx_output_hash == h;
                assert(s[i] == d[i]);
                assert(s[i].1.inputs[j].prev_tx_output_hash == h);
            } else {
                let j = k - a.len();
                assert(t[j] == h);
                assert(s[s.len() - 1] == x);
                assert(s[s.len() - 1].1.inputs[j].prev_tx_output_hash == h);
            }
        }
        if spent_in(s, h) {
            let (i, j) = choose|i: int, j: int|
                0 <= i < s.len() && 0 <= j < s[i].1.inputs.len()
                    && (#[trigger] s[i].1.inputs[j]).prev_tx_output_hash == h;
            if i < d.len() {
                assert(d[i] == s[i]);
                assert(d[i].1.inputs[j].prev_tx_output_hash == h);
                let k = choose|k: int| 0 <= k < a.len() && a[k] == h;
                assert(all[k] == h);
            } else {
                assert(s[i] == x);
                assert(t[j] == h);
                assert(all[a.len() + j] == h);
            }
        }
    }
}

/// Applies one transaction to the UTXO set.
fn apply_tx_to(utxo_set: &mut UtxoSet, tx: &Tx)
    ensures
        final(utxo_set).spec_map() == apply_tx(old(utxo_set).spec_map(), tx@),
{
    let ghost m0 = utxo_set.spec_map();
    let ghost inputs = tx@.inputs;
    let ghost outputs = tx@.outputs;
    let mut k: usize = 0;
    // remove tx output if we see an input that spends it
    while k < tx.inputs.len()
        invariant
            k <= tx.inputs@.len(),
            inputs == tx@.inputs,
            utxo_set.spec_map() == spend_inputs(m0, inputs.take(k as int)),
        decreases tx.inputs@.len() - k,
    {
        assert(inputs.take(k + 1).drop_last() =~= inputs.take(k as int));
        utxo_set.remove(&tx.inputs[k].prev_tx_output_hash);
        k = k + 1;
    }
    assert(inputs.take(k as int) =~= inputs);
    let ghost m1 = utxo_set.spec_map();
    let mut j: usize = 0;
    // add tx outputs
    while j < tx.outputs.len()
        invariant
            j <= tx.outputs@.len(),
            outputs == tx@.outputs,
            utxo_set.spec_map() == add_outputs(m1, outputs.take(j as int)),
        decreases tx.outputs@.len() - j,
    {
        assert(outputs.take(j + 1).drop_last() =~= outputs.take(j as int));
        let output = &tx.outputs[j];
        let h = output.hash();
        utxo_set.insert(h, false, output.clone());
        j = j + 1;
    }
    assert(outputs.take(j as int) =~= outputs);
}

// ---------------------------------------------------------------------------------------
// Mempool

/// What offering a transaction to the mempool at time `now` does to the chain: on a
/// refusal it is unchanged, but for the replacement already made when the outputs pay more
/// than the inputs spend; on admission the UTXO map and the mempool are those of the
/// admitted transaction. Blocks and target never change.
pub open spec fn offer_chain_effect(before: ChainV, tx: TxV, now: Timestamp, after: ChainV) -> bool {
    &&& after.blocks == before.blocks
    &&& after.target == before.target
    &&& match offer_rejection(before.utxos, before.mempool, tx) {
        Some(f) => if f == Failure::Overspend {
            &&& after.utxos == replaced(before.utxos, before.mempool, tx).0
            &&& after.mempool == replaced(before.utxos, before.mempool, tx).1
        } else {
            &&& after.utxos == before.utxos
            &&& after.mempool == before.mempool
        },
        None => {
            &&& after.utxos == admitted_utxos(before.utxos, before.mempool, tx)
            &&& after.mempool == admitted_mempool(before.utxos, before.mempool, tx, now)
        },
    }
}

/// What offering a transaction to the mempool at time `now` does: the chain changes as
/// `offer_chain_effect` says, and a refusal is reported by its error.
pub open spec fn offer_effect(
    before: ChainV,
    tx: TxV,
    now: Timestamp,
    after: ChainV,
    r: Result<(), BtcError>,
) -> bool {
    &&& offer_chain_effect(before, tx, now, after)
    &&& match offer_rejection(before.utxos, before.mempool, tx) {
        Some(f) => r matches Err(e) && offer_reported(e, f, tx),
        None => r is Ok,
    }
}

/// The chain after a block was accepted and the UTXO set rebuilt.
pub open spec fn block_accepted(before: ChainV, b: BlockV, after: ChainV) -> bool {
    &&& after.blocks == before.blocks.push(b)
    &&& after.utxos == rebuilt_utxos(before.blocks.push(b), mempool_after_block(before.mempool, b))
    &&& after.mempool == mempool_after_block(before.mempool, b)
    &&& after.target.value() == adjusted_target(before.blocks.push(b), before.target)
}

/// A block can be offered to the chain: checking it does not overflow, and on acceptance
/// the target adjustment can be computed.
pub open spec fn block_offer_defined(c: ChainV, b: BlockV) -> bool {
    &&& block_rejection(c, b) != Some(Rejection::Transactions(Failure::Overflow))
    &&& block_rejection(c, b) is None ==> adjustment_defined(c.blocks.push(b), c.target)
}

/// What removing the stale entries at time `now` does: the entries that are not stale
/// stay, in order, and the outputs spent by the stale ones are no longer flagged.
pub open spec fn cleanup_effect(before: ChainV, now: Timestamp, after: ChainV) -> bool {
    &&& after.blocks == before.blocks
    &&& after.target == before.target
    &&& after.mempool == fresh_entries(before.mempool, now)
    &&& after.utxos == set_flags(before.utxos, stale_input_hashes(before.mempool, now), false)
}

// ---------------------------------------------------------------------------------------
// Block reward

/// Block subsidy at a block height: the initial reward in sats halved once per halving
/// interval.
pub open spec fn block_reward_at(height: u64) -> int {
    subsidy((height / HALVING_INTERVAL) as nat)
}

// ---------------------------------------------------------------------------------------
// Laws

/// An adjusted target never exceeds the minimum target nor four times the old target, and
/// is at least a quarter of the old target unless that exceeds the minimum target.
pub proof fn lemma_adjusted_target_bounds(blocks: Seq<BlockV>, target: U256)
    ensures
        adjusted_target(blocks, target) <= min_target().value() || !adjustment_due(
            blocks.len() as int,
        ),
        adjustment_due(blocks.len() as int) ==> adjusted_target(blocks, target) <= target.value()
            * 4,
        adjustment_due(blocks.len() as int) ==> adjusted_target(blocks, target) >= if target.value()
            / 4 <= min_target().value() {
            target.value() / 4
        } else {
            min_target().value()
        },
        !adjustment_due(blocks.len() as int) ==> adjusted_target(blocks, target) == target.value(),
{
    target.lemma_value_bound();
}

/// An accepted block extends the chain: after the first block, it points to the hash of the
/// last block, its hash lies below the last block's target, it carries the Merkle root of its
/// transactions and it is later than the last block.
pub proof fn lemma_accepted_block_links(c: ChainV, b: BlockV)
    requires
        block_rejection(c, b) is None,
    ensures
        c.blocks.len() == 0 ==> b.header.prev_block_hash == zero_hash(),
        c.blocks.len() > 0 ==> {
            &&& b.header.prev_block_hash == header_hash(c.blocks.last().header)
            &&& header_hash(b.header).0.value() < c.blocks.last().header.target.value()
            &&& b.header.merkle_root == merkle_root_of(b.transactions)
            &&& nanos_between(c.blocks.last().header.timestamp, b.header.timestamp) > 0
        },
        verify_outcome(b.transactions, c.blocks.len() as u64, c.utxos) is None,
{
}

/// The block reward halves (rounding down) every halving interval.
pub proof fn lemma_reward_halves(height: u64)
    requires
        height + HALVING_INTERVAL <= u64::MAX,
    ensures
        block_reward_at((height + HALVING_INTERVAL) as u64) == block_reward_at(height) / 2,
        block_reward_at(0) == (INITIAL_REWARD * SATS_PER_BTC) as int,
{
    let n = (height / HALVING_INTERVAL) as nat;
    assert(((height + HALVING_INTERVAL) as u64) / HALVING_INTERVAL == n + 1);
    vstd::arithmetic::power2::lemma_pow2_unfold(n + 1);
    vstd::arithmetic::power2::lemma_pow2_pos(n);
    vstd::arithmetic::div_mod::lemma_div_denominator(
        (INITIAL_REWARD * SATS_PER_BTC) as int,
        vstd::arithmetic::power2::pow2(n) as int,
        2,
    );
    assert(vstd::arithmetic::power2::pow2(n) * 2 == 2 * vstd::arithmetic::power2::pow2(n));
    vstd::arithmetic::power2::lemma2_to64();
}

/// A coinbase transaction without inputs whose outputs add up to the block reward plus the
/// fees is accepted with those fees.
pub proof fn lemma_reward_coinbase_accepted(txs: Seq<TxV>, height: u64, fees: int)
    requires
        txs.len() > 0,
        txs[0].inputs.len() == 0,
        txs[0].outputs.len() > 0,
        height / HALVING_INTERVAL < 64,
        fees >= 0,
        crate::block::sum_outputs(txs[0].outputs) == block_reward_at(height) + fees,
        crate::block::sum_outputs(txs[0].outputs) <= u64::MAX,
    ensures
        crate::block::coinbase_outcome(txs, height, fees) is None,
{
    assert(crate::block::halving_exponent(height) == height / HALVING_INTERVAL);
}

/// No transaction of an accepted block stays in the mempool, and every other entry stays.
pub proof fn lemma_mined_leave_mempool(mempool: Seq<EntryV>, b: BlockV)
    ensures
        forall|i: int|
            0 <= i < mempool_after_block(mempool, b).len() ==> !tx_hashes(b.transactions).contains(
                tx_hash(#[trigger] mempool_after_block(mempool, b)[i].1),
            ),
        forall|i: int|
            0 <= i < mempool.len() && !tx_hashes(b.transactions).contains(
                tx_hash(#[trigger] mempool[i].1),
            ) ==> mempool_after_block(mempool, b).contains(mempool[i]),
{
    broadcast use vstd::seq_lib::group_filter_ensures;

    let pred = |e: EntryV| !tx_hashes(b.transactions).contains(tx_hash(e.1));
    assert forall|i: int| 0 <= i < mempool.len() && pred(mempool[i]) implies mempool.filter(pred).contains(mempool[i]) by {
        mempool.lemma_filter_contains(pred, i);
    }
}

/// Removing stale entries keeps the mempool sorted by fee: the entries left keep their order,
/// and unflagging outputs changes no fee.
pub proof fn lemma_cleanup_keeps_fee_order(c: ChainV, now: Timestamp, after: ChainV)
    requires
        sorted_by_fee(c.utxos, c.mempool),
        cleanup_effect(c, now, after),
    ensures
        sorted_by_fee(after.utxos, after.mempool),
{
    let hs = stale_input_hashes(c.mempool, now);
    lemma_set_flags(c.utxos, hs, false);
    lemma_filter_sorted(c.utxos, c.mempool, |e: EntryV| !is_stale(e, now));
    let f = after.mempool;
    assert forall|i: int, j: int| 0 <= i <= j < f.len() implies fee_of(after.utxos, f[i].1) <= fee_of(
        after.utxos,
        f[j].1,
    ) by {
        lemma_fee_ignores_flags(after.utxos, c.utxos, f[i].1);
        lemma_fee_ignores_flags(after.utxos, c.utxos, f[j].1);
    }
}

/// After a transaction is admitted the chain's mempool holds it and is sorted by fee against
/// the chain's UTXO set; when every flagged UTXO was spent by a mempool transaction and no two
/// of them spent the same output, this still holds.
pub proof fn lemma_offer_keeps_mempool(c: ChainV, tx: TxV, now: Timestamp, after: ChainV)
    requires
        offer_rejection(c.utxos, c.mempool, tx) is None,
        offer_chain_effect(c, tx, now, after),
    ensures
        sorted_by_fee(after.utxos, after.mempool),
        after.mempool.contains((now, tx)),
        flags_track(c.utxos, c.mempool) && spends_disjoint(c.mempool) ==> flags_track(
            after.utxos,
            after.mempool,
        ) && spends_disjoint(after.mempool),
{
    lemma_admitted(c.utxos, c.mempool, tx, now);
    if flags_track(c.utxos, c.mempool) && spends_disjoint(c.mempool) {
        lemma_admission_tracks_flags(c.utxos, c.mempool, tx, now);
    }
}

/// Accepting a block keeps the order of the mempool: the entries left are those that were
/// there, in the same order, so they stay sorted by the fees they had before the block. (The
/// block may spend outputs that entries left spend too; the fees of those entries against
/// the new UTXO set are then not defined.)
pub proof fn lemma_block_keeps_fee_order(c: ChainV, b: BlockV, after: ChainV)
    requires
        sorted_by_fee(c.utxos, c.mempool),
        block_accepted(c, b, after),
    ensures
        sorted_by_fee(c.utxos, after.mempool),
{
    lemma_filter_sorted(
        c.utxos,
        c.mempool,
        |e: EntryV| !tx_hashes(b.transactions).contains(tx_hash(e.1)),
    );
}

impl Blockchain {
    /// A chain with no blocks, an empty UTXO set and mempool, and the minimum target.
    pub fn new() -> (r: Blockchain)
        ensures
            r@.blocks.len() == 0,
            r@.utxos == Map::<crate::sha256::Hash, (bool, crate::transaction::OutputV)>::empty(),
            r@.target == min_target(),
            r@.mempool.len() == 0,
    {
        Blockchain {
            blocks: Vec::new(),
            utxo_set: UtxoSet::new(),
            target: min_target(),
            mempool: Vec::new(),
        }
    }

    /// A chain made of stored parts, with an empty mempool.
    pub fn from_parts(blocks: Vec<Block>, utxo_set: UtxoSet, target: U256) -> (r: Blockchain)
        ensures
            r@.blocks == blocks_view(blocks@),
            r@.utxos == utxo_set.spec_map(),
            r@.target == target,
            r@.mempool.len() == 0,
    {
        Blockchain { blocks, utxo_set, target, mempool: Vec::new() }
    }

    /// Returns current block height
    pub fn block_height(&self) -> (r: u64)
        ensures
            r == self@.blocks.len(),
    {
        self.blocks.len() as u64
    }

    /// Returns current UTXO set
    pub fn utxo_set(&self) -> (r: &UtxoSet)
        ensures
            r.spec_map() == self@.utxos,
    {
        &self.utxo_set
    }

    /// Returns current difficulty target
    pub fn target(&self) -> (r: U256)
        ensures
            r == self@.target,
    {
        self.target
    }

    /// Returns the mempool content with transactions sorted by fee size
    pub fn mempool(&self) -> (r: &Vec<MempoolEntry>)
        ensures
            entries_view(r@) == self@.mempool,
    {
        &self.mempool
    }

    /// Returns all `Block`s
    pub fn blocks(&self) -> (r: &Vec<Block>)
        ensures
            blocks_view(r@) == self@.blocks,
    {
        &self.blocks
    }

    /// Calculates block subsidy
    pub fn calculate_block_reward(&self) -> (r: u64)
        requires
            (self@.blocks.len() as int) / (HALVING_INTERVAL as int) < 64,
        ensures
            r == block_reward_at(self@.blocks.len() as u64),
    {
        let block_height = self.block_height();
        let halvings = block_height / HALVING_INTERVAL;
        let reward: u64 = INITIAL_REWARD * SATS_PER_BTC;
        proof {
            vstd::bits::lemma_u64_shr_is_div(reward, halvings);
        }
        reward >> halvings
    }

    /// Validates and adds new block to the blockchain
    pub fn add_block(&mut self, block: Block) -> (r: Result<(), BtcError>)
        requires
            block_rejection(old(self)@, block@) != Some(Rejection::Transactions(Failure::Overflow)),
            block_rejection(old(self)@, block@) is None ==> adjustment_defined(
                old(self)@.blocks.push(block@),
                old(self)@.target,
            ),
        ensures
            match block_rejection(old(self)@, block@) {
                Some(rej) => (r matches Err(e) && rejection_reported(e, rej, old(self)@.utxos)) && final(self)@
                    == old(self)@,
                None => {
                    &&& r is Ok
                    &&& final(self)@.blocks == old(self)@.blocks.push(block@)
                    &&& final(self)@.utxos == old(self)@.utxos
                    &&& final(self)@.mempool == mempool_after_block(old(self)@.mempool, block@)
                    &&& final(self)@.target.value() == adjusted_target(
                        old(self)@.blocks.push(block@),
                        old(self)@.target,
                    )
                },
            },
    {
        let ghost c = self@;
        // check if the block is valid
        if self.blocks.len() == 0 {
            // if this is the first block, check if the
            // block's prev_block_hash is all zeroes
            if block.header.prev_block_hash != crate::sha256::Hash::zero() {
                return Err(
                    BtcError::InvalidBlock(
                        "First block must have previous block hash set to zero".to_string(),
                    ),
                );
            }
        } else {
            // if this is not the first block, check if the
            // block's prev_block_hash is the hash of the last block
            let last = self.blocks[self.blocks.len() - 1].header;
            assert(c.blocks.last() == self.blocks@[self.blocks@.len() - 1]@);
            if block.header.prev_block_hash != last.hash() {
                return Err(BtcError::InvalidBlock("Previous block hash mismatch".to_string()));
            }
            // check if the block's hash is less than the target
            if !block.header.hash().0.lt(&last.target) {
                return Err(BtcError::InvalidBlock("Block hash does not match target".to_string()));
            }
            // check if the block's Merkle root is correct
            if block.header.merkle_root != MerkleRoot::calculate(block.transactions.as_slice()) {
                return Err(BtcError::InvalidMerkleRoot);
            }
            // check if the block's timestamp is after the last block's timestamp
            if !block.header.timestamp.gt(&last.timestamp) {
                return Err(
                    BtcError::InvalidBlock(
                        "Block timestamp is not after the previous block's timestamp".to_string(),
                    ),
                );
            }
        }
        // Verify all transactions in the block
        let height = self.block_height();
        match block.verify_transactions(height, &self.utxo_set) {
            Err(e) => {
                return Err(e);
            },
            Ok(()) => {},
        }
        // Remove transactions from mempool that are now in the block
        let mined = tx_hash_list(&block.transactions);
        let kept = retain_unmined(&self.mempool, &mined);
        self.mempool = kept;
        let ghost pushed = block@;
        self.blocks.push(block);
        assert(blocks_view(self.blocks@) =~= c.blocks.push(pushed));
        self.try_adjust_target();
        Ok(())
    }

    /// Rebuilds UTXO set from the blockchain
    pub fn rebuild_utxo_set(&mut self)
        ensures
            final(self)@.blocks == old(self)@.blocks,
            final(self)@.utxos == rebuilt_utxos(old(self)@.blocks, old(self)@.mempool),
            final(self)@.target == old(self)@.target,
            final(self)@.mempool == old(self)@.mempool,
    {
        self.utxo_set = UtxoSet::new();
        let ghost m0 = self.utxo_set.spec_map();
        let ghost bs = blocks_view(self.blocks@);
        let ghost blocks0 = self.blocks@;
        let ghost target0 = self.target;
        let ghost mempool0 = self.mempool@;
        let mut b: usize = 0;
        while b < self.blocks.len()
            invariant
                b <= self.blocks@.len(),
                bs == blocks_view(self.blocks@),
                self.blocks@ == blocks0,
                self.target == target0,
                self.mempool@ == mempool0,
                self.utxo_set.spec_map() == apply_blocks(m0, bs.take(b as int)),
            decreases self.blocks@.len() - b,
        {
            assert(bs.take(b + 1).drop_last() =~= bs.take(b as int));
            assert(bs[b as int] == self.blocks@[b as int]@);
            let ghost m1 = self.utxo_set.spec_map();
            let ghost txs = bs[b as int].transactions;
            let mut k: usize = 0;
            while k < self.blocks[b].transactions.len()
                invariant
                    b < self.blocks@.len(),
                    k <= self.blocks@[b as int].transactions@.len(),
                    txs == self.blocks@[b as int]@.transactions,
                    self.blocks@ == blocks0,
                    self.target == target0,
                    self.mempool@ == mempool0,
                    self.utxo_set.spec_map() == apply_txs(m1, txs.take(k as int)),
                decreases self.blocks@[b as int].transactions@.len() - k,
            {
                assert(txs.take(k + 1).drop_last() =~= txs.take(k as int));
                apply_tx_to(&mut self.utxo_set, &self.blocks[b].transactions[k]);
                k = k + 1;
            }
            assert(txs.take(k as int) =~= txs);
            b = b + 1;
        }
        assert(bs.take(b as int) =~= bs);
        // flag the outputs that the mempool's transactions spend
        let ghost m1 = self.utxo_set.spec_map();
        let ghost mp = self.mempool@;
        let ghost entries = entries_view(mp);
        let mut e: usize = 0;
        while e < self.mempool.len()
            invariant
                e <= self.mempool@.len(),
                mp == self.mempool@,
                entries == entries_view(mp),
                self.blocks@ == blocks0,
                self.target == target0,
                self.mempool@ == mempool0,
                self.utxo_set.spec_map() == set_flags(m1, mempool_input_hashes(entries.take(e as int)), true),
            decreases self.mempool@.len() - e,
        {
            proof {
                assert(entries.take(e + 1).drop_last() =~= entries.take(e as int));
                assert(entries[e as int].1.inputs == self.mempool@[e as int].1.inputs@.map_values(
                    |i: TxInput| i@,
                ));
                lemma_set_flags_append(
                    m1,
                    mempool_input_hashes(entries.take(e as int)),
                    input_hashes(entries[e as int].1.inputs),
                    true,
                );
            }
            set_input_flags(&mut self.utxo_set, &self.mempool[e].1.inputs, true);
            e = e + 1;
        }
        assert(entries.take(e as int) =~= entries);
    }

    /// Validates and adds new transaction to the mempool, inserted at time `now`.
    pub fn add_to_mempool_at(&mut self, tx: Tx, now: Timestamp) -> (r: Result<(), BtcError>)
        requires
            offer_defined(old(self)@.utxos, old(self)@.mempool, tx@),
        ensures
            offer_effect(old(self)@, tx@, now, final(self)@, r),
    {
        let ghost c = self@;
        // all inputs in tx must match known UTXOs, and must be unique (to prevent double-spend
        // within a single tx)
        proof {
            lemma_offered_failure_kinds(c.utxos, tx@.inputs);
        }
        match check_offered_inputs(&tx, &self.utxo_set) {
            Some(f) => {
                return Err(offer_error(f, &tx));
            },
            None => {},
        }
        // replace older transactions that reference the same inputs
        replace_for_inputs(&mut self.utxo_set, &mut self.mempool, &tx);
        assert((self@.utxos, self@.mempool) == replaced(c.utxos, c.mempool, tx@));
        // all inputs must be lower than all outputs
        let tx_inputs = input_amount(&tx, &self.utxo_set);
        let tx_outputs = crate::block::sum_output_amounts(&tx.outputs);
        if tx_inputs < tx_outputs {
            return Err(
                BtcError::InvalidTransaction("Mempool: Spending more than available".to_string()),
            );
        }
        // mark the UTXOs as used
        set_input_flags(&mut self.utxo_set, &tx.inputs, true);
        // insert tx in the mempool
        let ghost before = self.mempool@;
        let ghost txv = tx@;
        self.mempool.push((now, tx));
        assert(entries_view(self.mempool@) =~= entries_view(before).push((now, txv)));
        assert forall|i: int|
            0 <= i < entries_view(self.mempool@).len() implies fee_defined(
            self.utxo_set.spec_map(),
            #[trigger] entries_view(self.mempool@)[i].1,
        ) by {
            if i < before.len() {
                assert(entries_view(self.mempool@)[i] == entries_view(before)[i]);
            }
        }
        // sort mempool by fee size
        let sorted = sort_entries_by_fee(&self.mempool, &self.utxo_set);
        self.mempool = sorted;
        Ok(())
    }

    /// Validates and adds new transaction to the mempool, inserted at the current time.
    pub fn add_to_mempool(&mut self, tx: Tx) -> (r: Result<(), BtcError>)
        requires
            offer_defined(old(self)@.utxos, old(self)@.mempool, tx@),
        ensures
            exists|now: Timestamp|
                now.spec_secs() >= 0 && #[trigger] offer_effect(old(self)@, tx@, now, final(self)@, r),
    {
        let now = Timestamp::now();
        self.add_to_mempool_at(tx, now)
    }

    /// Removes transactions older than `MAX_MEMPOOL_TRANSACTION_AGE` at time `now`.
    pub fn cleanup_mempool_at(&mut self, now: Timestamp)
        ensures
            cleanup_effect(old(self)@, now, final(self)@),
    {
        // retain only transactions that are not too old
        let (kept, stale) = split_stale(&self.mempool, &now);
        self.mempool = kept;
        // unmark all of the UTXOs
        set_hash_flags(&mut self.utxo_set, &stale, false);
    }

    /// Removes transactions older than `MAX_MEMPOOL_TRANSACTION_AGE`.
    pub fn cleanup_mempool(&mut self)
        ensures
            exists|now: Timestamp| now.spec_secs() >= 0 && #[trigger] cleanup_effect(old(self)@, now, final(self)@),
    {
        let now = Timestamp::now();
        self.cleanup_mempool_at(now);
    }

    /// The UTXOs that belong to the public key.
    pub fn utxo_set_for_pubkey(&self, pubkey: PublicKey) -> (r: Vec<UtxoEntry>)
        ensures
            keys_unique(r@),
            forall|j: int|
                0 <= j < r@.len() ==> {
                    &&& self@.utxos.contains_key(#[trigger] r@[j].0)
                    &&& self@.utxos[r@[j].0] == (r@[j].1, r@[j].2@)
                    &&& r@[j].2@.pubkey == pubkey.der@
                },
            forall|k: crate::sha256::Hash|
                #![trigger self@.utxos[k]]
                self@.utxos.contains_key(k) && self@.utxos[k].1.pubkey == pubkey.der@
                    ==> exists|j: int| 0 <= j < r@.len() && r@[j].0 == k,
    {
        let r = self.utxo_set.entries_for_pubkey(&pubkey);
        assert(self@.utxos == self.utxo_set.spec_map());
        assert forall|j: int| 0 <= j < r@.len() implies {
            &&& self@.utxos.contains_key(#[trigger] r@[j].0)
            &&& self@.utxos[r@[j].0] == (r@[j].1, r@[j].2@)
            &&& r@[j].2@.pubkey == pubkey.der@
        } by {
            assert(self.utxo_set.spec_map().contains_key(r@[j].0));
        }
        r
    }

    /// Whether the target adjustment of `try_adjust_target` can be computed on this chain.
    pub fn target_adjustment_defined(&self) -> (r: bool)
        ensures
            r == adjustment_defined(self@.blocks, self@.target),
    {
        let n = self.blocks.len();
        if n == 0 || n % (DIFFICULTY_UPDATE_INTERVAL as usize) != 0 {
            return true;
        }
        let ghost bv = blocks_view(self.blocks@);
        let start_time = self.blocks[n - DIFFICULTY_UPDATE_INTERVAL as usize].header.timestamp;
        let end_time = self.blocks[n - 1].header.timestamp;
        assert(bv[n - 50] == self.blocks@[n - 50]@);
        assert(bv.last() == self.blocks@[n - 1]@);
        let seconds = end_time.seconds_since(&start_time);
        let zero = U256::zero();
        let target_is_zero = self.target.le(&zero);
        if seconds < 0 {
            if !target_is_zero {
                return false;
            }
            assert(self.target.value() * seconds == 0) by (nonlinear_arith)
                requires
                    self.target.value() == 0,
            ;
            return true;
        }
        proof {
            self.target.lemma_value_bound();
        }
        let scaled = match checked_scale_target(&self.target, seconds) {
            None => {
                return false;
            },
            Some(s) => s,
        };
        let quarter = self.target.div4();
        if scaled.lt(&quarter) {
            return true;
        }
        self.target.checked_mul_small(4).is_some()
    }

    /// Try to adjust the target of the blockchain
    pub fn try_adjust_target(&mut self)
        requires
            adjustment_defined(old(self)@.blocks, old(self)@.target),
        ensures
            final(self)@.blocks == old(self)@.blocks,
            final(self)@.utxos == old(self)@.utxos,
            final(self)@.mempool == old(self)@.mempool,
            final(self)@.target.value() == adjusted_target(old(self)@.blocks, old(self)@.target),
            !adjustment_due(old(self)@.blocks.len() as int) ==> final(self)@.target == old(
                self,
            )@.target,
    {
        let n = self.blocks.len();
        if n == 0 {
            return;
        }
        // is this the correct block to do the adjustment?
        if n % (DIFFICULTY_UPDATE_INTERVAL as usize) != 0 {
            return;
        }
        // measure the time it took to mine the last DIFFICULTY_UPDATE_INTERVAL blocks
        let ghost bv = blocks_view(self.blocks@);
        let start_time = self.blocks[n - DIFFICULTY_UPDATE_INTERVAL as usize].header.timestamp;
        let end_time = self.blocks[n - 1].header.timestamp;
        assert(bv[n - 50] == self.blocks@[n - 50]@);
        assert(bv.last() == self.blocks@[n - 1]@);
        let time_diff_seconds = end_time.seconds_since(&start_time);
        // NewTarget = OldTarget * (ActualTime / IdealTime), fractional part dropped
        let new_target = scale_target(&self.target, time_diff_seconds);
        // adjust the difficulty by no more than a factor of 4x in either direction
        let quarter = self.target.div4();
        let new_target = if new_target.lt(&quarter) {
            quarter
        } else {
            let quadruple = self.target.mul4();
            if quadruple.lt(&new_target) {
                quadruple
            } else {
                new_target
            }
        };
        // if the new target is more than the minimum target set it to the minimum target
        self.target = new_target.min(&min_target());
    }
}

} // verus!
