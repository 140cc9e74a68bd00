//! Blocks and block headers, and the checks of a block's transactions.
use vstd::prelude::*;
use vstd::string::StringSliceAdditionalSpecFns;

use crate::cbor::{
    enc_array_head, enc_map_head, enc_text, enc_uint, push_array_head, push_map_head, push_text,
    push_uint,
};
use crate::crypto::ecdsa_verifies;
use crate::error::BtcError;
use crate::merkle_root::MerkleRoot;
use crate::sha256::{spec_hash_bytes, Serializable};
use crate::text::{hex_text, hyphenated, push_hex, uuid_text};
use crate::time::Timestamp;
use crate::transaction::{enc_tx, InputV, OutputV, Tx, TxV};
use crate::u256::{spec_encode_u256, U256};
use crate::utxo_set::UtxoSet;

verus! {

/// Initial reward in bitcoin - multiply by 10^8 to get sats
pub const INITIAL_REWARD: u64 = 50;

/// Halving interval in blocks
pub const HALVING_INTERVAL: u64 = 210;

/// Sats in one bitcoin.
pub const SATS_PER_BTC: u64 = 100_000_000;

/// The UTXO map that the checks read.
pub type UtxoMap = Map<crate::sha256::Hash, (bool, OutputV)>;

/// Block header.
#[derive(Clone, Copy, Debug, PartialEq, Eq, Structural)]
pub struct BlockHeader {
    /// Timestamp of the block
    pub timestamp: Timestamp,
    /// Nonce used to mine the block
    pub nonce: u64,
    /// Hash of the previous block
    pub prev_block_hash: crate::sha256::Hash,
    /// Merkle root of the block's transactions
    pub merkle_root: MerkleRoot,
    /// A number which has to be higher than the hash of this block for it to be considered valid
    pub target: U256,
}

/// Block: a header and its transactions, the first of which is the coinbase transaction.
#[derive(Debug)]
pub struct Block {
    pub header: BlockHeader,
    pub transactions: Vec<Tx>,
}

/// What a block stands for.
pub struct BlockV {
    pub header: BlockHeader,
    pub transactions: Seq<TxV>,
}

impl View for Block {
    type V = BlockV;

    open spec fn view(&self) -> BlockV {
        BlockV { header: self.header, transactions: self.transactions@.map_values(|t: Tx| t@) }
    }
}

/// CBOR encoding of a block header (a map of its five fields).
#[verifier::opaque]
pub open spec fn enc_header(h: BlockHeader) -> Seq<u8> {
    enc_map_head(5) + enc_text("timestamp".spec_bytes()) + enc_text(h.timestamp.spec_rfc3339())
        + enc_text("nonce".spec_bytes()) + enc_uint(h.nonce) + enc_text(
        "prev_block_hash".spec_bytes(),
    ) + spec_encode_u256(h.prev_block_hash.0) + enc_text("merkle_root".spec_bytes())
        + spec_encode_u256(h.merkle_root.0.0) + enc_text("target".spec_bytes()) + spec_encode_u256(
        h.target,
    )
}

proof fn lemma_regroup7(
    p: Seq<u8>,
    a: Seq<u8>,
    b: Seq<u8>,
    c: Seq<u8>,
    d: Seq<u8>,
    e: Seq<u8>,
    f: Seq<u8>,
    g: Seq<u8>,
)
    ensures
        p + a + b + c + d + e + f + g == p + (a + (b + (c + (d + (e + (f + g)))))),
{
    assert(p + a + b + c + d + e + f + g =~= p + (a + (b + (c + (d + (e + (f + g)))))));
}

proof fn lemma_strip(h: Seq<u8>, r1: Seq<u8>, r2: Seq<u8>)
    requires
        h + r1 == h + r2,
    ensures
        r1 == r2,
{
    assert(r1 =~= (h + r1).subrange(h.len() as int, (h + r1).len() as int));
    assert(r2 =~= (h + r2).subrange(h.len() as int, (h + r2).len() as int));
}

proof fn lemma_regroup9(
    p: Seq<u8>,
    r: Seq<u8>,
    q: Seq<u8>,
    a: Seq<u8>,
    b: Seq<u8>,
    c: Seq<u8>,
    d: Seq<u8>,
    e: Seq<u8>,
    f: Seq<u8>,
    g: Seq<u8>,
)
    ensures
        p + r + q + a + b + c + d + e + f + g == p + (r + (q + (a + (b + (c + (d + (e + (f
            + g)))))))),
{
    assert(p + r + q + a + b + c + d + e + f + g =~= p + (r + (q + (a + (b + (c + (d + (e + (f
        + g)))))))));
}

/// The encoding that a header's hash is taken over holds every field: two headers have the
/// same encoding exactly when their timestamps have the same RFC 3339 text and all their
/// other fields are equal (texts of any length a 64-bit CBOR header can give).
pub proof fn lemma_header_encoding_fields(h1: BlockHeader, h2: BlockHeader)
    requires
        h1.timestamp.spec_rfc3339().len() <= u64::MAX,
        h2.timestamp.spec_rfc3339().len() <= u64::MAX,
    ensures
        enc_header(h1) == enc_header(h2) <==> {
            &&& h1.timestamp.spec_rfc3339() == h2.timestamp.spec_rfc3339()
            &&& h1.nonce == h2.nonce
            &&& h1.prev_block_hash == h2.prev_block_hash
            &&& h1.merkle_root == h2.merkle_root
            &&& h1.target == h2.target
        },
{
    reveal(enc_header);
    if enc_header(h1) == enc_header(h2) {
        let pre = enc_map_head(5) + enc_text("timestamp".spec_bytes());
        let r1 = enc_text(h1.timestamp.spec_rfc3339());
        let r2 = enc_text(h2.timestamp.spec_rfc3339());
        let t2 = enc_text("nonce".spec_bytes());
        let t3 = enc_text("prev_block_hash".spec_bytes());
        let t4 = enc_text("merkle_root".spec_bytes());
        let t5 = enc_text("target".spec_bytes());
        let n1 = enc_uint(h1.nonce);
        let n2 = enc_uint(h2.nonce);
        let p1 = spec_encode_u256(h1.prev_block_hash.0);
        let p2 = spec_encode_u256(h2.prev_block_hash.0);
        let m1 = spec_encode_u256(h1.merkle_root.0.0);
        let m2 = spec_encode_u256(h2.merkle_root.0.0);
        let g1 = spec_encode_u256(h1.target);
        let g2 = spec_encode_u256(h2.target);
        lemma_regroup9(pre, r1, t2, n1, t3, p1, t4, m1, t5, g1);
        lemma_regroup9(pre, r2, t2, n2, t3, p2, t4, m2, t5, g2);
        let rest1 = t2 + (n1 + (t3 + (p1 + (t4 + (m1 + (t5 + g1))))));
        let rest2 = t2 + (n2 + (t3 + (p2 + (t4 + (m2 + (t5 + g2))))));
        lemma_strip(pre, r1 + rest1, r2 + rest2);
        crate::cbor::lemma_text_prefix(
            h1.timestamp.spec_rfc3339(),
            h2.timestamp.spec_rfc3339(),
            rest1,
            rest2,
        );
        lemma_strip(t2, n1 + (t3 + (p1 + (t4 + (m1 + (t5 + g1))))), n2 + (t3 + (p2 + (t4 + (m2 + (
        t5 + g2))))));
        crate::cbor::lemma_uint_prefix(
            h1.nonce,
            h2.nonce,
            t3 + (p1 + (t4 + (m1 + (t5 + g1)))),
            t3 + (p2 + (t4 + (m2 + (t5 + g2)))),
        );
        lemma_strip(t3, p1 + (t4 + (m1 + (t5 + g1))), p2 + (t4 + (m2 + (t5 + g2))));
        crate::u256::lemma_u256_prefix(
            h1.prev_block_hash.0,
            h2.prev_block_hash.0,
            t4 + (m1 + (t5 + g1)),
            t4 + (m2 + (t5 + g2)),
        );
        lemma_strip(t4, m1 + (t5 + g1), m2 + (t5 + g2));
        crate::u256::lemma_u256_prefix(h1.merkle_root.0.0, h2.merkle_root.0.0, t5 + g1, t5 + g2);
        lemma_strip(t5, g1, g2);
        assert(g1 + Seq::<u8>::empty() =~= g1);
        assert(g2 + Seq::<u8>::empty() =~= g2);
        crate::u256::lemma_u256_prefix(h1.target, h2.target, Seq::empty(), Seq::empty());
    }
}

/// The encoding that a header's hash is taken over holds every field: two headers with the
/// same timestamp have the same encoding exactly when they are equal, so headers that differ
/// in nonce, previous hash, Merkle root or target are encoded (and hashed) differently.
pub proof fn lemma_header_encoding_injective(h1: BlockHeader, h2: BlockHeader)
    requires
        h1.timestamp == h2.timestamp,
    ensures
        enc_header(h1) == enc_header(h2) <==> h1 == h2,
{
    reveal(enc_header);
    if enc_header(h1) == enc_header(h2) {
        let pre = enc_map_head(5) + enc_text("timestamp".spec_bytes()) + enc_text(
            h1.timestamp.spec_rfc3339(),
        ) + enc_text("nonce".spec_bytes());
        let t3 = enc_text("prev_block_hash".spec_bytes());
        let t4 = enc_text("merkle_root".spec_bytes());
        let t5 = enc_text("target".spec_bytes());
        let n1 = enc_uint(h1.nonce);
        let n2 = enc_uint(h2.nonce);
        let p1 = spec_encode_u256(h1.prev_block_hash.0);
        let p2 = spec_encode_u256(h2.prev_block_hash.0);
        let m1 = spec_encode_u256(h1.merkle_root.0.0);
        let m2 = spec_encode_u256(h2.merkle_root.0.0);
        let g1 = spec_encode_u256(h1.target);
        let g2 = spec_encode_u256(h2.target);
        lemma_regroup7(pre, n1, t3, p1, t4, m1, t5, g1);
        lemma_regroup7(pre, n2, t3, p2, t4, m2, t5, g2);
        lemma_strip(pre, n1 + (t3 + (p1 + (t4 + (m1 + (t5 + g1))))), n2 + (t3 + (p2 + (t4 + (m2 + (
        t5 + g2))))));
        crate::cbor::lemma_uint_prefix(
            h1.nonce,
            h2.nonce,
            t3 + (p1 + (t4 + (m1 + (t5 + g1)))),
            t3 + (p2 + (t4 + (m2 + (t5 + g2)))),
        );
        lemma_strip(t3, p1 + (t4 + (m1 + (t5 + g1))), p2 + (t4 + (m2 + (t5 + g2))));
        crate::u256::lemma_u256_prefix(
            h1.prev_block_hash.0,
            h2.prev_block_hash.0,
            t4 + (m1 + (t5 + g1)),
            t4 + (m2 + (t5 + g2)),
        );
        lemma_strip(t4, m1 + (t5 + g1), m2 + (t5 + g2));
        crate::u256::lemma_u256_prefix(h1.merkle_root.0.0, h2.merkle_root.0.0, t5 + g1, t5 + g2);
        lemma_strip(t5, g1, g2);
        assert(g1 + Seq::<u8>::empty() =~= g1);
        assert(g2 + Seq::<u8>::empty() =~= g2);
        crate::u256::lemma_u256_prefix(h1.target, h2.target, Seq::empty(), Seq::empty());
    }
}

/// Concatenated encodings of a sequence of transactions.
pub open spec fn enc_txs(s: Seq<TxV>) -> Seq<u8>
    decreases s.len(),
{
    if s.len() == 0 {
        seq![]
    } else {
        enc_txs(s.drop_last()) + enc_tx(s.last())
    }
}

/// CBOR encoding of a block (a map of its header and transactions).
#[verifier::opaque]
pub open spec fn enc_block(b: BlockV) -> Seq<u8> {
    enc_map_head(2) + enc_text("header".spec_bytes()) + enc_header(b.header) + enc_text(
        "transactions".spec_bytes(),
    ) + enc_array_head(b.transactions.len()) + enc_txs(b.transactions)
}

/// Hash of a block header.
pub open spec fn header_hash(h: BlockHeader) -> crate::sha256::Hash {
    spec_hash_bytes(enc_header(h))
}

/// The header's hash is no greater than its target.
pub open spec fn header_matches_target(h: BlockHeader) -> bool {
    header_hash(h).0.value() <= h.target.value()
}

/// The header with its nonce moved `k` further.
pub open spec fn nonce_offset(h: BlockHeader, k: int) -> BlockHeader {
    BlockHeader { nonce: (h.nonce + k) as u64, ..h }
}

/// The header `k` nonces further on when the nonce restarts at 0 after its largest value,
/// and the timestamp then becomes `t`.
pub open spec fn nonce_step(h: BlockHeader, k: int, t: Timestamp) -> BlockHeader {
    if h.nonce + k <= u64::MAX {
        nonce_offset(h, k)
    } else {
        BlockHeader { nonce: (h.nonce + k - 0x1_0000_0000_0000_0000) as u64, timestamp: t, ..h }
    }
}

/// Sum of the amounts of a sequence of outputs.
pub open spec fn sum_outputs(s: Seq<OutputV>) -> int
    decreases s.len(),
{
    if s.len() == 0 {
        0
    } else {
        sum_outputs(s.drop_last()) + s.last().amount
    }
}

/// The number of halvings at a block height, narrowed to 32 bits as the reward computation does.
pub open spec fn halving_exponent(height: u64) -> int {
    (height / HALVING_INTERVAL) as int % 0x1_0000_0000
}

/// Block subsidy after `halvings` halvings: the initial reward in sats, halved that many times.
pub open spec fn subsidy(halvings: nat) -> int {
    (INITIAL_REWARD * SATS_PER_BTC) as int / vstd::arithmetic::power2::pow2(halvings) as int
}

/// Why the transactions of a block are refused, or why checking them would overflow.
#[derive(Clone, Copy, Debug, PartialEq, Eq, Structural)]
pub enum Failure {
    NoTransactions,
    /// An input spends this unknown output.
    MissingOutput(crate::sha256::Hash),
    /// An input spends this output, which an earlier input already spends.
    DoubleSpend(crate::sha256::Hash),
    BadSignature,
    Overspend,
    CoinbaseHasInputs,
    CoinbaseWithoutOutputs,
    CoinbaseAmount,
    Overflow,
}

/// The error `e` is the one that reports the failure `f`; a doubly spent output is named by
/// its unique id in `utxo`.
pub open spec fn reports(e: BtcError, f: Failure, utxo: UtxoMap) -> bool {
    match f {
        Failure::NoTransactions => e matches BtcError::InvalidBlock(m) && m@ == "No transactions"@,
        Failure::MissingOutput(h) => e matches BtcError::InvalidTransaction(m) && m@
            == "Spending output that does not exist: "@ + hex_text(h.0.value() as nat),
        Failure::DoubleSpend(h) => e matches BtcError::InvalidTransaction(m) && m@
            == "Double spend of the output: "@ + hyphenated(utxo[h].1.unique_id),
        Failure::BadSignature => e is InvalidSignature,
        Failure::Overspend => e matches BtcError::InvalidTransaction(m) && m@
            == "Spending more than available"@,
        Failure::CoinbaseHasInputs => e matches BtcError::InvalidTransaction(m) && m@
            == "Coinbase transaction cannot have inputs"@,
        Failure::CoinbaseWithoutOutputs => e matches BtcError::InvalidTransaction(m) && m@
            == "Coinbase transaction must have outputs"@,
        Failure::CoinbaseAmount => e matches BtcError::InvalidTransaction(m) && m@
            == "Outputs in coinbase tx do not equal to block reward + fees"@,
        Failure::Overflow => false,
    }
}

/// The error that reports a failure that names no output.
pub fn plain_failure_error(f: Failure) -> (e: BtcError)
    requires
        !(f is Overflow || f is MissingOutput || f is DoubleSpend),
    ensures
        forall|utxo: UtxoMap| #[trigger] reports(e, f, utxo),
{
    match f {
        Failure::NoTransactions => BtcError::InvalidBlock("No transactions".to_string()),
        Failure::BadSignature => BtcError::InvalidSignature,
        Failure::Overspend => BtcError::InvalidTransaction("Spending more than available".to_string()),
        Failure::CoinbaseHasInputs => BtcError::InvalidTransaction(
            "Coinbase transaction cannot have inputs".to_string(),
        ),
        Failure::CoinbaseWithoutOutputs => BtcError::InvalidTransaction(
            "Coinbase transaction must have outputs".to_string(),
        ),
        _ => BtcError::InvalidTransaction(
            "Outputs in coinbase tx do not equal to block reward + fees".to_string(),
        ),
    }
}

/// The error that reports a failure (never called with `Overflow`).
pub fn failure_error(f: Failure, utxo_set: &UtxoSet) -> (e: BtcError)
    requires
        f != Failure::Overflow,
        f matches Failure::DoubleSpend(h) ==> utxo_set.spec_map().contains_key(h),
    ensures
        reports(e, f, utxo_set.spec_map()),
{
    match f {
        Failure::MissingOutput(h) => {
            let mut m = "Spending output that does not exist: ".to_string();
            push_hex(&mut m, &h.0);
            BtcError::InvalidTransaction(m)
        },
        Failure::DoubleSpend(h) => {
            let mut m = "Double spend of the output: ".to_string();
            match utxo_set.get(&h) {
                Some((_, prev_output)) => {
                    let id = uuid_text(&prev_output.unique_id.0);
                    m.append(id.as_str());
                },
                None => {},
            }
            BtcError::InvalidTransaction(m)
        },
        _ => plain_failure_error(f),
    }
}

/// Outcome of checking a prefix of inputs or transactions: a failure, or the amount summed so
/// far with the output hashes spent so far.
pub enum Scan {
    Failed(Failure),
    Done(int, Set<crate::sha256::Hash>),
}

/// One more input: it must spend a known output not yet spent in this block, with a valid
/// signature; its amount is added.
pub open spec fn input_step(utxo: UtxoMap, prev: Scan, input: InputV) -> Scan {
    match prev {
        Scan::Failed(f) => Scan::Failed(f),
        Scan::Done(amount, sp) => {
            let h = input.prev_tx_output_hash;
            if !utxo.contains_key(h) {
                Scan::Failed(Failure::MissingOutput(h))
            } else if sp.contains(h) {
                Scan::Failed(Failure::DoubleSpend(h))
            } else if !ecdsa_verifies(utxo[h].1.pubkey, h.spec_bytes(), input.signature) {
                Scan::Failed(Failure::BadSignature)
            } else if amount + utxo[h].1.amount > u64::MAX {
                Scan::Failed(Failure::Overflow)
            } else {
                Scan::Done(amount + utxo[h].1.amount, sp.insert(h))
            }
        },
    }
}

/// Checks the inputs of a transaction in order, starting from the outputs already spent;
/// sums the amounts spent.
#[verifier::opaque]
pub open spec fn scan_inputs(utxo: UtxoMap, spent: Set<crate::sha256::Hash>, inputs: Seq<InputV>) -> Scan
    decreases inputs.len(),
{
    if inputs.len() == 0 {
        Scan::Done(0, spent)
    } else {
        input_step(utxo, scan_inputs(utxo, spent, inputs.drop_last()), inputs.last())
    }
}

/// Checks one (non-coinbase) transaction: its inputs, then that it spends no more than it has.
/// The amount of the outcome is the fee.
pub open spec fn scan_tx(utxo: UtxoMap, spent: Set<crate::sha256::Hash>, tx: TxV) -> Scan {
    match scan_inputs(utxo, spent, tx.inputs) {
        Scan::Failed(f) => Scan::Failed(f),
        Scan::Done(input_amount, sp) => {
            let output_amount = sum_outputs(tx.outputs);
            if output_amount > u64::MAX {
                Scan::Failed(Failure::Overflow)
            } else if input_amount < output_amount {
                Scan::Failed(Failure::Overspend)
            } else {
                Scan::Done(input_amount - output_amount, sp)
            }
        },
    }
}

/// One more (non-coinbase) transaction: its fee is added to the fees so far.
pub open spec fn tx_step(utxo: UtxoMap, prev: Scan, tx: TxV) -> Scan {
    match prev {
        Scan::Failed(f) => Scan::Failed(f),
        Scan::Done(fees, sp) => match scan_tx(utxo, sp, tx) {
            Scan::Failed(f) => Scan::Failed(f),
            Scan::Done(fee, sp2) => if fees + fee > u64::MAX {
                Scan::Failed(Failure::Overflow)
            } else {
                Scan::Done(fees + fee, sp2)
            },
        },
    }
}

/// Checks a sequence of (non-coinbase) transactions in order; the amount is the total fee.
#[verifier::opaque]
pub open spec fn scan_txs(utxo: UtxoMap, txs: Seq<TxV>) -> Scan
    decreases txs.len(),
{
    if txs.len() == 0 {
        Scan::Done(0, Set::empty())
    } else {
        tx_step(utxo, scan_txs(utxo, txs.drop_last()), txs.last())
    }
}

/// The transactions after the coinbase transaction.
pub open spec fn non_coinbase(txs: Seq<TxV>) -> Seq<TxV> {
    if txs.len() == 0 {
        Seq::empty()
    } else {
        txs.skip(1)
    }
}

/// Checks the coinbase transaction (the first one): no inputs, some outputs, and outputs that
/// add up to the block subsidy plus the fees. `None` when it is valid.
pub open spec fn coinbase_outcome(txs: Seq<TxV>, height: u64, fees: int) -> Option<Failure> {
    let coinbase = txs[0];
    if coinbase.inputs.len() != 0 {
        Some(Failure::CoinbaseHasInputs)
    } else if coinbase.outputs.len() == 0 {
        Some(Failure::CoinbaseWithoutOutputs)
    } else if halving_exponent(height) >= 64 {
        Some(Failure::Overflow)
    } else if sum_outputs(coinbase.outputs) > u64::MAX {
        Some(Failure::Overflow)
    } else if subsidy(halving_exponent(height) as nat) + fees > u64::MAX {
        Some(Failure::Overflow)
    } else if sum_outputs(coinbase.outputs) != subsidy(halving_exponent(height) as nat) + fees {
        Some(Failure::CoinbaseAmount)
    } else {
        None
    }
}

/// Outcome of checking all transactions of a block; `None` when they are valid.
pub open spec fn verify_outcome(txs: Seq<TxV>, height: u64, utxo: UtxoMap) -> Option<Failure> {
    if txs.len() == 0 {
        Some(Failure::NoTransactions)
    } else {
        match scan_txs(utxo, non_coinbase(txs)) {
            Scan::Failed(f) => Some(f),
            Scan::Done(fees, _) => coinbase_outcome(txs, height, fees),
        }
    }
}

/// One more input of the fee computation: the amount of the output it spends is added;
/// `MissingOutput` when that output is unknown, `Overflow` when the sum would overflow.
pub open spec fn amount_step(utxo: UtxoMap, prev: Result<int, Failure>, input: InputV) -> Result<int, Failure> {
    match prev {
        Err(e) => Err(e),
        Ok(amount) => {
            let h = input.prev_tx_output_hash;
            if !utxo.contains_key(h) {
                Err(Failure::MissingOutput(h))
            } else if amount + utxo[h].1.amount > u64::MAX {
                Err(Failure::Overflow)
            } else {
                Ok(amount + utxo[h].1.amount)
            }
        },
    }
}

/// Sum of the amounts of the outputs that inputs spend: `MissingOutput` for the first one
/// that is unknown, `Overflow` when the sum would overflow.
#[verifier::opaque]
pub open spec fn input_sum(utxo: UtxoMap, inputs: Seq<InputV>) -> Result<int, Failure>
    decreases inputs.len(),
{
    if inputs.len() == 0 {
        Ok(0)
    } else {
        amount_step(utxo, input_sum(utxo, inputs.drop_last()), inputs.last())
    }
}

/// One more transaction of the fee computation: its fee (inputs minus outputs) is added;
/// `Overflow` when a sum would overflow or the outputs exceed the inputs.
pub open spec fn fee_step(utxo: UtxoMap, prev: Result<int, Failure>, tx: TxV) -> Result<int, Failure> {
    match prev {
        Err(e) => Err(e),
        Ok(fees) => match input_sum(utxo, tx.inputs) {
            Err(e) => Err(e),
            Ok(input_amount) => {
                let output_amount = sum_outputs(tx.outputs);
                if output_amount > u64::MAX || input_amount < output_amount || fees + (input_amount
                    - output_amount) > u64::MAX {
                    Err(Failure::Overflow)
                } else {
                    Ok(fees + (input_amount - output_amount))
                }
            },
        },
    }
}

/// Outcome of summing the fees of transactions assumed valid: `MissingOutput` when an input
/// spends an unknown output, `Overflow` when a sum would overflow or a transaction spends
/// more than it has.
#[verifier::opaque]
pub open spec fn fee_sum(utxo: UtxoMap, txs: Seq<TxV>) -> Result<int, Failure>
    decreases txs.len(),
{
    if txs.len() == 0 {
        Ok(0)
    } else {
        fee_step(utxo, fee_sum(utxo, txs.drop_last()), txs.last())
    }
}

/// Inputs that pass the block's check sum, in the fee computation, to the amount the check
/// found.
proof fn lemma_scan_inputs_sum(utxo: UtxoMap, sp: Set<crate::sha256::Hash>, s: Seq<InputV>)
    requires
        scan_inputs(utxo, sp, s) is Done,
    ensures
        scan_inputs(utxo, sp, s) matches Scan::Done(a, _) && input_sum(utxo, s) == Ok::<int, Failure>(a),
    decreases s.len(),
{
    reveal(scan_inputs);
    reveal(input_sum);
    if s.len() > 0 {
        lemma_scan_inputs_sum(utxo, sp, s.drop_last());
    }
}

/// Transactions that pass the block's check have, in the fee computation, the total fee
/// the check found.
proof fn lemma_scan_txs_fee_sum(utxo: UtxoMap, txs: Seq<TxV>)
    requires
        scan_txs(utxo, txs) is Done,
    ensures
        scan_txs(utxo, txs) matches Scan::Done(f, _) && fee_sum(utxo, txs) == Ok::<int, Failure>(f),
    decreases txs.len(),
{
    reveal(scan_txs);
    reveal(fee_sum);
    if txs.len() > 0 {
        lemma_scan_txs_fee_sum(utxo, txs.drop_last());
        let prev = scan_txs(utxo, txs.drop_last());
        let sp = prev->Done_1;
        lemma_scan_inputs_sum(utxo, sp, txs.last().inputs);
    }
}

/// The fees that the check of a block's transactions adds up are the fees that the miner-fee
/// computation gives: for a block whose transactions are valid, the computation succeeds and
/// its total is one the coinbase transaction is accepted with.
pub proof fn lemma_verified_block_fees(txs: Seq<TxV>, height: u64, utxo: UtxoMap)
    requires
        verify_outcome(txs, height, utxo) is None,
    ensures
        fee_sum(utxo, non_coinbase(txs)) matches Ok(f) && coinbase_outcome(txs, height, f) is None,
{
    lemma_scan_txs_fee_sum(utxo, non_coinbase(txs));
}

/// Hashes of the outputs that inputs spend, in order.
pub open spec fn spent_hashes(inputs: Seq<InputV>) -> Seq<crate::sha256::Hash> {
    inputs.map_values(|i: InputV| i.prev_tx_output_hash)
}

/// Hashes of the outputs that the inputs of transactions spend, in order.
pub open spec fn txs_spent_hashes(txs: Seq<TxV>) -> Seq<crate::sha256::Hash>
    decreases txs.len(),
{
    if txs.len() == 0 {
        Seq::empty()
    } else {
        txs_spent_hashes(txs.drop_last()) + spent_hashes(txs.last().inputs)
    }
}

/// Inputs that pass the check spend outputs that were not spent before and no output twice;
/// afterwards the spent outputs are those spent before and theirs.
proof fn lemma_scan_inputs_spent(utxo: UtxoMap, sp: Set<crate::sha256::Hash>, s: Seq<InputV>)
    requires
        scan_inputs(utxo, sp, s) is Done,
    ensures
        scan_inputs(utxo, sp, s)->Done_1 == sp.union(spent_hashes(s).to_set()),
        spent_hashes(s).no_duplicates(),
        forall|k: int| 0 <= k < s.len() ==> !sp.contains(#[trigger] spent_hashes(s)[k]),
        forall|k: int|
            0 <= k < s.len() ==> {
                &&& utxo.contains_key(#[trigger] s[k].prev_tx_output_hash)
                &&& ecdsa_verifies(
                    utxo[s[k].prev_tx_output_hash].1.pubkey,
                    s[k].prev_tx_output_hash.spec_bytes(),
                    s[k].signature,
                )
            },
    decreases s.len(),
{
    reveal(scan_inputs);
    if s.len() > 0 {
        assert forall|k: int| 0 <= k < s.len() - 1 implies s[k] == s.drop_last()[k] by {}
        let d = s.drop_last();
        let x = s.last();
        lemma_scan_inputs_spent(utxo, sp, d);
        let spd = scan_inputs(utxo, sp, d)->Done_1;
        let h = x.prev_tx_output_hash;
        let hd = spent_hashes(d);
        let hs = spent_hashes(s);
        assert(hs =~= hd.push(h));
        assert(!spd.contains(h));
        assert(!hd.contains(h)) by {
            if hd.contains(h) {
                let k = choose|k: int| 0 <= k < hd.len() && hd[k] == h;
                assert(hd.to_set().contains(h));
            }
        }
        assert forall|a: int, b: int| 0 <= a < b < hs.len() implies hs[a] != hs[b] by {
            if b < hd.len() {
                assert(hs[a] == hd[a] && hs[b] == hd[b]);
            } else {
                assert(hs[b] == h);
                assert(hs[a] == hd[a]);
            }
        }
        assert forall|k: int| 0 <= k < s.len() implies !sp.contains(#[trigger] hs[k]) by {
            if k < hd.len() {
                assert(hs[k] == hd[k]);
            } else {
                assert(hs[k] == h);
            }
        }
        assert(scan_inputs(utxo, sp, s)->Done_1 == spd.insert(h));
        assert(spd.insert(h) =~= sp.union(hs.to_set())) by {
            assert forall|g: crate::sha256::Hash| hs.contains(g) <==> (hd.contains(g) || g == h) by {
                if hs.contains(g) {
                    let k = choose|k: int| 0 <= k < hs.len() && hs[k] == g;
                    if k < hd.len() {
                        assert(hd[k] == g);
                    }
                }
                if hd.contains(g) {
                    let k = choose|k: int| 0 <= k < hd.len() && hd[k] == g;
                    assert(hs[k] == g);
                }
                if g == h {
                    assert(hs[hs.len() - 1] == h);
                }
            }
        }
    } else {
        assert(spent_hashes(s).to_set() =~= Set::empty());
        assert(sp.union(Set::empty()) =~= sp);
    }
}

/// Transactions that pass the check spend every output at most once, and the outputs spent
/// after them are exactly those their inputs spend.
proof fn lemma_scan_txs_spent(utxo: UtxoMap, txs: Seq<TxV>)
    requires
        scan_txs(utxo, txs) is Done,
    ensures
        scan_txs(utxo, txs)->Done_1 == txs_spent_hashes(txs).to_set(),
        txs_spent_hashes(txs).no_duplicates(),
    decreases txs.len(),
{
    reveal(scan_txs);
    if txs.len() > 0 {
        let d = txs.drop_last();
        let x = txs.last();
        lemma_scan_txs_spent(utxo, d);
        let spp = scan_txs(utxo, d)->Done_1;
        lemma_scan_inputs_spent(utxo, spp, x.inputs);
        let a = txs_spent_hashes(d);
        let b = spent_hashes(x.inputs);
        let all = txs_spent_hashes(txs);
        assert(all == a + b);
        assert forall|i: int, j: int| 0 <= i < j < all.len() implies all[i] != all[j] by {
            if j < a.len() {
                assert(all[i] == a[i] && all[j] == a[j]);
            } else if i >= a.len() {
                assert(all[i] == b[i - a.len()] && all[j] == b[j - a.len()]);
            } else {
                assert(all[i] == a[i] && all[j] == b[j - a.len()]);
                assert(spp.contains(a[i]));
            }
        }
        assert(scan_txs(utxo, txs)->Done_1 =~= all.to_set()) by {
            assert forall|g: crate::sha256::Hash| all.contains(g) <==> (a.contains(g) || b.contains(g)) by {
                if all.contains(g) {
                    let k = choose|k: int| 0 <= k < all.len() && all[k] == g;
                    if k < a.len() {
                        assert(a[k] == g);
                    } else {
                        assert(b[k - a.len()] == g);
                    }
                }
                if a.contains(g) {
                    let k = choose|k: int| 0 <= k < a.len() && a[k] == g;
                    assert(all[k] == g);
                }
                if b.contains(g) {
                    let k = choose|k: int| 0 <= k < b.len() && b[k] == g;
                    assert(all[a.len() + k] == g);
                }
            }
        }
    } else {
        assert(txs_spent_hashes(txs).to_set() =~= Set::empty());
    }
}

/// A block whose transactions are valid spends every output at most once: no two inputs of
/// its transactions after the coinbase, in one transaction or in two, spend the same output.
pub proof fn lemma_accepted_spends_once(txs: Seq<TxV>, height: u64, utxo: UtxoMap)
    requires
        verify_outcome(txs, height, utxo) is None,
    ensures
        txs_spent_hashes(non_coinbase(txs)).no_duplicates(),
{
    lemma_scan_txs_spent(utxo, non_coinbase(txs));
}

/// Every input of a transaction that passes the check spends a known output and carries a
/// signature that the output's key verifies on the output's hash.
proof fn lemma_scan_txs_inputs(utxo: UtxoMap, txs: Seq<TxV>, i: int, k: int)
    requires
        scan_txs(utxo, txs) is Done,
        0 <= i < txs.len(),
        0 <= k < txs[i].inputs.len(),
    ensures
        utxo.contains_key(txs[i].inputs[k].prev_tx_output_hash),
        ecdsa_verifies(
            utxo[txs[i].inputs[k].prev_tx_output_hash].1.pubkey,
            txs[i].inputs[k].prev_tx_output_hash.spec_bytes(),
            txs[i].inputs[k].signature,
        ),
        input_sum(utxo, txs[i].inputs) matches Ok(a) && a >= sum_outputs(txs[i].outputs),
    decreases txs.len(),
{
    reveal(scan_txs);
    let d = txs.drop_last();
    if i < txs.len() - 1 {
        assert(d[i] == txs[i]);
        lemma_scan_txs_inputs(utxo, d, i, k);
    } else {
        let spp = scan_txs(utxo, d)->Done_1;
        let x = txs.last();
        assert(txs[i] == x);
        lemma_scan_inputs_spent(utxo, spp, x.inputs);
        lemma_scan_inputs_sum(utxo, spp, x.inputs);
    }
}

/// A block whose transactions are valid has, after its coinbase, only transactions whose
/// inputs spend known outputs with signatures their keys verify, and that spend at least what
/// they pay out.
pub proof fn lemma_accepted_inputs_valid(txs: Seq<TxV>, height: u64, utxo: UtxoMap, i: int, k: int)
    requires
        verify_outcome(txs, height, utxo) is None,
        1 <= i < txs.len(),
        0 <= k < txs[i].inputs.len(),
    ensures
        utxo.contains_key(txs[i].inputs[k].prev_tx_output_hash),
        ecdsa_verifies(
            utxo[txs[i].inputs[k].prev_tx_output_hash].1.pubkey,
            txs[i].inputs[k].prev_tx_output_hash.spec_bytes(),
            txs[i].inputs[k].signature,
        ),
        input_sum(utxo, txs[i].inputs) matches Ok(a) && a >= sum_outputs(txs[i].outputs),
{
    let nc = non_coinbase(txs);
    assert(nc[i - 1] == txs[i]);
    lemma_scan_txs_inputs(utxo, nc, i - 1, k);
}

proof fn lemma_scan_inputs_take(utxo: UtxoMap, sp: Set<crate::sha256::Hash>, s: Seq<InputV>, k: int)
    requires
        0 <= k < s.len(),
    ensures
        scan_inputs(utxo, sp, s.take(k + 1)) == input_step(utxo, scan_inputs(utxo, sp, s.take(k)), s[k]),
        scan_inputs(utxo, sp, s.take(0)) == Scan::Done(0, sp),
{
    reveal(scan_inputs);
    assert(s.take(k + 1).drop_last() =~= s.take(k));
    assert(s.take(0) =~= Seq::<InputV>::empty());
}

proof fn lemma_scan_inputs_prefix(utxo: UtxoMap, sp: Set<crate::sha256::Hash>, s: Seq<InputV>, k: int)
    requires
        0 <= k <= s.len(),
        scan_inputs(utxo, sp, s.take(k)) is Failed,
    ensures
        scan_inputs(utxo, sp, s) == scan_inputs(utxo, sp, s.take(k)),
    decreases s.len(),
{
    reveal(scan_inputs);
    if k < s.len() {
        assert(s.drop_last().take(k) =~= s.take(k));
        lemma_scan_inputs_prefix(utxo, sp, s.drop_last(), k);
    } else {
        assert(s.take(k) =~= s);
    }
}

proof fn lemma_double_spend_known(utxo: UtxoMap, sp: Set<crate::sha256::Hash>, s: Seq<InputV>)
    ensures
        scan_inputs(utxo, sp, s) matches Scan::Failed(Failure::DoubleSpend(h)) ==> utxo.contains_key(h),
    decreases s.len(),
{
    reveal(scan_inputs);
    if s.len() > 0 {
        lemma_double_spend_known(utxo, sp, s.drop_last());
    }
}

proof fn lemma_scan_txs_take(utxo: UtxoMap, s: Seq<TxV>, k: int)
    requires
        0 <= k < s.len(),
    ensures
        scan_txs(utxo, s.take(k + 1)) == tx_step(utxo, scan_txs(utxo, s.take(k)), s[k]),
        scan_txs(utxo, s.take(0)) == Scan::Done(0, Set::<crate::sha256::Hash>::empty()),
{
    reveal(scan_txs);
    assert(s.take(k + 1).drop_last() =~= s.take(k));
    assert(s.take(0) =~= Seq::<TxV>::empty());
}

proof fn lemma_scan_txs_prefix(utxo: UtxoMap, s: Seq<TxV>, k: int)
    requires
        0 <= k <= s.len(),
        scan_txs(utxo, s.take(k)) is Failed,
    ensures
        scan_txs(utxo, s) == scan_txs(utxo, s.take(k)),
    decreases s.len(),
{
    reveal(scan_txs);
    if k < s.len() {
        assert(s.drop_last().take(k) =~= s.take(k));
        lemma_scan_txs_prefix(utxo, s.drop_last(), k);
    } else {
        assert(s.take(k) =~= s);
    }
}

pub(crate) proof fn lemma_input_sum_take(utxo: UtxoMap, s: Seq<InputV>, k: int)
    requires
        0 <= k < s.len(),
    ensures
        input_sum(utxo, s.take(k + 1)) == amount_step(utxo, input_sum(utxo, s.take(k)), s[k]),
        input_sum(utxo, s.take(0)) == Ok::<int, Failure>(0),
{
    reveal(input_sum);
    assert(s.take(k + 1).drop_last() =~= s.take(k));
    assert(s.take(0) =~= Seq::<InputV>::empty());
}

pub(crate) proof fn lemma_input_sum_prefix(utxo: UtxoMap, s: Seq<InputV>, k: int)
    requires
        0 <= k <= s.len(),
        input_sum(utxo, s.take(k)) is Err,
    ensures
        input_sum(utxo, s) == input_sum(utxo, s.take(k)),
    decreases s.len(),
{
    reveal(input_sum);
    if k < s.len() {
        assert(s.drop_last().take(k) =~= s.take(k));
        lemma_input_sum_prefix(utxo, s.drop_last(), k);
    } else {
        assert(s.take(k) =~= s);
    }
}

proof fn lemma_fee_sum_take(utxo: UtxoMap, s: Seq<TxV>, k: int)
    requires
        0 <= k < s.len(),
    ensures
        fee_sum(utxo, s.take(k + 1)) == fee_step(utxo, fee_sum(utxo, s.take(k)), s[k]),
        fee_sum(utxo, s.take(0)) == Ok::<int, Failure>(0),
{
    reveal(fee_sum);
    assert(s.take(k + 1).drop_last() =~= s.take(k));
    assert(s.take(0) =~= Seq::<TxV>::empty());
}

proof fn lemma_fee_sum_prefix(utxo: UtxoMap, s: Seq<TxV>, k: int)
    requires
        0 <= k <= s.len(),
        fee_sum(utxo, s.take(k)) is Err,
    ensures
        fee_sum(utxo, s) == fee_sum(utxo, s.take(k)),
    decreases s.len(),
{
    reveal(fee_sum);
    if k < s.len() {
        assert(s.drop_last().take(k) =~= s.take(k));
        lemma_fee_sum_prefix(utxo, s.drop_last(), k);
    } else {
        assert(s.take(k) =~= s);
    }
}

pub(crate) proof fn lemma_sum_outputs_prefix_le(s: Seq<OutputV>, k: int)
    requires
        0 <= k <= s.len(),
    ensures
        0 <= sum_outputs(s.take(k)) <= sum_outputs(s),
    decreases s.len(),
{
    if k < s.len() {
        assert(s.drop_last().take(k) =~= s.take(k));
        lemma_sum_outputs_prefix_le(s.drop_last(), k);
    } else {
        assert(s.take(k) =~= s);
        if s.len() > 0 {
            lemma_sum_outputs_prefix_le(s.drop_last(), s.len() - 1);
            assert(s.drop_last().take(s.len() - 1) =~= s.drop_last());
        }
    }
}

/// Sum of the amounts of outputs; the sum must fit in 64 bits.
pub fn sum_output_amounts(outputs: &Vec<crate::transaction::TxOutput>) -> (r: u64)
    requires
        sum_outputs(outputs@.map_values(|o: crate::transaction::TxOutput| o@)) <= u64::MAX,
    ensures
        r == sum_outputs(outputs@.map_values(|o: crate::transaction::TxOutput| o@)),
{
    let ghost all = outputs@.map_values(|o: crate::transaction::TxOutput| o@);
    let mut total: u64 = 0;
    let mut k: usize = 0;
    while k < outputs.len()
        invariant
            k <= outputs@.len(),
            all == outputs@.map_values(|o: crate::transaction::TxOutput| o@),
            sum_outputs(all) <= u64::MAX,
            total == sum_outputs(all.take(k as int)),
        decreases outputs@.len() - k,
    {
        proof {
            assert(all.take(k + 1).drop_last() =~= all.take(k as int));
            lemma_sum_outputs_prefix_le(all, k + 1);
        }
        total = total + outputs[k].amount;
        k = k + 1;
    }
    assert(all.take(k as int) =~= all);
    total
}

/// Whether a hash is among those in the vector.
pub(crate) fn contains_hash(v: &Vec<crate::sha256::Hash>, h: &crate::sha256::Hash) -> (r: bool)
    ensures
        r == v@.contains(*h),
{
    let mut i: usize = 0;
    while i < v.len()
        invariant
            i <= v@.len(),
            forall|j: int| 0 <= j < i ==> v@[j] != *h,
        decreases v@.len() - i,
    {
        if v[i] == *h {
            return true;
        }
        i = i + 1;
    }
    false
}

/// Checks the inputs of a transaction against the UTXO set and the outputs already spent;
/// gives the amount they spend.
fn check_inputs(tx: &Tx, utxo_set: &UtxoSet, spent: &mut Vec<crate::sha256::Hash>) -> (r: Result<
    u64,
    Failure,
>)
    requires
        !(scan_inputs(utxo_set.spec_map(), old(spent)@.to_set(), tx@.inputs) == Scan::Failed(
            Failure::Overflow,
        )),
    ensures
        match scan_inputs(utxo_set.spec_map(), old(spent)@.to_set(), tx@.inputs) {
            Scan::Failed(f) => r == Err::<u64, Failure>(f),
            Scan::Done(amount, sp) => (r matches Ok(a) && a == amount && final(spent)@.to_set() == sp),
        },
{
    let ghost utxo = utxo_set.spec_map();
    let ghost sp0 = spent@.to_set();
    let ghost inputs = tx@.inputs;
    let mut input_amount: u64 = 0;
    let mut k: usize = 0;
    proof {
        reveal(scan_inputs);
        assert(inputs.take(0) =~= Seq::<InputV>::empty());
    }
    while k < tx.inputs.len()
        invariant
            k <= tx.inputs@.len(),
            inputs == tx@.inputs,
            utxo == utxo_set.spec_map(),
            sp0 == old(spent)@.to_set(),
            !(scan_inputs(utxo, sp0, inputs) == Scan::Failed(Failure::Overflow)),
            scan_inputs(utxo, sp0, inputs.take(k as int)) == Scan::Done(
                input_amount as int,
                spent@.to_set(),
            ),
        decreases tx.inputs@.len() - k,
    {
        let input = &tx.inputs[k];
        proof {
            lemma_scan_inputs_take(utxo, sp0, inputs, k as int);
            assert(inputs[k as int] == input@);
        }
        let h = input.prev_tx_output_hash;
        match utxo_set.get(&h) {
            None => {
                proof {
                    lemma_scan_inputs_prefix(utxo, sp0, inputs, k + 1);
                }
                return Err(Failure::MissingOutput(h));
            },
            Some((_, prev_output)) => {
                if contains_hash(spent, &h) {
                    proof {
                        broadcast use vstd::seq_lib::group_seq_properties;
                        assert(spent@.to_set().contains(h));
                        lemma_scan_inputs_prefix(utxo, sp0, inputs, k + 1);
                    }
                    return Err(Failure::DoubleSpend(h));
                }
                proof {
                    broadcast use vstd::seq_lib::group_seq_properties;
                    assert(!spent@.to_set().contains(h));
                }
                if !input.signature.verify(&h, &prev_output.pubkey) {
                    proof {
                        lemma_scan_inputs_prefix(utxo, sp0, inputs, k + 1);
                    }
                    return Err(Failure::BadSignature);
                }
                if input_amount > u64::MAX - prev_output.amount {
                    proof {
                        lemma_scan_inputs_prefix(utxo, sp0, inputs, k + 1);
                    }
                    assert(false);
                    return Err(Failure::Overflow);
                }
                input_amount = input_amount + prev_output.amount;
                let ghost before = spent@;
                spent.push(h);
                proof {
                    broadcast use vstd::seq_lib::group_seq_properties;
                    assert(spent@ == before.push(h));
                    assert(spent@.to_set() =~= before.to_set().insert(h));
                }
            },
        }
        k = k + 1;
    }
    assert(inputs.take(k as int) =~= inputs);
    Ok(input_amount)
}

/// Checks one (non-coinbase) transaction; gives its fee.
fn check_tx(tx: &Tx, utxo_set: &UtxoSet, spent: &mut Vec<crate::sha256::Hash>) -> (r: Result<
    u64,
    Failure,
>)
    requires
        !(scan_tx(utxo_set.spec_map(), old(spent)@.to_set(), tx@) == Scan::Failed(
            Failure::Overflow,
        )),
    ensures
        match scan_tx(utxo_set.spec_map(), old(spent)@.to_set(), tx@) {
            Scan::Failed(f) => r == Err::<u64, Failure>(f),
            Scan::Done(fee, sp) => (r matches Ok(a) && a == fee && final(spent)@.to_set() == sp),
        },
{
    let input_amount = check_inputs(tx, utxo_set, spent)?;
    let output_amount = sum_output_amounts(&tx.outputs);
    if input_amount < output_amount {
        return Err(Failure::Overspend);
    }
    Ok(input_amount - output_amount)
}

/// Block subsidy after `e` halvings, `e` below 64.
fn subsidy_after(e: u64) -> (r: u64)
    requires
        e < 64,
    ensures
        r == subsidy(e as nat),
{
    let mut d: u64 = 1;
    let mut i: u64 = 0;
    proof {
        vstd::arithmetic::power2::lemma2_to64();
    }
    while i < e
        invariant
            i <= e < 64,
            d == vstd::arithmetic::power2::pow2(i as nat),
        decreases e - i,
    {
        proof {
            vstd::arithmetic::power2::lemma_pow2_unfold((i + 1) as nat);
            vstd::arithmetic::power2::lemma_pow2_strictly_increases((i + 1) as nat, 64);
            vstd::arithmetic::power2::lemma2_to64();
        }
        d = d * 2;
        i = i + 1;
    }
    proof {
        vstd::arithmetic::power2::lemma_pow2_pos(e as nat);
    }
    (INITIAL_REWARD * SATS_PER_BTC) / d
}

impl BlockHeader {
    pub fn new(
        timestamp: Timestamp,
        nonce: u64,
        prev_block_hash: crate::sha256::Hash,
        merkle_root: MerkleRoot,
        target: U256,
    ) -> (r: BlockHeader)
        ensures
            r == (BlockHeader { timestamp, nonce, prev_block_hash, merkle_root, target }),
    {
        BlockHeader { timestamp, nonce, prev_block_hash, merkle_root, target }
    }

    /// Appends the CBOR encoding.
    pub fn push_cbor(&self, out: &mut Vec<u8>)
        ensures
            final(out)@ == old(out)@ + enc_header(*self),
    {
        push_map_head(out, 5);
        push_text(out, "timestamp".as_bytes());
        self.timestamp.push_cbor(out);
        push_text(out, "nonce".as_bytes());
        push_uint(out, self.nonce);
        push_text(out, "prev_block_hash".as_bytes());
        crate::u256::push_u256(out, &self.prev_block_hash.0);
        push_text(out, "merkle_root".as_bytes());
        crate::u256::push_u256(out, &self.merkle_root.0.0);
        push_text(out, "target".as_bytes());
        crate::u256::push_u256(out, &self.target);
        reveal(enc_header);
        assert(final(out)@ =~= old(out)@ + enc_header(*self));
    }

    /// Hash of the header.
    pub fn hash(&self) -> (r: crate::sha256::Hash)
        ensures
            r == header_hash(*self),
    {
        crate::sha256::Hash::hash(self)
    }

    /// Tries up to `steps` further nonces (moving to the current time and nonce 0 when the
    /// nonces run out) until the header's hash matches its target; reports whether it does.
    pub fn mine(&mut self, steps: usize) -> (r: bool)
        ensures
            r == header_matches_target(*final(self)),
            header_matches_target(*old(self)) ==> *final(self) == *old(self),
            final(self).prev_block_hash == old(self).prev_block_hash,
            final(self).merkle_root == old(self).merkle_root,
            final(self).target == old(self).target,
            !r && old(self).nonce + steps <= u64::MAX ==> (final(self).nonce == old(self).nonce + steps
                && final(self).timestamp == old(self).timestamp),
            old(self).nonce + steps <= u64::MAX ==> exists|k: int|
                0 <= k <= steps && *final(self) == #[trigger] nonce_offset(*old(self), k) && (forall|j: int|
                    0 <= j < k ==> !header_matches_target(#[trigger] nonce_offset(*old(self), j)))
                    && (!r ==> k == steps),
            exists|k: int, t: Timestamp|
                0 <= k <= steps && (old(self).nonce + k > u64::MAX ==> t.spec_secs() >= 0) && *final(self)
                    == #[trigger] nonce_step(*old(self), k, t) && (forall|j: int|
                    0 <= j < k ==> !header_matches_target(#[trigger] nonce_step(*old(self), j, t)))
                    && (!r ==> k == steps),
    {
        // if the block already matches the target, return early
        if self.hash().matches_target(self.target) {
            assert(*self == nonce_offset(*self, 0));
            assert(*self == nonce_step(*self, 0, self.timestamp));
            return true;
        }
        let ghost start = *self;
        assert(start == nonce_offset(start, 0));
        let ghost mut t = start.timestamp;
        assert(start == nonce_step(start, 0, t));
        let mut i: usize = 0;
        while i < steps
            invariant
                start == *old(self),
                !header_matches_target(start),
                i <= steps,
                !header_matches_target(*self),
                self.prev_block_hash == start.prev_block_hash,
                self.merkle_root == start.merkle_root,
                self.target == start.target,
                start.nonce + i <= u64::MAX ==> (self.nonce == start.nonce + i && self.timestamp
                    == start.timestamp),
                start.nonce + i <= u64::MAX ==> *self == nonce_offset(start, i as int),
                start.nonce + i <= u64::MAX ==> forall|j: int|
                    0 <= j <= i ==> !header_matches_target(#[trigger] nonce_offset(start, j)),
                steps <= usize::MAX,
                start.nonce + i > u64::MAX ==> t.spec_secs() >= 0,
                *self == nonce_step(start, i as int, t),
                forall|j: int| 0 <= j <= i ==> !header_matches_target(#[trigger] nonce_step(start, j, t)),
            decreases steps - i,
        {
            let ghost t_before = t;
            if self.nonce < u64::MAX {
                self.nonce = self.nonce + 1;
            } else {
                // we ran out of the available nonces -> update the timestamp
                self.nonce = 0;
                self.timestamp = Timestamp::now();
                proof {
                    t = self.timestamp;
                }
            }
            proof {
                assert(start.nonce + i <= u64::MAX ==> t == t_before || start.nonce + i == u64::MAX);
                assert forall|j: int| 0 <= j <= i implies #[trigger] nonce_step(start, j, t) == nonce_step(
                    start,
                    j,
                    t_before,
                ) by {
                    if start.nonce + j > u64::MAX {
                        assert(start.nonce + i > u64::MAX);
                    }
                }
                assert(*self == nonce_step(start, i + 1, t));
            }
            if self.hash().matches_target(self.target) {
                // we found the correct nonce!
                assert(start.nonce + steps <= u64::MAX ==> *self == nonce_offset(start, i + 1));
                return true;
            }
            i = i + 1;
        }
        assert(start.nonce + steps <= u64::MAX ==> *self == nonce_offset(start, steps as int));
        false
    }
}

impl Serializable for BlockHeader {
    open spec fn spec_serialize(&self) -> Seq<u8> {
        enc_header(*self)
    }

    fn serialize(&self) -> (r: Vec<u8>) {
        let mut out = Vec::new();
        self.push_cbor(&mut out);
        out
    }
}

/// Copies of the transactions.
pub fn clone_txs(v: &Vec<Tx>) -> (r: Vec<Tx>)
    ensures
        r@.map_values(|t: Tx| t@) == v@.map_values(|t: Tx| t@),
{
    let mut r: Vec<Tx> = Vec::new();
    let mut k: usize = 0;
    while k < v.len()
        invariant
            k <= v@.len(),
            r@.len() == k,
            forall|j: int| 0 <= j < k ==> (#[trigger] r@[j])@ == v@[j]@,
        decreases v@.len() - k,
    {
        r.push(v[k].clone());
        k = k + 1;
    }
    assert(r@.map_values(|t: Tx| t@) =~= v@.map_values(|t: Tx| t@));
    r
}

impl Clone for Block {
    fn clone(&self) -> (r: Block)
        ensures
            r.header == self.header,
            r@.transactions == self@.transactions,
    {
        Block { header: self.header, transactions: clone_txs(&self.transactions) }
    }
}

impl Block {
    pub fn new(header: BlockHeader, transactions: Vec<Tx>) -> (r: Block)
        ensures
            r.header == header,
            r.transactions == transactions,
    {
        Block { header, transactions }
    }

    /// Appends the CBOR encoding.
    pub fn push_cbor(&self, out: &mut Vec<u8>)
        ensures
            final(out)@ == old(out)@ + enc_block(self@),
    {
        let ghost start = out@;
        push_map_head(out, 2);
        push_text(out, "header".as_bytes());
        self.header.push_cbor(out);
        push_text(out, "transactions".as_bytes());
        push_array_head(out, self.transactions.len());
        let ghost mid = out@;
        let ghost all = self@.transactions;
        let mut k: usize = 0;
        while k < self.transactions.len()
            invariant
                k <= self.transactions@.len(),
                all == self.transactions@.map_values(|t: Tx| t@),
                out@ == mid + enc_txs(all.take(k as int)),
            decreases self.transactions@.len() - k,
        {
            self.transactions[k].push_cbor(out);
            proof {
                assert(all.take(k + 1).drop_last() =~= all.take(k as int));
            }
            k = k + 1;
            assert(out@ =~= mid + enc_txs(all.take(k as int)));
        }
        assert(all.take(k as int) =~= all);
        reveal(enc_block);
        assert(final(out)@ =~= old(out)@ + enc_block(self@));
    }

    /// Hash of the whole block.
    pub fn hash(&self) -> (r: crate::sha256::Hash)
        ensures
            r == spec_hash_bytes(enc_block(self@)),
    {
        crate::sha256::Hash::hash(self)
    }

    /// Verifies all transactions in the block.
    pub fn verify_transactions(&self, predicted_block_height: u64, utxo_set: &UtxoSet) -> (r: Result<(), BtcError>)
        requires
            verify_outcome(self@.transactions, predicted_block_height, utxo_set.spec_map())
                != Some(Failure::Overflow),
        ensures
            match verify_outcome(self@.transactions, predicted_block_height, utxo_set.spec_map()) {
                None => r is Ok,
                Some(f) => r matches Err(e) && reports(e, f, utxo_set.spec_map()),
            },
    {
        // reject completely empty blocks (w/o even coinbase transaction)
        if self.transactions.len() == 0 {
            return Err(failure_error(Failure::NoTransactions, utxo_set));
        }
        let ghost utxo = utxo_set.spec_map();
        let ghost txs = self@.transactions;
        let ghost rest = non_coinbase(txs);
        let mut miner_fees: u64 = 0;
        let mut spent_outputs: Vec<crate::sha256::Hash> = Vec::new();
        assert(spent_outputs@.to_set() =~= Set::<crate::sha256::Hash>::empty());
        proof {
            reveal(scan_txs);
            assert(rest.take(0) =~= Seq::<TxV>::empty());
        }
        // skip the coinbase transaction and verify each transaction's inputs and outputs
        let mut k: usize = 1;
        while k < self.transactions.len()
            invariant
                1 <= k <= self.transactions@.len(),
                txs == self@.transactions,
                rest == non_coinbase(txs),
                utxo == utxo_set.spec_map(),
                match scan_txs(utxo, rest) {
                    Scan::Failed(f) => f != Failure::Overflow,
                    Scan::Done(fees, _) => coinbase_outcome(txs, predicted_block_height, fees)
                        != Some(Failure::Overflow),
                },
                scan_txs(utxo, rest.take(k - 1)) == Scan::Done(
                    miner_fees as int,
                    spent_outputs@.to_set(),
                ),
            decreases self.transactions@.len() - k,
        {
            proof {
                lemma_scan_txs_take(utxo, rest, k - 1);
                assert(rest[k - 1] == self.transactions@[k as int]@);
                if scan_tx(utxo, spent_outputs@.to_set(), self.transactions@[k as int]@) is Failed {
                    lemma_scan_txs_prefix(utxo, rest, k as int);
                }
            }
            proof {
                lemma_double_spend_known(utxo, spent_outputs@.to_set(), self.transactions@[k as int]@.inputs);
            }
            match check_tx(&self.transactions[k], utxo_set, &mut spent_outputs) {
                Err(f) => {
                    return Err(failure_error(f, utxo_set));
                },
                Ok(fee) => {
                    if miner_fees > u64::MAX - fee {
                        proof {
                            lemma_scan_txs_prefix(utxo, rest, k as int);
                        }
                        assert(false);
                        return Err(failure_error(Failure::NoTransactions, utxo_set));
                    }
                    miner_fees = miner_fees + fee;
                },
            }
            k = k + 1;
        }
        assert(rest.take(k - 1) =~= rest);
        self.verify_coinbase_transaction(predicted_block_height, miner_fees)
    }

    /// Verifies coinbase transaction.
    pub fn verify_coinbase_transaction(&self, predicted_block_height: u64, miner_fees: u64) -> (r:
        Result<(), BtcError>)
        requires
            self.transactions@.len() > 0,
            coinbase_outcome(self@.transactions, predicted_block_height, miner_fees as int) != Some(
                Failure::Overflow,
            ),
        ensures
            match coinbase_outcome(self@.transactions, predicted_block_height, miner_fees as int) {
                None => r is Ok,
                Some(f) => r matches Err(e) && forall|utxo: UtxoMap| #[trigger] reports(e, f, utxo),
            },
    {
        let coinbase_tx = &self.transactions[0];
        assert(coinbase_tx@ == self@.transactions[0]);
        if coinbase_tx.inputs.len() != 0 {
            return Err(plain_failure_error(Failure::CoinbaseHasInputs));
        }
        if coinbase_tx.outputs.len() == 0 {
            return Err(plain_failure_error(Failure::CoinbaseWithoutOutputs));
        }
        let halvings = (predicted_block_height / HALVING_INTERVAL) % 0x1_0000_0000;
        let block_reward = subsidy_after(halvings);
        let total_coinbase_amount = sum_output_amounts(&coinbase_tx.outputs);
        if total_coinbase_amount != block_reward + miner_fees {
            return Err(plain_failure_error(Failure::CoinbaseAmount));
        }
        Ok(())
    }

    /// Returns miner fees. It assumes that transactions are valid. (Used when creating new
    /// block template.)
    pub fn calculate_miner_fees(&self, utxo_set: &UtxoSet) -> (r: Result<u64, BtcError>)
        requires
            fee_sum(utxo_set.spec_map(), non_coinbase(self@.transactions)) != Err::<int, Failure>(Failure::Overflow),
        ensures
            match fee_sum(utxo_set.spec_map(), non_coinbase(self@.transactions)) {
                Ok(fees) => (r matches Ok(a) && a == fees),
                Err(f) => r matches Err(e) && reports(e, f, utxo_set.spec_map()),
            },
    {
        let ghost utxo = utxo_set.spec_map();
        let ghost rest = non_coinbase(self@.transactions);
        let mut miner_fees: u64 = 0;
        let mut k: usize = 1;
        proof {
            reveal(fee_sum);
            assert(rest.take(0) =~= Seq::<TxV>::empty());
        }
        if self.transactions.len() == 0 {
            return Ok(0);
        }
        // skip the coinbase transaction
        while k < self.transactions.len()
            invariant
                1 <= k <= self.transactions@.len(),
                rest == non_coinbase(self@.transactions),
                utxo == utxo_set.spec_map(),
                fee_sum(utxo, rest) != Err::<int, Failure>(Failure::Overflow),
                fee_sum(utxo, rest.take(k - 1)) == Ok::<int, Failure>(miner_fees as int),
            decreases self.transactions@.len() - k,
        {
            let tx = &self.transactions[k];
            proof {
                lemma_fee_sum_take(utxo, rest, k - 1);
                assert(rest[k - 1] == tx@);
            }
            let ghost inputs = tx@.inputs;
            let mut input_amount: u64 = 0;
            let mut j: usize = 0;
            proof {
                reveal(input_sum);
                assert(inputs.take(0) =~= Seq::<InputV>::empty());
            }
            while j < tx.inputs.len()
                invariant
                    j <= tx.inputs@.len(),
                    inputs == tx@.inputs,
                    utxo == utxo_set.spec_map(),
                    fee_sum(utxo, rest.take(k as int)) == fee_step(utxo, fee_sum(utxo, rest.take(k - 1)), tx@),
                    1 <= k < self.transactions@.len(),
                    rest == non_coinbase(self@.transactions),
                    fee_sum(utxo, rest) != Err::<int, Failure>(Failure::Overflow),
                    fee_sum(utxo, rest.take(k - 1)) == Ok::<int, Failure>(miner_fees as int),
                    input_sum(utxo, inputs.take(j as int)) == Ok::<int, Failure>(input_amount as int),
                decreases tx.inputs@.len() - j,
            {
                let h = tx.inputs[j].prev_tx_output_hash;
                proof {
                    lemma_input_sum_take(utxo, inputs, j as int);
                }
                match utxo_set.get(&h) {
                    None => {
                        proof {
                            lemma_input_sum_prefix(utxo, inputs, j + 1);
                            lemma_fee_sum_prefix(utxo, rest, k as int);
                        }
                        return Err(failure_error(Failure::MissingOutput(h), utxo_set));
                    },
                    Some((_, prev_output)) => {
                        if input_amount > u64::MAX - prev_output.amount {
                            proof {
                                lemma_input_sum_prefix(utxo, inputs, j + 1);
                                lemma_fee_sum_prefix(utxo, rest, k as int);
                            }
                            assert(false);
                            return Ok(0);
                        }
                        input_amount = input_amount + prev_output.amount;
                    },
                }
                j = j + 1;
            }
            assert(inputs.take(j as int) =~= inputs);
            let ghost outs = tx@.outputs;
            proof {
                if sum_outputs(outs) > u64::MAX {
                    lemma_fee_sum_prefix(utxo, rest, k as int);
                }
            }
            let output_amount = sum_output_amounts(&tx.outputs);
            if input_amount < output_amount || miner_fees > u64::MAX - (input_amount - output_amount) {
                proof {
                    lemma_fee_sum_prefix(utxo, rest, k as int);
                }
                assert(false);
                return Ok(0);
            }
            miner_fees = miner_fees + (input_amount - output_amount);
            k = k + 1;
        }
        assert(rest.take(k - 1) =~= rest);
        Ok(miner_fees)
    }
}

impl Serializable for Block {
    open spec fn spec_serialize(&self) -> Seq<u8> {
        enc_block(self@)
    }

    fn serialize(&self) -> (r: Vec<u8>) {
        let mut out = Vec::new();
        self.push_cbor(&mut out);
        out
    }
}

} // verus!
