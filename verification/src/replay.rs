//! The UTXO map that replaying the chain's transactions gives, as a sequence of removals
//! and insertions: each output hash ends up as the last operation on it left it.
use vstd::prelude::*;

use crate::block::{BlockV, UtxoMap};
use crate::blockchain::{
    add_outputs, apply_blocks, apply_tx, apply_txs, lemma_mempool_hashes_contain, mempool_input_hashes,
    rebuilt_utxos, spend_inputs,
};
use crate::mempool::{flags_track, lemma_set_flags, spent_in, EntryV};
use crate::transaction::{output_hash, InputV, OutputV, TxV};

verus! {

/// One operation on the UTXO map: an input spends an output, or an output is created
/// (unflagged).
pub enum UtxoOp {
    Spend(crate::sha256::Hash),
    Create(crate::sha256::Hash, OutputV),
}

/// The output hash an operation is about.
pub open spec fn op_key(op: UtxoOp) -> crate::sha256::Hash {
    match op {
        UtxoOp::Spend(h) => h,
        UtxoOp::Create(h, _) => h,
    }
}

/// One operation applied to the map.
pub open spec fn apply_op(m: UtxoMap, op: UtxoOp) -> UtxoMap {
    match op {
        UtxoOp::Spend(h) => m.remove(h),
        UtxoOp::Create(h, o) => m.insert(h, (false, o)),
    }
}

/// Operations applied to the map in order.
pub open spec fn apply_ops(m: UtxoMap, ops: Seq<UtxoOp>) -> UtxoMap
    decreases ops.len(),
{
    if ops.len() == 0 {
        m
    } else {
        apply_op(apply_ops(m, ops.drop_last()), ops.last())
    }
}

/// The operations of inputs.
pub open spec fn spend_ops(inputs: Seq<InputV>) -> Seq<UtxoOp> {
    inputs.map_values(|i: InputV| UtxoOp::Spend(i.prev_tx_output_hash))
}

/// The operations of outputs.
pub open spec fn create_ops(outputs: Seq<OutputV>) -> Seq<UtxoOp> {
    outputs.map_values(|o: OutputV| UtxoOp::Create(output_hash(o), o))
}

/// The operations of a transaction: its inputs spend, then its outputs are created.
pub open spec fn tx_ops(tx: TxV) -> Seq<UtxoOp> {
    spend_ops(tx.inputs) + create_ops(tx.outputs)
}

/// The operations of transactions, in order.
pub open spec fn txs_ops(txs: Seq<TxV>) -> Seq<UtxoOp>
    decreases txs.len(),
{
    if txs.len() == 0 {
        Seq::empty()
    } else {
        txs_ops(txs.drop_last()) + tx_ops(txs.last())
    }
}

/// The operations of the transactions of blocks, in order.
pub open spec fn blocks_ops(blocks: Seq<BlockV>) -> Seq<UtxoOp>
    decreases blocks.len(),
{
    if blocks.len() == 0 {
        Seq::empty()
    } else {
        blocks_ops(blocks.drop_last()) + txs_ops(blocks.last().transactions)
    }
}

/// The last operation on the output hash `k`, if there is one.
pub open spec fn last_op_for(ops: Seq<UtxoOp>, k: crate::sha256::Hash) -> Option<UtxoOp>
    decreases ops.len(),
{
    if ops.len() == 0 {
        None
    } else if op_key(ops.last()) == k {
        Some(ops.last())
    } else {
        last_op_for(ops.drop_last(), k)
    }
}

proof fn lemma_apply_ops_append(m: UtxoMap, a: Seq<UtxoOp>, b: Seq<UtxoOp>)
    ensures
        apply_ops(m, a + b) == apply_ops(apply_ops(m, a), b),
    decreases b.len(),
{
    if b.len() == 0 {
        assert(a + b =~= a);
    } else {
        lemma_apply_ops_append(m, a, b.drop_last());
        assert((a + b).drop_last() =~= a + b.drop_last());
        assert((a + b).last() == b.last());
    }
}

proof fn lemma_spend_inputs_ops(m: UtxoMap, inputs: Seq<InputV>)
    ensures
        spend_inputs(m, inputs) == apply_ops(m, spend_ops(inputs)),
    decreases inputs.len(),
{
    if inputs.len() > 0 {
        lemma_spend_inputs_ops(m, inputs.drop_last());
        assert(spend_ops(inputs).drop_last() =~= spend_ops(inputs.drop_last()));
    } else {
        assert(spend_ops(inputs) =~= Seq::<UtxoOp>::empty());
    }
}

proof fn lemma_add_outputs_ops(m: UtxoMap, outputs: Seq<OutputV>)
    ensures
        add_outputs(m, outputs) == apply_ops(m, create_ops(outputs)),
    decreases outputs.len(),
{
    if outputs.len() > 0 {
        lemma_add_outputs_ops(m, outputs.drop_last());
        assert(create_ops(outputs).drop_last() =~= create_ops(outputs.drop_last()));
    } else {
        assert(create_ops(outputs) =~= Seq::<UtxoOp>::empty());
    }
}

proof fn lemma_apply_tx_ops(m: UtxoMap, tx: TxV)
    ensures
        apply_tx(m, tx) == apply_ops(m, tx_ops(tx)),
{
    lemma_spend_inputs_ops(m, tx.inputs);
    lemma_add_outputs_ops(spend_inputs(m, tx.inputs), tx.outputs);
    lemma_apply_ops_append(m, spend_ops(tx.inputs), create_ops(tx.outputs));
}

proof fn lemma_apply_txs_ops(m: UtxoMap, txs: Seq<TxV>)
    ensures
        apply_txs(m, txs) == apply_ops(m, txs_ops(txs)),
    decreases txs.len(),
{
    if txs.len() > 0 {
        lemma_apply_txs_ops(m, txs.drop_last());
        lemma_apply_tx_ops(apply_txs(m, txs.drop_last()), txs.last());
        lemma_apply_ops_append(m, txs_ops(txs.drop_last()), tx_ops(txs.last()));
    }
}

/// Replaying blocks is applying their operations in order.
pub proof fn lemma_apply_blocks_ops(m: UtxoMap, blocks: Seq<BlockV>)
    ensures
        apply_blocks(m, blocks) == apply_ops(m, blocks_ops(blocks)),
    decreases blocks.len(),
{
    if blocks.len() > 0 {
        lemma_apply_blocks_ops(m, blocks.drop_last());
        lemma_apply_txs_ops(apply_blocks(m, blocks.drop_last()), blocks.last().transactions);
        lemma_apply_ops_append(m, blocks_ops(blocks.drop_last()), txs_ops(blocks.last().transactions));
    }
}

/// After the operations, an output hash is as its last operation left it: absent after a
/// spend, holding the unflagged output after a creation, and as before when no operation
/// is about it.
pub proof fn lemma_apply_ops_at(m: UtxoMap, ops: Seq<UtxoOp>, k: crate::sha256::Hash)
    ensures
        match last_op_for(ops, k) {
            None => {
                &&& apply_ops(m, ops).contains_key(k) == m.contains_key(k)
                &&& m.contains_key(k) ==> apply_ops(m, ops)[k] == m[k]
            },
            Some(UtxoOp::Spend(_)) => !apply_ops(m, ops).contains_key(k),
            Some(UtxoOp::Create(_, o)) => {
                &&& apply_ops(m, ops).contains_key(k)
                &&& apply_ops(m, ops)[k] == (false, o)
            },
        },
    decreases ops.len(),
{
    if ops.len() > 0 {
        lemma_apply_ops_at(m, ops.drop_last(), k);
    }
}

/// Applying the same operations a second time changes nothing.
pub proof fn lemma_apply_ops_twice(m: UtxoMap, ops: Seq<UtxoOp>)
    ensures
        apply_ops(apply_ops(m, ops), ops) == apply_ops(m, ops),
{
    let m1 = apply_ops(m, ops);
    let m2 = apply_ops(m1, ops);
    assert forall|k: crate::sha256::Hash| #[trigger] m2.contains_key(k) == m1.contains_key(k) && (
    m1.contains_key(k) ==> m2[k] == m1[k]) by {
        lemma_apply_ops_at(m, ops, k);
        lemma_apply_ops_at(m1, ops, k);
    }
    assert(m2 =~= m1);
}

/// Replaying the same blocks a second time changes nothing, and after a replay each output
/// hash is as the last transaction about it left it: spent (absent), created (present and
/// unflagged), or untouched (as before).
pub proof fn lemma_replay(m: UtxoMap, blocks: Seq<BlockV>, k: crate::sha256::Hash)
    ensures
        apply_blocks(apply_blocks(m, blocks), blocks) == apply_blocks(m, blocks),
        match last_op_for(blocks_ops(blocks), k) {
            None => {
                &&& apply_blocks(m, blocks).contains_key(k) == m.contains_key(k)
                &&& m.contains_key(k) ==> apply_blocks(m, blocks)[k] == m[k]
            },
            Some(UtxoOp::Spend(_)) => !apply_blocks(m, blocks).contains_key(k),
            Some(UtxoOp::Create(_, o)) => {
                &&& apply_blocks(m, blocks).contains_key(k)
                &&& apply_blocks(m, blocks)[k] == (false, o)
            },
        },
{
    lemma_apply_blocks_ops(m, blocks);
    lemma_apply_blocks_ops(apply_blocks(m, blocks), blocks);
    lemma_apply_ops_twice(m, blocks_ops(blocks));
    lemma_apply_ops_at(m, blocks_ops(blocks), k);
}

/// The rebuilt UTXO set holds exactly the outputs that the chain's transactions create and
/// no later input spends; each holds its output and is flagged exactly when a mempool
/// transaction spends it.
pub proof fn lemma_rebuilt(blocks: Seq<BlockV>, mempool: Seq<EntryV>, k: crate::sha256::Hash)
    ensures
        rebuilt_utxos(blocks, mempool).contains_key(k) <==> last_op_for(blocks_ops(blocks), k) is Some
            && last_op_for(blocks_ops(blocks), k)->0 is Create,
        last_op_for(blocks_ops(blocks), k) matches Some(UtxoOp::Create(_, o)) ==> {
            &&& rebuilt_utxos(blocks, mempool)[k].1 == o
            &&& rebuilt_utxos(blocks, mempool)[k].0 <==> spent_in(mempool, k)
        },
{
    let m0 = Map::<crate::sha256::Hash, (bool, OutputV)>::empty();
    let replayed = apply_blocks(m0, blocks);
    let hs = mempool_input_hashes(mempool);
    lemma_replay(m0, blocks, k);
    lemma_set_flags(replayed, hs, true);
    lemma_mempool_hashes_contain(mempool, k);
}

/// After a rebuild a UTXO is flagged exactly when a mempool transaction spends it.
pub proof fn lemma_rebuilt_tracks_flags(blocks: Seq<BlockV>, mempool: Seq<EntryV>)
    ensures
        flags_track(rebuilt_utxos(blocks, mempool), mempool),
{
    let m = rebuilt_utxos(blocks, mempool);
    assert forall|h: crate::sha256::Hash| #[trigger] m.contains_key(h) implies (m[h].0 <==> spent_in(mempool, h)) by {
        lemma_rebuilt(blocks, mempool, h);
    }
}

} // verus!
