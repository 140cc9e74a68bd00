//! What a node decides for its miners and peers: block templates, their validity, how far
//! a peer's chain is ahead, and which peer holds the longest chain.
use vstd::prelude::*;

use crate::block::{
    coinbase_outcome, fee_sum, header_hash, reports, Block, BlockHeader, BlockV, Failure, UtxoMap,
    HALVING_INTERVAL,
};
use crate::blockchain::{
    block_accepted, block_offer_defined, block_reward_at, block_rejection, offer_chain_effect,
    zero_hash, Blockchain, ChainV, BLOCK_TRANSACTION_CAP,
};
use crate::crypto::PublicKey;
use crate::error::BtcError;
use crate::mempool::{fee_of, offer_defined, offer_rejection, sorted_by_fee, EntryV};
use crate::merkle_root::{merkle_root_of, MerkleRoot};
use crate::network::Message;
use crate::time::Timestamp;
use crate::transaction::{OutputV, Tx, TxOutput, TxV, Uuid};
use crate::utxo_set::UtxoEntry;

verus! {

// ---------------------------------------------------------------------------------------
// Handling a peer's message

/// What the node does after handling a message from a connected peer.
pub enum Reaction {
    /// Close the connection
    Close,
    /// Send the message back to the peer and go on
    Reply(Message),
    /// Send the peer the list of all known nodes and go on
    ReplyNodeList,
    /// Broadcast the message to all known nodes and go on
    Broadcast(Message),
    /// Go on
    Continue,
}

/// The listed outputs and flags are exactly those of the UTXOs that belong to the key, one
/// for each output hash.
pub open spec fn utxos_listed(c: ChainV, pubkey: Seq<u8>, list: Seq<(OutputV, bool)>) -> bool {
    exists|hs: Seq<crate::sha256::Hash>|
        {
            &&& #[trigger] hs.len() == list.len()
            &&& hs.no_duplicates()
            &&& forall|j: int|
                0 <= j < list.len() ==> {
                    &&& c.utxos.contains_key(#[trigger] hs[j])
                    &&& c.utxos[hs[j]] == (list[j].1, list[j].0)
                    &&& list[j].0.pubkey == pubkey
                }
            &&& forall|k: crate::sha256::Hash|
                #![trigger c.utxos[k]]
                c.utxos.contains_key(k) && c.utxos[k].1.pubkey == pubkey ==> hs.contains(k)
        }
}

/// The views of listed UTXOs.
pub open spec fn listed_view(list: Seq<(TxOutput, bool)>) -> Seq<(OutputV, bool)> {
    list.map_values(|u: (TxOutput, bool)| (u.0@, u.1))
}

/// The message can be handled without overflow: blocks and transactions can be offered, a
/// template can be made, and a height difference fits in 32 bits.
pub open spec fn message_defined(c: ChainV, m: Message, unique_id: Seq<u8>) -> bool {
    match m {
        Message::NewBlock(b) => block_offer_defined(c, b@),
        Message::SubmitTemplate(b) => block_offer_defined(c, b@),
        Message::NewTransaction(tx) => offer_defined(c.utxos, c.mempool, tx@),
        Message::SubmitTransaction(tx) => offer_defined(c.utxos, c.mempool, tx@),
        Message::FetchTemplate(pk) => c.blocks.len() + 1 <= u64::MAX && template_defined(
            c,
            pk.der@,
            unique_id,
            (c.blocks.len() + 1) as u64,
        ),
        Message::AskDifference(h) => i32::MIN <= (c.blocks.len() as i32) - (h as i32)
            <= i32::MAX,
        _ => true,
    }
}

/// What handling a message does to the chain and what the node does next.
pub open spec fn message_handled(
    c: ChainV,
    m: Message,
    now: Timestamp,
    unique_id: Seq<u8>,
    after: ChainV,
    r: Reaction,
) -> bool {
    match m {
        Message::UTXOs(_) | Message::Template(_) | Message::Difference(_)
        | Message::TemplateValidity(_) | Message::NodeList(_) => r is Close && after == c,
        Message::FetchBlock(height) => after == c && if height < c.blocks.len() {
            r matches Reaction::Reply(Message::NewBlock(b)) && b@ == c.blocks[height as int]
        } else {
            r is Close
        },
        Message::DiscoverNodes => r is ReplyNodeList && after == c,
        Message::AskDifference(h) => after == c && (r matches Reaction::Reply(
            Message::Difference(d),
        ) && d == (c.blocks.len() as i32) - (h as i32)),
        Message::FetchUTXOs(pk) => after == c && (r matches Reaction::Reply(Message::UTXOs(list))
            && utxos_listed(c, pk.der@, listed_view(list@))),
        Message::NewBlock(b) => match block_rejection(c, b@) {
            Some(_) => r is Continue && after == c,
            None => block_accepted(c, b@, after) && (r matches Reaction::Broadcast(
                Message::NewBlock(nb),
            ) && nb@ == b@),
        },
        Message::SubmitTemplate(b) => match block_rejection(c, b@) {
            Some(_) => r is Close && after == c,
            None => block_accepted(c, b@, after) && (r matches Reaction::Broadcast(
                Message::NewBlock(nb),
            ) && nb@ == b@),
        },
        Message::NewTransaction(tx) => offer_chain_effect(c, tx@, now, after) && if offer_rejection(
            c.utxos,
            c.mempool,
            tx@,
        ) is None {
            r matches Reaction::Broadcast(Message::NewTransaction(t)) && t@ == tx@
        } else {
            r is Close
        },
        Message::SubmitTransaction(tx) => offer_chain_effect(c, tx@, now, after) && if offer_rejection(
            c.utxos,
            c.mempool,
            tx@,
        ) is None {
            r matches Reaction::Broadcast(Message::NewTransaction(t)) && t@ == tx@
        } else {
            r is Close
        },
        Message::ValidateTemplate(b) => after == c && r == Reaction::Reply(
            Message::TemplateValidity(template_valid(c, b@)),
        ),
        Message::FetchTemplate(pk) => after == c && match fee_sum(
            c.utxos,
            template_mempool_txs(c.mempool),
        ) {
            Err(_) => r is Close,
            Ok(fees) => {
                let amount = (block_reward_at(c.blocks.len() as u64) + fees) as u64;
                let b = template_v(c, pk.der@, unique_id, now, amount);
                match coinbase_outcome(b.transactions, (c.blocks.len() + 1) as u64, fees) {
                    Some(_) => r is Close,
                    None => r matches Reaction::Reply(Message::Template(t)) && t@ == b,
                }
            },
        },
    }
}

/// After a node accepts a block (from a peer or a miner), the block ends its chain and its
/// UTXO set is the one its blocks and mempool determine: an output hash is there exactly when
/// the chain's last transaction about it created it, holding that output, and it is flagged
/// exactly when a mempool transaction spends it.
pub proof fn lemma_accepted_block_rebuilds_utxos(
    c: ChainV,
    m: Message,
    now: Timestamp,
    unique_id: Seq<u8>,
    after: ChainV,
    r: Reaction,
    k: crate::sha256::Hash,
)
    requires
        message_handled(c, m, now, unique_id, after, r),
        m is NewBlock || m is SubmitTemplate,
        r is Broadcast,
    ensures
        m matches Message::NewBlock(b) ==> after.blocks == c.blocks.push(b@),
        m matches Message::SubmitTemplate(b) ==> after.blocks == c.blocks.push(b@),
        after.utxos == crate::blockchain::rebuilt_utxos(after.blocks, after.mempool),
        after.utxos.contains_key(k) <==> crate::replay::last_op_for(
            crate::replay::blocks_ops(after.blocks),
            k,
        ) matches Some(crate::replay::UtxoOp::Create(_, _)),
        crate::replay::last_op_for(crate::replay::blocks_ops(after.blocks), k) matches Some(
            crate::replay::UtxoOp::Create(_, o),
        ) ==> after.utxos[k].1 == o && (after.utxos[k].0 <==> crate::mempool::spent_in(
            after.mempool,
            k,
        )),
{
    crate::replay::lemma_rebuilt(after.blocks, after.mempool, k);
}

/// After a node accepts a block from a subscription, its UTXO set is the one its blocks and
/// mempool determine.
pub proof fn lemma_received_block_rebuilds_utxos(
    c: ChainV,
    b: Block,
    now: Timestamp,
    after: ChainV,
    r: ItemReaction,
)
    requires
        item_received(c, SubscriptionItem::Block(b), now, after, r),
        r is Broadcast,
    ensures
        after.blocks == c.blocks.push(b@),
        after.utxos == crate::blockchain::rebuilt_utxos(after.blocks, after.mempool),
{
}

/// Handles one message from a connected peer at time `now`; a template's coinbase output
/// gets `unique_id`.
pub fn handle_message(chain: &mut Blockchain, message: Message, now: Timestamp, unique_id: Uuid) -> (r:
    Reaction)
    requires
        message_defined(old(chain)@, message, unique_id@),
    ensures
        message_handled(old(chain)@, message, now, unique_id@, final(chain)@, r),
{
    match message {
        Message::UTXOs(_) | Message::Template(_) | Message::Difference(_)
        | Message::TemplateValidity(_) | Message::NodeList(_) => {
            // I am neither a miner nor a wallet
            Reaction::Close
        },
        Message::FetchBlock(height) => {
            let blocks = chain.blocks();
            if height < blocks.len() {
                assert(chain@.blocks[height as int] == blocks@[height as int]@);
                Reaction::Reply(Message::NewBlock(blocks[height].clone()))
            } else {
                Reaction::Close
            }
        },
        Message::DiscoverNodes => Reaction::ReplyNodeList,
        Message::AskDifference(height) => {
            let h = chain.block_height();
            Reaction::Reply(Message::Difference((h as i32) - (height as i32)))
        },
        Message::FetchUTXOs(pubkey) => {
            let ghost c = chain@;
            let ghost pk = pubkey.der@;
            let entries = chain.utxo_set_for_pubkey(pubkey);
            let mut list: Vec<(TxOutput, bool)> = Vec::new();
            let mut k: usize = 0;
            while k < entries.len()
                invariant
                    k <= entries@.len(),
                    list@.len() == k,
                    forall|j: int| 0 <= j < k ==> (#[trigger] list@[j]).0@ == entries@[j].2@
                        && list@[j].1 == entries@[j].1,
                decreases entries@.len() - k,
            {
                list.push((entries[k].2.clone(), entries[k].1));
                k = k + 1;
            }
            proof {
                let hs = entries@.map_values(|e: UtxoEntry| e.0);
                let lv = listed_view(list@);
                assert(hs.no_duplicates()) by {
                    assert forall|i: int, j: int| 0 <= i < hs.len() && 0 <= j < hs.len() && i != j
                        implies hs[i] != hs[j] by {
                        if i < j {
                            assert(entries@[i].0 != entries@[j].0);
                        } else {
                            assert(entries@[j].0 != entries@[i].0);
                        }
                    }
                }
                assert forall|j: int| 0 <= j < lv.len() implies {
                    &&& c.utxos.contains_key(#[trigger] hs[j])
                    &&& c.utxos[hs[j]] == (lv[j].1, lv[j].0)
                    &&& lv[j].0.pubkey == pk
                } by {
                    assert(hs[j] == entries@[j].0);
                    assert(c.utxos.contains_key(entries@[j].0));
                }
                assert forall|key: crate::sha256::Hash|
                    #![trigger c.utxos[key]]
                    c.utxos.contains_key(key) && c.utxos[key].1.pubkey == pk implies hs.contains(key) by {
                    let j = choose|j: int| 0 <= j < entries@.len() && entries@[j].0 == key;
                    assert(hs[j] == key);
                }
                assert(hs.len() == lv.len());
            }
            Reaction::Reply(Message::UTXOs(list))
        },
        Message::NewBlock(block) => {
            let ghost c = chain@;
            let ghost bv = block@;
            match chain.add_block(block.clone()) {
                Err(_) => {
                    // block rejected
                    Reaction::Continue
                },
                Ok(()) => {
                    chain.rebuild_utxo_set();
                    // broadcast the received block to all known nodes
                    Reaction::Broadcast(Message::NewBlock(block))
                },
            }
        },
        Message::NewTransaction(tx) => {
            match chain.add_to_mempool_at(tx.clone(), now) {
                Err(_) => {
                    // transaction rejected, closing connection
                    Reaction::Close
                },
                Ok(()) => {
                    // broadcast the received transaction to all known nodes
                    Reaction::Broadcast(Message::NewTransaction(tx))
                },
            }
        },
        Message::ValidateTemplate(block_template) => {
            Reaction::Reply(Message::TemplateValidity(validate_template(chain, &block_template)))
        },
        Message::SubmitTemplate(block) => {
            match chain.add_block(block.clone()) {
                Err(_) => {
                    // mined block rejected, closing connection with bad miner
                    Reaction::Close
                },
                Ok(()) => {
                    chain.rebuild_utxo_set();
                    // broadcast newly mined block to all known nodes
                    Reaction::Broadcast(Message::NewBlock(block))
                },
            }
        },
        Message::SubmitTransaction(tx) => {
            match chain.add_to_mempool_at(tx.clone(), now) {
                Err(_) => {
                    // transaction rejected, closing connection
                    Reaction::Close
                },
                Ok(()) => {
                    // broadcast the transaction to all known nodes
                    Reaction::Broadcast(Message::NewTransaction(tx))
                },
            }
        },
        Message::FetchTemplate(public_key) => {
            let height = chain.block_height();
            match block_template(chain, &public_key, unique_id, now, height + 1) {
                Err(_) => Reaction::Close,
                Ok(template) => Reaction::Reply(Message::Template(template)),
            }
        },
    }
}

// ---------------------------------------------------------------------------------------
// Items received from a subscription

/// An item that a node streams to its subscribers.
pub enum SubscriptionItem {
    Block(Block),
    Transaction(Tx),
}

/// What the node does with an item received from a peer it subscribed to.
pub enum ItemReaction {
    /// Go on with the next item
    Skip,
    /// Broadcast the item to all subscribers except the peer it came from
    Broadcast(SubscriptionItem),
    /// End the subscription with this error
    Close(BtcError),
}

/// The item can be offered to the chain without overflow.
pub open spec fn item_defined(c: ChainV, item: SubscriptionItem) -> bool {
    match item {
        SubscriptionItem::Block(b) => block_offer_defined(c, b@),
        SubscriptionItem::Transaction(tx) => offer_defined(c.utxos, c.mempool, tx@),
    }
}

/// What receiving an item does: a block is added (a refused one is skipped), a transaction
/// goes to the mempool (a refused one ends the subscription); accepted items are passed on.
pub open spec fn item_received(c: ChainV, item: SubscriptionItem, now: Timestamp, after: ChainV, r: ItemReaction) -> bool {
    match item {
        SubscriptionItem::Block(b) => match block_rejection(c, b@) {
            Some(_) => r is Skip && after == c,
            None => block_accepted(c, b@, after) && (r matches ItemReaction::Broadcast(
                SubscriptionItem::Block(nb),
            ) && nb@ == b@),
        },
        SubscriptionItem::Transaction(tx) => offer_chain_effect(c, tx@, now, after) && match offer_rejection(
            c.utxos,
            c.mempool,
            tx@,
        ) {
            None => r matches ItemReaction::Broadcast(SubscriptionItem::Transaction(t)) && t@ == tx@,
            Some(f) => r matches ItemReaction::Close(e) && crate::mempool::offer_reported(e, f, tx@),
        },
    }
}

/// Handles an item received at time `now` from a peer this node subscribed to.
pub fn receive_item(chain: &mut Blockchain, item: SubscriptionItem, now: Timestamp) -> (r: ItemReaction)
    requires
        item_defined(old(chain)@, item),
    ensures
        item_received(old(chain)@, item, now, final(chain)@, r),
{
    match item {
        SubscriptionItem::Block(block) => {
            match chain.add_block(block.clone()) {
                Err(_) => ItemReaction::Skip,
                Ok(()) => {
                    chain.rebuild_utxo_set();
                    ItemReaction::Broadcast(SubscriptionItem::Block(block))
                },
            }
        },
        SubscriptionItem::Transaction(transaction) => {
            match chain.add_to_mempool_at(transaction.clone(), now) {
                Err(e) => match e {
                    BtcError::TxAlreadyInMempool(_) => ItemReaction::Skip,
                    _ => ItemReaction::Close(e),
                },
                Ok(()) => ItemReaction::Broadcast(SubscriptionItem::Transaction(transaction)),
            }
        },
    }
}

/// A node learned from a peer is connected unless it is this node or already connected.
pub fn should_connect(candidate: &String, listener_addr: &String, connected: &Vec<String>) -> (r: bool)
    ensures
        r == (candidate@ != listener_addr@ && forall|j: int|
            0 <= j < connected@.len() ==> (#[trigger] connected@[j])@ != candidate@),
{
    if *candidate == *listener_addr {
        return false;
    }
    let mut i: usize = 0;
    while i < connected.len()
        invariant
            i <= connected@.len(),
            forall|j: int| 0 <= j < i ==> (#[trigger] connected@[j])@ != candidate@,
        decreases connected@.len() - i,
    {
        if connected[i] == *candidate {
            return false;
        }
        i = i + 1;
    }
    true
}

/// The addresses, each taken as its text.
pub open spec fn addr_views(s: Seq<String>) -> Seq<Seq<char>> {
    s.map_values(|a: String| a@)
}

/// A subscriber gets a broadcast item unless it is the peer the item came from.
pub open spec fn is_target(addr: Seq<char>, skip_addr: Option<String>) -> bool {
    match skip_addr {
        Some(k) => addr != k@,
        None => true,
    }
}

/// The subscribers that a broadcast item goes to, in their order: all of them except the
/// one the item came from.
pub fn broadcast_targets(subscribers: &Vec<String>, skip_addr: &Option<String>) -> (r: Vec<String>)
    ensures
        addr_views(r@) == addr_views(subscribers@).filter(
            |a: Seq<char>| is_target(a, *skip_addr),
        ),
{
    let ghost skip = *skip_addr;
    let ghost pred = |a: Seq<char>| is_target(a, skip);
    let ghost all = addr_views(subscribers@);
    let mut r: Vec<String> = Vec::new();
    let mut i: usize = 0;
    while i < subscribers.len()
        invariant
            i <= subscribers@.len(),
            skip == *skip_addr,
            pred == (|a: Seq<char>| is_target(a, skip)),
            all == addr_views(subscribers@),
            addr_views(r@) == all.take(i as int).filter(pred),
        decreases subscribers@.len() - i,
    {
        proof {
            assert(all.take(i + 1) =~= all.take(i as int).push(all[i as int]));
            all.take(i as int).lemma_filter_push(all[i as int], pred);
        }
        let skipped = match skip_addr {
            Some(k) => subscribers[i] == *k,
            None => false,
        };
        if !skipped {
            r.push(subscribers[i].clone());
            assert(addr_views(r@) =~= addr_views(r@.drop_last()).push(r@.last()@));
        }
        i = i + 1;
    }
    assert(all.take(i as int) =~= all);
    r
}

/// Command line of the node.
pub struct Args {
    /// host address (default: 127.0.0.1)
    pub host: String,
    /// port number
    pub port: u16,
    /// blockchain file location (default: ./blockchain.cbor)
    pub blockchain_file: String,
    /// addresses of initial nodes
    pub nodes: Vec<String>,
}

/// How many mempool transactions a template takes: all of them, up to the cap.
pub open spec fn template_count(mempool: Seq<EntryV>) -> int {
    if mempool.len() < BLOCK_TRANSACTION_CAP as int {
        mempool.len() as int
    } else {
        BLOCK_TRANSACTION_CAP as int
    }
}

/// Position in the mempool of the first transaction a template takes.
pub open spec fn template_start(mempool: Seq<EntryV>) -> int {
    mempool.len() - template_count(mempool)
}

/// The transactions of the mempool that a template takes: the last ones, up to the cap. The
/// mempool is kept in ascending order of fee, so these are those with the highest fees.
pub open spec fn template_mempool_txs(mempool: Seq<EntryV>) -> Seq<TxV> {
    mempool.skip(template_start(mempool)).map_values(|e: EntryV| e.1)
}

/// The coinbase transaction of a template: no inputs, one output paying `amount` to the key.
pub open spec fn coinbase_v(pubkey: Seq<u8>, unique_id: Seq<u8>, amount: u64) -> TxV {
    TxV {
        inputs: Seq::empty(),
        outputs: seq![OutputV { amount, unique_id, pubkey }],
    }
}

/// The hash a new block must point to: that of the last block, or the zero hash.
pub open spec fn tip_hash(c: ChainV) -> crate::sha256::Hash {
    if c.blocks.len() == 0 {
        zero_hash()
    } else {
        header_hash(c.blocks.last().header)
    }
}

/// The template block for a reward and fees: the coinbase transaction paying both to the
/// key, then the mempool's transactions; pointing to the tip, with the chain's target, nonce
/// zero and the Merkle root of its transactions.
pub open spec fn template_v(
    c: ChainV,
    pubkey: Seq<u8>,
    unique_id: Seq<u8>,
    timestamp: Timestamp,
    amount: u64,
) -> BlockV {
    let txs = seq![coinbase_v(pubkey, unique_id, amount)] + template_mempool_txs(c.mempool);
    BlockV {
        header: BlockHeader {
            timestamp,
            nonce: 0,
            prev_block_hash: tip_hash(c),
            merkle_root: merkle_root_of(txs),
            target: c.target,
        },
        transactions: txs,
    }
}

/// A template holds the coinbase transaction first and at most the cap of mempool
/// transactions after it, the last ones of the mempool in order; it points to the tip of
/// the chain and carries the Merkle root of its transactions.
pub proof fn lemma_template_shape(c: ChainV, pubkey: Seq<u8>, unique_id: Seq<u8>, timestamp: Timestamp, amount: u64)
    ensures
        template_v(c, pubkey, unique_id, timestamp, amount).transactions.len() <= BLOCK_TRANSACTION_CAP
            + 1,
        template_v(c, pubkey, unique_id, timestamp, amount).transactions[0] == coinbase_v(
            pubkey,
            unique_id,
            amount,
        ),
        forall|i: int|
            1 <= i < template_v(c, pubkey, unique_id, timestamp, amount).transactions.len() ==> #[trigger] template_v(
                c,
                pubkey,
                unique_id,
                timestamp,
                amount,
            ).transactions[i] == c.mempool[template_start(c.mempool) + i - 1].1,
        template_v(c, pubkey, unique_id, timestamp, amount).header.prev_block_hash == tip_hash(c),
        template_v(c, pubkey, unique_id, timestamp, amount).header.merkle_root == merkle_root_of(
            template_v(c, pubkey, unique_id, timestamp, amount).transactions,
        ),
{
}

/// A template takes the mempool transactions with the highest fees: with the mempool kept in
/// ascending order of fee, it takes as many as the cap allows, and no transaction left out
/// has a higher fee than one taken.
pub proof fn lemma_template_takes_highest_fees(c: ChainV)
    requires
        sorted_by_fee(c.utxos, c.mempool),
    ensures
        template_mempool_txs(c.mempool).len() == if c.mempool.len() < BLOCK_TRANSACTION_CAP as int {
            c.mempool.len() as int
        } else {
            BLOCK_TRANSACTION_CAP as int
        },
        forall|i: int|
            0 <= i < template_mempool_txs(c.mempool).len() ==> #[trigger] template_mempool_txs(c.mempool)[i]
                == c.mempool[template_start(c.mempool) + i].1,
        forall|i: int, j: int|
            0 <= j < template_start(c.mempool) <= i < c.mempool.len() ==> fee_of(
                c.utxos,
                #[trigger] c.mempool[j].1,
            ) <= fee_of(c.utxos, #[trigger] c.mempool[i].1),
{
}

/// Total fee of the entries at the positions `idx`.
pub open spec fn fees_at(m: UtxoMap, s: Seq<EntryV>, idx: Seq<int>) -> int
    decreases idx.len(),
{
    if idx.len() == 0 {
        0
    } else {
        fees_at(m, s, idx.drop_last()) + fee_of(m, s[idx.last()].1)
    }
}

/// Total fee of the entries at positions `lo` up to `hi` (excluded).
pub open spec fn range_fees(m: UtxoMap, s: Seq<EntryV>, lo: int, hi: int) -> int
    decreases hi - lo,
{
    if lo >= hi {
        0
    } else {
        fee_of(m, s[lo].1) + range_fees(m, s, lo + 1, hi)
    }
}

/// Positions listed from the last down, all in the sequence.
pub open spec fn positions_descending(idx: Seq<int>, len: int) -> bool {
    &&& forall|t: int| 0 <= t < idx.len() ==> 0 <= #[trigger] idx[t] < len
    &&& forall|a: int, b: int| 0 <= a < b < idx.len() ==> #[trigger] idx[a] > #[trigger] idx[b]
}

proof fn lemma_descending_bound(idx: Seq<int>, len: int, t: int)
    requires
        positions_descending(idx, len),
        0 <= t < idx.len(),
    ensures
        idx[t] <= len - 1 - t,
    decreases t,
{
    if t > 0 {
        lemma_descending_bound(idx, len, t - 1);
        assert(idx[t - 1] > idx[t]);
    }
}

proof fn lemma_fees_at_bound(m: UtxoMap, s: Seq<EntryV>, idx: Seq<int>)
    requires
        sorted_by_fee(m, s),
        positions_descending(idx, s.len() as int),
    ensures
        fees_at(m, s, idx) <= range_fees(m, s, s.len() - idx.len(), s.len() as int),
    decreases idx.len(),
{
    if idx.len() > 0 {
        let d = idx.drop_last();
        assert forall|t: int| 0 <= t < d.len() implies 0 <= #[trigger] d[t] < s.len() by {
            assert(d[t] == idx[t]);
        }
        assert forall|a: int, b: int| 0 <= a < b < d.len() implies #[trigger] d[a] > #[trigger] d[b] by {
            assert(d[a] == idx[a] && d[b] == idx[b]);
        }
        lemma_fees_at_bound(m, s, d);
        let k = idx.len();
        lemma_descending_bound(idx, s.len() as int, k - 1);
        assert(idx.last() == idx[k - 1]);
        assert(fee_of(m, s[idx[k - 1]].1) <= fee_of(m, s[s.len() - k].1));
    }
}

proof fn lemma_range_fees_grow(m: UtxoMap, s: Seq<EntryV>, lo: int, lo2: int, hi: int)
    requires
        0 <= lo2 <= lo <= hi <= s.len(),
        forall|p: int| 0 <= p < s.len() ==> fee_of(m, #[trigger] s[p].1) >= 0,
    ensures
        range_fees(m, s, lo, hi) <= range_fees(m, s, lo2, hi),
    decreases lo - lo2,
{
    if lo2 < lo {
        lemma_range_fees_grow(m, s, lo, lo2 + 1, hi);
        assert(fee_of(m, s[lo2].1) >= 0);
    }
}

/// A template takes the mempool transactions with the largest total fee: with the mempool
/// kept in ascending order of fee and no fee negative, any other choice of at most the cap
/// of mempool transactions (listed by position, last first) has no larger total fee than
/// the transactions the template takes.
pub proof fn lemma_template_fee_is_largest(c: ChainV, idx: Seq<int>)
    requires
        sorted_by_fee(c.utxos, c.mempool),
        forall|p: int| 0 <= p < c.mempool.len() ==> fee_of(c.utxos, #[trigger] c.mempool[p].1) >= 0,
        positions_descending(idx, c.mempool.len() as int),
        idx.len() <= BLOCK_TRANSACTION_CAP,
    ensures
        fees_at(c.utxos, c.mempool, idx) <= range_fees(
            c.utxos,
            c.mempool,
            template_start(c.mempool),
            c.mempool.len() as int,
        ),
{
    let len = c.mempool.len() as int;
    assert(idx.len() <= len) by {
        if idx.len() > len {
            lemma_descending_bound(idx, len, len);
        }
    }
    lemma_fees_at_bound(c.utxos, c.mempool, idx);
    lemma_range_fees_grow(c.utxos, c.mempool, len - idx.len(), template_start(c.mempool), len);
}

/// A template can be made without overflow: the reward can be computed, the fees summed,
/// and their sum and the coinbase check fit in 64 bits.
pub open spec fn template_defined(c: ChainV, pubkey: Seq<u8>, unique_id: Seq<u8>, checked_height: u64) -> bool {
    &&& (c.blocks.len() as int) / (HALVING_INTERVAL as int) < 64
    &&& fee_sum(c.utxos, template_mempool_txs(c.mempool)) != Err::<int, Failure>(Failure::Overflow)
    &&& fee_sum(c.utxos, template_mempool_txs(c.mempool)) matches Ok(fees) ==> {
        &&& block_reward_at(c.blocks.len() as u64) + fees <= u64::MAX
        &&& coinbase_outcome(
            seq![coinbase_v(pubkey, unique_id, (block_reward_at(c.blocks.len() as u64) + fees) as u64)]
                + template_mempool_txs(c.mempool),
            checked_height,
            fees,
        ) != Some(Failure::Overflow)
    }
}

/// Prepares a block template whose coinbase transaction pays the reward and the fees to the
/// public key; the coinbase is checked as for a block at `checked_height`.
pub fn block_template(
    chain: &Blockchain,
    pubkey: &PublicKey,
    unique_id: Uuid,
    timestamp: Timestamp,
    checked_height: u64,
) -> (r: Result<Block, BtcError>)
    requires
        template_defined(chain@, pubkey.der@, unique_id@, checked_height),
    ensures
        match fee_sum(chain@.utxos, template_mempool_txs(chain@.mempool)) {
            Err(f) => r matches Err(e) && reports(e, f, chain@.utxos),
            Ok(fees) => {
                let amount = (block_reward_at(chain@.blocks.len() as u64) + fees) as u64;
                let b = template_v(chain@, pubkey.der@, unique_id@, timestamp, amount);
                match coinbase_outcome(b.transactions, checked_height, fees) {
                    Some(f) => r matches Err(e) && reports(e, f, chain@.utxos),
                    None => r matches Ok(block) && block@ == b,
                }
            },
        },
{
    let ghost c = chain@;
    let ghost pool = template_mempool_txs(c.mempool);
    // partially filled coinbase transaction (without reward)
    let mut coinbase_outputs: Vec<TxOutput> = Vec::new();
    coinbase_outputs.push(TxOutput { amount: 0, unique_id, pubkey: pubkey.clone() });
    let coinbase_tx = Tx { inputs: Vec::new(), outputs: coinbase_outputs };
    // get transactions from the mempool
    let mempool = chain.mempool();
    // the last transactions of the mempool, which has the highest fees last
    let n = if mempool.len() < BLOCK_TRANSACTION_CAP {
        mempool.len()
    } else {
        BLOCK_TRANSACTION_CAP
    };
    let len = mempool.len();
    let start = len - n;
    let mut transactions: Vec<Tx> = Vec::new();
    transactions.push(coinbase_tx);
    let mut k: usize = 0;
    while k < n
        invariant
            n <= mempool@.len(),
            len == mempool@.len(),
            start == mempool@.len() - n,
            n == pool.len(),
            start == template_start(c.mempool),
            pool == template_mempool_txs(c.mempool),
            c.mempool == crate::mempool::entries_view(mempool@),
            k <= n,
            transactions@.len() == k + 1,
            forall|j: int| 1 <= j <= k ==> (#[trigger] transactions@[j])@ == pool[j - 1],
            transactions@[0]@.inputs.len() == 0,
        decreases n - k,
    {
        assert(pool[k as int] == mempool@[start + k].1@);
        let idx = start + k;
        let next = mempool[idx].1.clone();
        transactions.push(next);
        k = k + 1;
    }
    let ghost tv = transactions@;
    // prepare block header
    let empty_merkle_root = MerkleRoot(crate::sha256::Hash::zero());
    let blocks = chain.blocks();
    let prev_block_hash = if blocks.len() == 0 {
        crate::sha256::Hash::zero()
    } else {
        assert(c.blocks.last() == blocks@[blocks@.len() - 1]@);
        blocks[blocks.len() - 1].header.hash()
    };
    let target = chain.target();
    let header = BlockHeader::new(timestamp, 0, prev_block_hash, empty_merkle_root, target);
    let template_block = Block::new(header, transactions);
    assert(crate::block::non_coinbase(template_block@.transactions) =~= pool);
    let miner_fees = match template_block.calculate_miner_fees(chain.utxo_set()) {
        Ok(fees) => fees,
        Err(e) => {
            return Err(e);
        },
    };
    let reward = chain.calculate_block_reward();  // block subsidy
    // update coinbase transaction with reward
    let Block { header, transactions } = template_block;
    assert(transactions@ == tv);
    let mut transactions = transactions;
    let mut paid_outputs: Vec<TxOutput> = Vec::new();
    paid_outputs.push(TxOutput { amount: reward + miner_fees, unique_id, pubkey: pubkey.clone() });
    let paid = Tx { inputs: Vec::new(), outputs: paid_outputs };
    let ghost txs = seq![coinbase_v(pubkey.der@, unique_id@, (reward + miner_fees) as u64)] + pool;
    assert(paid@.outputs =~= txs[0].outputs);
    assert(paid@.inputs =~= txs[0].inputs);
    transactions.set(0, paid);
    assert forall|j: int| 0 <= j < txs.len() implies transactions@.map_values(|t: Tx| t@)[j]
        == txs[j] by {
        if j > 0 {
            assert(tv[j]@ == pool[j - 1]);
        }
    }
    assert(transactions@.map_values(|t: Tx| t@) =~= txs);
    let template_block = Block::new(header, transactions);
    // validate the coinbase transaction
    match template_block.verify_coinbase_transaction(checked_height, miner_fees) {
        Err(e) => {
            return Err(e);
        },
        Ok(()) => {},
    }
    // calculate Merkle root
    let merkle_root = MerkleRoot::calculate(template_block.transactions.as_slice());
    let Block { header, transactions } = template_block;
    let header = BlockHeader::new(
        header.timestamp,
        header.nonce,
        header.prev_block_hash,
        merkle_root,
        header.target,
    );
    Ok(Block::new(header, transactions))
}

/// Every transaction is in the mempool.
pub open spec fn all_in_mempool(mempool: Seq<EntryV>, txs: Seq<TxV>) -> bool {
    forall|i: int|
        0 <= i < txs.len() ==> exists|j: int| 0 <= j < mempool.len() && mempool[j].1 == #[trigger] txs[i]
}

/// A template is valid when it points to the last block and every one of its transactions
/// is in the mempool.
pub open spec fn template_valid(c: ChainV, b: BlockV) -> bool {
    &&& c.blocks.len() > 0
    &&& header_hash(c.blocks.last().header) == b.header.prev_block_hash
    &&& all_in_mempool(c.mempool, b.transactions)
}

/// Whether a block template is still valid.
pub fn validate_template(chain: &Blockchain, template: &Block) -> (r: bool)
    ensures
        r == template_valid(chain@, template@),
{
    let ghost c = chain@;
    let ghost b = template@;
    // does the template point to the last block?
    let blocks = chain.blocks();
    assert(c.blocks.len() == blocks@.len());
    let valid_hash = if blocks.len() == 0 {
        false
    } else {
        assert(c.blocks.last() == blocks@[blocks@.len() - 1]@);
        blocks[blocks.len() - 1].header.hash() == template.header.prev_block_hash
    };
    // are all transactions in the template present in mempool?
    let mempool = chain.mempool();
    let mut valid_txs = true;
    let mut i: usize = 0;
    while i < template.transactions.len()
        invariant
            i <= template.transactions@.len(),
            b == template@,
            c.mempool == crate::mempool::entries_view(mempool@),
            valid_txs == all_in_mempool(c.mempool, b.transactions.take(i as int)),
        decreases template.transactions@.len() - i,
    {
        let tx = &template.transactions[i];
        assert(b.transactions[i as int] == tx@);
        let mut found = false;
        let mut j: usize = 0;
        while j < mempool.len()
            invariant
                j <= mempool@.len(),
                c.mempool == crate::mempool::entries_view(mempool@),
                found == exists|l: int| 0 <= l < j && c.mempool[l].1 == tx@,
            decreases mempool@.len() - j,
        {
            assert(c.mempool[j as int].1 == mempool@[j as int].1@);
            if mempool[j].1.same(tx) {
                found = true;
            }
            j = j + 1;
        }
        proof {
            if !found {
                assert forall|l: int| 0 <= l < c.mempool.len() implies c.mempool[l].1
                    != b.transactions[i as int] by {}
            }
        }
        let ghost prev = valid_txs;
        valid_txs = valid_txs && found;
        proof {
            let t0 = b.transactions.take(i as int);
            let t1 = b.transactions.take(i + 1);
            assert(found == exists|l: int|
                0 <= l < c.mempool.len() && c.mempool[l].1 == t1[i as int]);
            if valid_txs {
                assert forall|m: int| 0 <= m < t1.len() implies exists|l: int|
                    0 <= l < c.mempool.len() && c.mempool[l].1 == #[trigger] t1[m] by {
                    if m < i {
                        assert(t1[m] == t0[m]);
                    }
                }
            } else if all_in_mempool(c.mempool, t1) {
                assert forall|m: int| 0 <= m < t0.len() implies exists|l: int|
                    0 <= l < c.mempool.len() && c.mempool[l].1 == #[trigger] t0[m] by {
                    assert(t1[m] == t0[m]);
                }
                assert(t1[i as int] == b.transactions[i as int]);
            }
        }
        i = i + 1;
    }
    // is the whole template valid?
    assert(valid_hash == (c.blocks.len() > 0 && header_hash(c.blocks.last().header)
        == b.header.prev_block_hash));
    assert(b.transactions.take(i as int) =~= b.transactions);
    valid_hash && valid_txs
}

/// How many blocks the chain is ahead of a chain of `height` blocks (negative when behind).
pub fn height_difference(chain: &Blockchain, height: u64) -> (r: i64)
    requires
        i64::MIN <= (chain@.blocks.len() as i64) - (height as i64) <= i64::MAX,
    ensures
        r == (chain@.blocks.len() as i64) - (height as i64),
{
    let h = chain.block_height();
    (h as i64) - (height as i64)
}

/// Copies of the blocks from height `start` on, at most `n` of them, as a node streams them
/// to a peer that asks for them.
pub fn blocks_from(chain: &Blockchain, start: usize, n: usize) -> (r: Vec<Block>)
    ensures
        r@.len() == if start >= chain@.blocks.len() {
            0
        } else if n <= chain@.blocks.len() - start {
            n as int
        } else {
            chain@.blocks.len() - start
        },
        forall|i: int| 0 <= i < r@.len() ==> (#[trigger] r@[i])@ == chain@.blocks[start + i],
{
    let blocks = chain.blocks();
    let mut r: Vec<Block> = Vec::new();
    if start >= blocks.len() {
        return r;
    }
    let end = if n <= blocks.len() - start {
        start + n
    } else {
        blocks.len()
    };
    let mut i: usize = start;
    while i < end
        invariant
            start <= i <= end <= blocks@.len(),
            chain@.blocks == crate::blockchain::blocks_view(blocks@),
            r@.len() == i - start,
            forall|j: int| 0 <= j < r@.len() ==> (#[trigger] r@[j])@ == chain@.blocks[start + j],
        decreases end - i,
    {
        assert(chain@.blocks[i as int] == blocks@[i as int]@);
        r.push(blocks[i].clone());
        i = i + 1;
    }
    r
}

/// The peer that reported the longest chain: the first with the greatest positive count.
pub open spec fn longest_at(s: Seq<(String, i32)>, i: int) -> bool {
    &&& 0 <= i < s.len()
    &&& s[i].1 > 0
    &&& forall|j: int| 0 <= j < s.len() ==> #[trigger] s[j].1 <= s[i].1
    &&& forall|j: int| 0 <= j < i ==> #[trigger] s[j].1 < s[i].1
}

/// Picks, among the peers and the block counts they reported, the first with the greatest
/// count; `None` when no peer has any block.
pub fn find_longest_chain_node(reports: &Vec<(String, i32)>) -> (r: Option<(String, u32)>)
    ensures
        match r {
            None => forall|j: int| 0 <= j < reports@.len() ==> #[trigger] reports@[j].1 <= 0,
            Some(p) => exists|i: int|
                longest_at(reports@, i) && p.0 == reports@[i].0 && p.1 == reports@[i].1,
        },
{
    let mut best: usize = 0;
    let mut longest_count: i32 = 0;
    let mut i: usize = 0;
    while i < reports.len()
        invariant
            i <= reports@.len(),
            longest_count >= 0,
            longest_count == 0 ==> forall|j: int| 0 <= j < i ==> #[trigger] reports@[j].1 <= 0,
            longest_count > 0 ==> {
                &&& best < i
                &&& reports@[best as int].1 == longest_count
                &&& forall|j: int| 0 <= j < i ==> #[trigger] reports@[j].1 <= longest_count
                &&& forall|j: int| 0 <= j < best ==> #[trigger] reports@[j].1 < longest_count
            },
        decreases reports@.len() - i,
    {
        let count = reports[i].1;
        if count > longest_count {
            longest_count = count;
            best = i;
        }
        i = i + 1;
    }
    if longest_count == 0 {
        // no peer has any block yet
        return None;
    }
    assert(longest_at(reports@, best as int));
    Some((reports[best].0.clone(), longest_count as u32))
}

} // verus!
