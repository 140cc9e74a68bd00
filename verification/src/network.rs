//! Messages that nodes, miners and wallets exchange.
use vstd::prelude::*;

use crate::block::Block;
use crate::crypto::PublicKey;
use crate::transaction::{Tx, TxOutput};

verus! {

/// A message between peers.
pub enum Message {
    /// Fetch all UTXOs belonging to a public key
    FetchUTXOs(PublicKey),
    /// UTXOs belonging to a public key. Bool determines if marked
    UTXOs(Vec<(TxOutput, bool)>),
    /// Send a transaction to the network
    SubmitTransaction(Tx),
    /// Broadcast a new transaction to other nodes
    NewTransaction(Tx),
    /// Ask the node to prepare the optimal block template with the coinbase transaction
    /// paying the specified public key
    FetchTemplate(PublicKey),
    /// The template
    Template(Block),
    /// Ask the node to validate a block template
    ValidateTemplate(Block),
    /// If template is valid
    TemplateValidity(bool),
    /// Submit a mined block to a node
    SubmitTemplate(Block),
    /// Ask a node to report all the other nodes it knows about
    DiscoverNodes,
    /// This is the response to DiscoverNodes
    NodeList(Vec<String>),
    /// Ask a node what's the highest block it knows about in comparison to the local
    /// blockchain
    AskDifference(u32),
    /// This is the response to AskDifference
    Difference(i32),
    /// Ask a node to send a block with the specified height
    FetchBlock(usize),
    /// Broadcast a new block to other nodes
    NewBlock(Block),
}

} // verus!
