//! A toy Bitcoin library: hashes, transactions, blocks, the chain with its UTXO set and
//! mempool, and the decisions made by nodes, miners and wallets.
pub mod block;
pub mod blockchain;
pub mod cbor;
pub mod crypto;
pub mod error;
pub mod mempool;
pub mod merkle_root;
pub mod miner;
pub mod network;
pub mod node;
pub mod replay;
pub mod sha256;
pub mod text;
pub mod time;
pub mod transaction;
pub mod u256;
pub mod utxo_set;
pub mod wallet;
