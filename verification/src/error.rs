//! Errors of the library.
use vstd::prelude::*;


verus! {

/// Why a block, transaction or key was refused.
#[derive(Clone, Debug)]
pub enum BtcError {
    InvalidTransaction(String),
    InvalidBlock(String),
    InvalidBlockHeader,
    InvalidTxInput,
    InvalidTxOutput,
    InvalidMerkleRoot,
    InvalidHash,
    InvalidSignature,
    InvalidPublicKey,
    InvalidPrivateKey,
    TxAlreadyInMempool(crate::sha256::Hash),
}

} // verus!
