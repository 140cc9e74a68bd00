# btclib

A toy Bitcoin: blocks, transactions, a chain with its UTXO set and mempool, and what its
nodes, miners and wallets decide. The library is written in Verus. Its functions are
verified against their contracts, except the small wrappers marked
`#[verifier::external_body]` that call outside crates (SHA-256, hex, chrono, k256/ecdsa,
uuid) and `str::parse`: their contracts are believed, not proved, and their doc comments
say what each claims.

## Layout

- `src/u256.rs`, `src/cbor.rs`, `src/sha256.rs`: 256-bit numbers, the CBOR encoding of chain
  data, and hashes (SHA-256 of that encoding, read as a big-endian number).
- `src/time.rs`, `src/crypto.rs`: UTC timestamps, secp256k1 keys and ECDSA signatures.
- `src/transaction.rs`, `src/block.rs`, `src/merkle_root.rs`: transactions, blocks, their
  checks and Merkle roots.
- `src/utxo_set.rs`, `src/mempool.rs`, `src/blockchain.rs`: the chain, how it accepts
  blocks, rebuilds its UTXO set, adjusts its target and keeps its mempool.
- `src/network.rs`, `src/node.rs`, `src/miner.rs`, `src/wallet.rs`: messages between peers,
  the node's answers and templates, the miner's steps, the wallet's balance, payments and
  command line.
- `app/`: command line tools around the library (key, transaction and block files, mining a
  block file, the wallet's configuration), with serde copies of the chain types.
- `tests/`: tests of the library, among them checks of its encodings against `ciborium`,
  `chrono` and `k256`, and of its target adjustment against `bigdecimal`.
