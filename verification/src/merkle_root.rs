//! Merkle root of the transactions of a block.
use vstd::prelude::*;

use crate::sha256::spec_hash_bytes;
use crate::transaction::{tx_hash, Tx, TxV};

verus! {

/// Merkle root: the hash at the top of the Merkle tree of a block's transactions.
#[derive(Clone, Copy, Debug, PartialEq, Eq, Structural)]
pub struct MerkleRoot(pub crate::sha256::Hash);

/// Hash of a pair of hashes (the CBOR array of the two).
#[verifier::opaque]
pub open spec fn pair_hash(left: crate::sha256::Hash, right: crate::sha256::Hash) -> crate::sha256::Hash {
    spec_hash_bytes(
        crate::cbor::enc_array_head(2) + crate::u256::spec_encode_u256(left.0)
            + crate::u256::spec_encode_u256(right.0),
    )
}

/// The next layer of the tree: each pair hashed together, the last hash paired with itself
/// when the layer has an odd number of hashes.
pub open spec fn next_layer(s: Seq<crate::sha256::Hash>) -> Seq<crate::sha256::Hash> {
    Seq::new(
        ((s.len() + 1) / 2) as nat,
        |i: int|
            pair_hash(
                s[2 * i],
                if 2 * i + 1 < s.len() {
                    s[2 * i + 1]
                } else {
                    s[2 * i]
                },
            ),
    )
}

/// The hash that a nonempty layer reduces to.
pub open spec fn reduce_layers(s: Seq<crate::sha256::Hash>) -> crate::sha256::Hash
    decreases s.len(),
{
    if s.len() <= 1 {
        s[0]
    } else {
        reduce_layers(next_layer(s))
    }
}

/// Merkle root of a sequence of transactions; the zero hash when there are none.
pub open spec fn merkle_root_of(txs: Seq<TxV>) -> MerkleRoot {
    if txs.len() == 0 {
        MerkleRoot(crate::sha256::Hash(crate::u256::U256 { w0: 0, w1: 0, w2: 0, w3: 0 }))
    } else {
        MerkleRoot(reduce_layers(txs.map_values(|t: TxV| tx_hash(t))))
    }
}

/// The Merkle root of one transaction is its hash; that of two is the hash of the pair of
/// their hashes.
pub proof fn lemma_merkle_root_small(a: TxV, b: TxV)
    ensures
        merkle_root_of(seq![a]) == MerkleRoot(tx_hash(a)),
        merkle_root_of(seq![a, b]) == MerkleRoot(pair_hash(tx_hash(a), tx_hash(b))),
{
    let s1 = seq![a].map_values(|t: TxV| tx_hash(t));
    assert(s1 =~= seq![tx_hash(a)]);
    let s2 = seq![a, b].map_values(|t: TxV| tx_hash(t));
    assert(s2 =~= seq![tx_hash(a), tx_hash(b)]);
    let l = next_layer(s2);
    assert(l =~= seq![pair_hash(tx_hash(a), tx_hash(b))]);
    assert(reduce_layers(l) == l[0]);
}

/// With three transactions the third hash is paired with itself.
pub proof fn lemma_merkle_root_odd(a: TxV, b: TxV, c: TxV)
    ensures
        merkle_root_of(seq![a, b, c]) == MerkleRoot(
            pair_hash(pair_hash(tx_hash(a), tx_hash(b)), pair_hash(tx_hash(c), tx_hash(c))),
        ),
{
    let s3 = seq![a, b, c].map_values(|t: TxV| tx_hash(t));
    assert(s3 =~= seq![tx_hash(a), tx_hash(b), tx_hash(c)]);
    let l1 = next_layer(s3);
    assert(l1 =~= seq![pair_hash(tx_hash(a), tx_hash(b)), pair_hash(tx_hash(c), tx_hash(c))]);
    let l2 = next_layer(l1);
    assert(l2 =~= seq![pair_hash(l1[0], l1[1])]);
    assert(reduce_layers(l2) == l2[0]);
    assert(reduce_layers(l1) == reduce_layers(l2));
}

/// On every layer of the tree, whatever its length, the hashes are paired in order and an
/// unpaired last hash is paired with itself: a layer of more than one hash has the root of
/// the layer of those pair hashes.
pub proof fn lemma_merkle_layer(s: Seq<crate::sha256::Hash>)
    requires
        s.len() > 1,
    ensures
        reduce_layers(s) == reduce_layers(
            Seq::new(
                ((s.len() + 1) / 2) as nat,
                |i: int|
                    if 2 * i + 1 < s.len() {
                        pair_hash(s[2 * i], s[2 * i + 1])
                    } else {
                        pair_hash(s[2 * i], s[2 * i])
                    },
            ),
        ),
        reduce_layers(seq![s[0]]) == s[0],
{
    let p = Seq::new(
        ((s.len() + 1) / 2) as nat,
        |i: int|
            if 2 * i + 1 < s.len() {
                pair_hash(s[2 * i], s[2 * i + 1])
            } else {
                pair_hash(s[2 * i], s[2 * i])
            },
    );
    assert(next_layer(s) =~= p);
}

proof fn lemma_reduce_five(
    h1: crate::sha256::Hash,
    h2: crate::sha256::Hash,
    h3: crate::sha256::Hash,
    h4: crate::sha256::Hash,
    h5: crate::sha256::Hash,
)
    ensures
        reduce_layers(seq![h1, h2, h3, h4, h5]) == pair_hash(
            pair_hash(pair_hash(h1, h2), pair_hash(h3, h4)),
            pair_hash(pair_hash(h5, h5), pair_hash(h5, h5)),
        ),
{
    let s = seq![h1, h2, h3, h4, h5];
    let l1 = next_layer(s);
    assert(l1 =~= seq![pair_hash(h1, h2), pair_hash(h3, h4), pair_hash(h5, h5)]);
    let l2 = next_layer(l1);
    assert(l2 =~= seq![
        pair_hash(pair_hash(h1, h2), pair_hash(h3, h4)),
        pair_hash(pair_hash(h5, h5), pair_hash(h5, h5)),
    ]);
    let l3 = next_layer(l2);
    assert(l3 =~= seq![pair_hash(l2[0], l2[1])]);
    assert(reduce_layers(l3) == l3[0]);
    assert(reduce_layers(l2) == reduce_layers(l3));
    assert(reduce_layers(l1) == reduce_layers(l2));
    assert(reduce_layers(s) == reduce_layers(l1));
}

/// The Merkle root of no transaction is the zero hash, of one its hash, and of more the root
/// of the layer of their hashes paired in order (the last with itself when unpaired).
pub proof fn lemma_merkle_root_leaves(txs: Seq<TxV>)
    ensures
        txs.len() == 0 ==> merkle_root_of(txs) == MerkleRoot(
            crate::sha256::Hash(crate::u256::U256 { w0: 0, w1: 0, w2: 0, w3: 0 }),
        ),
        txs.len() == 1 ==> merkle_root_of(txs) == MerkleRoot(tx_hash(txs[0])),
        txs.len() > 1 ==> merkle_root_of(txs) == MerkleRoot(
            reduce_layers(
                Seq::new(
                    ((txs.len() + 1) / 2) as nat,
                    |i: int|
                        if 2 * i + 1 < txs.len() {
                            pair_hash(tx_hash(txs[2 * i]), tx_hash(txs[2 * i + 1]))
                        } else {
                            pair_hash(tx_hash(txs[2 * i]), tx_hash(txs[2 * i]))
                        },
                ),
            ),
        ),
{
    let s = txs.map_values(|t: TxV| tx_hash(t));
    if txs.len() > 1 {
        lemma_merkle_layer(s);
        let p1 = Seq::new(
            ((s.len() + 1) / 2) as nat,
            |i: int|
                if 2 * i + 1 < s.len() {
                    pair_hash(s[2 * i], s[2 * i + 1])
                } else {
                    pair_hash(s[2 * i], s[2 * i])
                },
        );
        let p2 = Seq::new(
            ((txs.len() + 1) / 2) as nat,
            |i: int|
                if 2 * i + 1 < txs.len() {
                    pair_hash(tx_hash(txs[2 * i]), tx_hash(txs[2 * i + 1]))
                } else {
                    pair_hash(tx_hash(txs[2 * i]), tx_hash(txs[2 * i]))
                },
        );
        assert(p1 =~= p2);
    }
}

/// The Merkle root of five transactions: the fifth hash is paired with itself on the leaf
/// layer, and the resulting unpaired hash is paired with itself again on the next layer.
pub proof fn lemma_merkle_root_five(a: TxV, b: TxV, c: TxV, d: TxV, e: TxV)
    ensures
        merkle_root_of(seq![a, b, c, d, e]) == MerkleRoot(
            pair_hash(
                pair_hash(
                    pair_hash(tx_hash(a), tx_hash(b)),
                    pair_hash(tx_hash(c), tx_hash(d)),
                ),
                pair_hash(
                    pair_hash(tx_hash(e), tx_hash(e)),
                    pair_hash(tx_hash(e), tx_hash(e)),
                ),
            ),
        ),
{
    let s = seq![a, b, c, d, e].map_values(|t: TxV| tx_hash(t));
    assert(s =~= seq![tx_hash(a), tx_hash(b), tx_hash(c), tx_hash(d), tx_hash(e)]);
    lemma_reduce_five(tx_hash(a), tx_hash(b), tx_hash(c), tx_hash(d), tx_hash(e));
}

/// Hashes a pair of hashes.
fn hash_pair(left: &crate::sha256::Hash, right: &crate::sha256::Hash) -> (r: crate::sha256::Hash)
    ensures
        r == pair_hash(*left, *right),
{
    let mut out: Vec<u8> = Vec::new();
    crate::cbor::push_array_head(&mut out, 2);
    crate::u256::push_u256(&mut out, &left.0);
    crate::u256::push_u256(&mut out, &right.0);
    proof {
        reveal(pair_hash);
    }
    crate::sha256::Hash::hash_bytes(&out)
}

impl MerkleRoot {
    /// Calculate the Merkle root of a block's transactions.
    pub fn calculate(transactions: &[Tx]) -> (r: MerkleRoot)
        ensures
            r == merkle_root_of(transactions@.map_values(|t: Tx| t@)),
    {
        let ghost txs = transactions@.map_values(|t: Tx| t@);
        let mut layer: Vec<crate::sha256::Hash> = Vec::new();
        let mut k: usize = 0;
        while k < transactions.len()
            invariant
                k <= transactions@.len(),
                txs == transactions@.map_values(|t: Tx| t@),
                layer@ =~= txs.subrange(0, k as int).map_values(|t: TxV| tx_hash(t)),
            decreases transactions@.len() - k,
        {
            layer.push(transactions[k].hash());
            k = k + 1;
        }
        assert(txs.subrange(0, txs.len() as int) =~= txs);
        if layer.len() == 0 {
            return MerkleRoot(crate::sha256::Hash::zero());
        }
        while layer.len() > 1
            invariant
                layer@.len() >= 1,
                reduce_layers(layer@) == reduce_layers(txs.map_values(|t: TxV| tx_hash(t))),
            decreases layer@.len(),
        {
            let ghost prev = layer@;
            let mut new_layer: Vec<crate::sha256::Hash> = Vec::new();
            let half = layer.len() / 2 + layer.len() % 2;
            assert(half == (prev.len() + 1) / 2);
            let mut j: usize = 0;
            while j < half
                invariant
                    layer@ == prev,
                    half == (prev.len() + 1) / 2,
                    prev.len() <= usize::MAX,
                    j <= half,
                    new_layer@.len() == j,
                    forall|m: int| 0 <= m < j ==> new_layer@[m] == next_layer(prev)[m],
                decreases half - j,
            {
                let i = 2 * j;
                let left = layer[i];
                let right = if i + 1 < layer.len() {
                    layer[i + 1]
                } else {
                    left
                };
                new_layer.push(hash_pair(&left, &right));
                j = j + 1;
            }
            assert(new_layer@ =~= next_layer(prev));
            layer = new_layer;
        }
        MerkleRoot(layer[0])
    }
}

} // verus!
