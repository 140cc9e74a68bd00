//! Transactions, their inputs and outputs, and their CBOR encodings.
use vstd::prelude::*;
use vstd::string::StringSliceAdditionalSpecFns;

use crate::cbor::{
    enc_array_head, enc_bytes, enc_map_head, enc_text, enc_uint, enc_uint_array, push_array_head,
    push_bytes, push_map_head, push_text, push_uint,
};
use crate::crypto::{PublicKey, Signature};
use crate::sha256::{spec_hash_bytes, Serializable};

verus! {

/// `Uuid::new_v4()`: a random version 4 UUID, as its 16 bytes. The crate masks random bits
/// so that the version nibble (high half of byte 6) is 4 and the variant bits (top two of
/// byte 8) are `10`; the other bits are random and left unsaid.
#[verifier::external_body]
fn random_uuid_bytes() -> (r: [u8; 16])
    ensures
        r@[6] / 16 == 4,
        r@[8] / 64 == 2,
{
    uuid::Uuid::new_v4().into_bytes()
}

/// Generated identifier (a UUID, as its 16 bytes).
#[derive(Clone, Copy, Debug)]
pub struct Uuid(pub [u8; 16]);

impl View for Uuid {
    type V = Seq<u8>;

    open spec fn view(&self) -> Seq<u8> {
        self.0@
    }
}

impl Uuid {
    /// A new random version 4 identifier: its version nibble is 4 and its variant bits
    /// are those of RFC 4122.
    pub fn new_v4() -> (r: Uuid)
        ensures
            r@.len() == 16,
            r@[6] / 16 == 4,
            r@[8] / 64 == 2,
    {
        Uuid(random_uuid_bytes())
    }
}

/// What a transaction input stands for.
pub struct InputV {
    pub prev_tx_output_hash: crate::sha256::Hash,
    pub signature: Seq<u8>,
}

/// What a transaction output stands for.
pub struct OutputV {
    pub amount: u64,
    pub unique_id: Seq<u8>,
    pub pubkey: Seq<u8>,
}

/// What a transaction stands for.
pub struct TxV {
    pub inputs: Seq<InputV>,
    pub outputs: Seq<OutputV>,
}

/// Transaction input.
#[derive(Debug)]
pub struct TxInput {
    /// Hash of the transaction output, which we are linking into this transaction as input
    pub prev_tx_output_hash: crate::sha256::Hash,
    /// ScriptSig - here just signature (w/o script)
    pub signature: Signature,
}

/// Transaction output.
#[derive(Debug)]
pub struct TxOutput {
    pub amount: u64,
    /// Generated identifier that helps us ensure that the hash of each transaction output is
    /// unique, and can be used to identify it
    pub unique_id: Uuid,
    /// ScriptPubKey - here just the public key
    pub pubkey: PublicKey,
}

/// Transaction.
#[derive(Debug)]
pub struct Tx {
    pub inputs: Vec<TxInput>,
    pub outputs: Vec<TxOutput>,
}

impl View for TxInput {
    type V = InputV;

    open spec fn view(&self) -> InputV {
        InputV { prev_tx_output_hash: self.prev_tx_output_hash, signature: self.signature.bytes@ }
    }
}

impl View for TxOutput {
    type V = OutputV;

    open spec fn view(&self) -> OutputV {
        OutputV { amount: self.amount, unique_id: self.unique_id@, pubkey: self.pubkey.der@ }
    }
}

impl View for Tx {
    type V = TxV;

    open spec fn view(&self) -> TxV {
        TxV {
            inputs: self.inputs@.map_values(|i: TxInput| i@),
            outputs: self.outputs@.map_values(|o: TxOutput| o@),
        }
    }
}

/// CBOR encoding of a transaction input (a map of its two fields).
#[verifier::opaque]
pub open spec fn enc_input(i: InputV) -> Seq<u8> {
    enc_map_head(2) + enc_text("prev_tx_output_hash".spec_bytes()) + crate::u256::spec_encode_u256(
        i.prev_tx_output_hash.0,
    ) + enc_text("signature".spec_bytes()) + enc_uint_array(i.signature)
}

/// CBOR encoding of a transaction output (a map of its three fields).
#[verifier::opaque]
pub open spec fn enc_output(o: OutputV) -> Seq<u8> {
    enc_map_head(3) + enc_text("amount".spec_bytes()) + enc_uint(o.amount) + enc_text(
        "unique_id".spec_bytes(),
    ) + enc_bytes(o.unique_id) + enc_text("pubkey".spec_bytes()) + enc_uint_array(o.pubkey)
}

/// Concatenated encodings of a sequence of inputs.
pub open spec fn enc_inputs(s: Seq<InputV>) -> Seq<u8>
    decreases s.len(),
{
    if s.len() == 0 {
        seq![]
    } else {
        enc_inputs(s.drop_last()) + enc_input(s.last())
    }
}

/// Concatenated encodings of a sequence of outputs.
pub open spec fn enc_outputs(s: Seq<OutputV>) -> Seq<u8>
    decreases s.len(),
{
    if s.len() == 0 {
        seq![]
    } else {
        enc_outputs(s.drop_last()) + enc_output(s.last())
    }
}

/// CBOR encoding of a transaction (a map of its inputs and outputs arrays).
#[verifier::opaque]
pub open spec fn enc_tx(t: TxV) -> Seq<u8> {
    enc_map_head(2) + enc_text("inputs".spec_bytes()) + enc_array_head(t.inputs.len())
        + enc_inputs(t.inputs) + enc_text("outputs".spec_bytes()) + enc_array_head(
        t.outputs.len(),
    ) + enc_outputs(t.outputs)
}

/// Hash of a transaction output.
pub open spec fn output_hash(o: OutputV) -> crate::sha256::Hash {
    spec_hash_bytes(enc_output(o))
}

/// Hash of a transaction.
pub open spec fn tx_hash(t: TxV) -> crate::sha256::Hash {
    spec_hash_bytes(enc_tx(t))
}

impl TxInput {
    /// Appends the CBOR encoding.
    pub fn push_cbor(&self, out: &mut Vec<u8>)
        ensures
            final(out)@ == old(out)@ + enc_input(self@),
    {
        push_map_head(out, 2);
        push_text(out, "prev_tx_output_hash".as_bytes());
        crate::u256::push_u256(out, &self.prev_tx_output_hash.0);
        push_text(out, "signature".as_bytes());
        self.signature.push_cbor(out);
        reveal(enc_input);
        assert(final(out)@ =~= old(out)@ + enc_input(self@));
    }
}

impl Clone for TxInput {
    fn clone(&self) -> (r: TxInput)
        ensures
            r@ == self@,
    {
        TxInput {
            prev_tx_output_hash: self.prev_tx_output_hash,
            signature: Signature { bytes: vstd::slice::slice_to_vec(self.signature.bytes.as_slice()) },
        }
    }
}

impl Clone for TxOutput {
    fn clone(&self) -> (r: TxOutput)
        ensures
            r@ == self@,
    {
        TxOutput {
            amount: self.amount,
            unique_id: self.unique_id,
            pubkey: PublicKey { der: vstd::slice::slice_to_vec(self.pubkey.der.as_slice()) },
        }
    }
}

impl TxOutput {
    /// Appends the CBOR encoding.
    pub fn push_cbor(&self, out: &mut Vec<u8>)
        ensures
            final(out)@ == old(out)@ + enc_output(self@),
    {
        push_map_head(out, 3);
        push_text(out, "amount".as_bytes());
        push_uint(out, self.amount);
        push_text(out, "unique_id".as_bytes());
        push_bytes(out, self.unique_id.0.as_slice());
        push_text(out, "pubkey".as_bytes());
        self.pubkey.push_cbor(out);
        reveal(enc_output);
        assert(final(out)@ =~= old(out)@ + enc_output(self@));
    }

    /// Hash of the output.
    pub fn hash(&self) -> (r: crate::sha256::Hash)
        ensures
            r == output_hash(self@),
    {
        crate::sha256::Hash::hash(self)
    }

    /// Whether two outputs are equal field by field.
    pub fn same(&self, other: &TxOutput) -> (r: bool)
        ensures
            r == (self@ == other@),
    {
        self.amount == other.amount && crate::crypto::bytes_eq(
            self.unique_id.0.as_slice(),
            other.unique_id.0.as_slice(),
        ) && self.pubkey.same(&other.pubkey)
    }
}

impl Serializable for TxOutput {
    open spec fn spec_serialize(&self) -> Seq<u8> {
        enc_output(self@)
    }

    fn serialize(&self) -> (r: Vec<u8>) {
        let mut out = Vec::new();
        self.push_cbor(&mut out);
        out
    }
}

/// Appends the encodings of the inputs, one after the other.
fn push_inputs(out: &mut Vec<u8>, inputs: &Vec<TxInput>)
    ensures
        final(out)@ == old(out)@ + enc_inputs(inputs@.map_values(|i: TxInput| i@)),
{
    let ghost start = out@;
    let ghost all = inputs@.map_values(|i: TxInput| i@);
    let mut k: usize = 0;
    while k < inputs.len()
        invariant
            k <= inputs@.len(),
            all == inputs@.map_values(|i: TxInput| i@),
            out@ == start + enc_inputs(all.subrange(0, k as int)),
        decreases inputs@.len() - k,
    {
        inputs[k].push_cbor(out);
        proof {
            let t = all.subrange(0, k + 1);
            assert(t.drop_last() =~= all.subrange(0, k as int));
        }
        k = k + 1;
        assert(out@ =~= start + enc_inputs(all.subrange(0, k as int)));
    }
    assert(all.subrange(0, inputs@.len() as int) =~= all);
}

/// Appends the encodings of the outputs, one after the other.
fn push_outputs(out: &mut Vec<u8>, outputs: &Vec<TxOutput>)
    ensures
        final(out)@ == old(out)@ + enc_outputs(outputs@.map_values(|o: TxOutput| o@)),
{
    let ghost start = out@;
    let ghost all = outputs@.map_values(|o: TxOutput| o@);
    let mut k: usize = 0;
    while k < outputs.len()
        invariant
            k <= outputs@.len(),
            all == outputs@.map_values(|o: TxOutput| o@),
            out@ == start + enc_outputs(all.subrange(0, k as int)),
        decreases outputs@.len() - k,
    {
        outputs[k].push_cbor(out);
        proof {
            let t = all.subrange(0, k + 1);
            assert(t.drop_last() =~= all.subrange(0, k as int));
        }
        k = k + 1;
        assert(out@ =~= start + enc_outputs(all.subrange(0, k as int)));
    }
    assert(all.subrange(0, outputs@.len() as int) =~= all);
}

/// Copies a sequence of inputs.
pub fn clone_inputs(v: &Vec<TxInput>) -> (r: Vec<TxInput>)
    ensures
        r@.map_values(|i: TxInput| i@) == v@.map_values(|i: TxInput| i@),
{
    let mut r: Vec<TxInput> = Vec::new();
    let mut k: usize = 0;
    while k < v.len()
        invariant
            k <= v@.len(),
            r@.len() == k,
            forall|j: int| 0 <= j < k ==> r@[j]@ == v@[j]@,
        decreases v@.len() - k,
    {
        r.push(v[k].clone());
        k = k + 1;
    }
    assert(r@.map_values(|i: TxInput| i@) =~= v@.map_values(|i: TxInput| i@));
    r
}

/// Copies a sequence of outputs.
pub fn clone_outputs(v: &Vec<TxOutput>) -> (r: Vec<TxOutput>)
    ensures
        r@.map_values(|o: TxOutput| o@) == v@.map_values(|o: TxOutput| o@),
{
    let mut r: Vec<TxOutput> = Vec::new();
    let mut k: usize = 0;
    while k < v.len()
        invariant
            k <= v@.len(),
            r@.len() == k,
            forall|j: int| 0 <= j < k ==> r@[j]@ == v@[j]@,
        decreases v@.len() - k,
    {
        r.push(v[k].clone());
        k = k + 1;
    }
    assert(r@.map_values(|o: TxOutput| o@) =~= v@.map_values(|o: TxOutput| o@));
    r
}

impl Clone for Tx {
    fn clone(&self) -> (r: Tx)
        ensures
            r@ == self@,
    {
        Tx { inputs: clone_inputs(&self.inputs), outputs: clone_outputs(&self.outputs) }
    }
}

impl Tx {
    pub fn new(inputs: Vec<TxInput>, outputs: Vec<TxOutput>) -> (r: Tx)
        ensures
            r.inputs == inputs,
            r.outputs == outputs,
    {
        Tx { inputs, outputs }
    }

    /// Appends the CBOR encoding.
    pub fn push_cbor(&self, out: &mut Vec<u8>)
        ensures
            final(out)@ == old(out)@ + enc_tx(self@),
    {
        push_map_head(out, 2);
        push_text(out, "inputs".as_bytes());
        push_array_head(out, self.inputs.len());
        push_inputs(out, &self.inputs);
        push_text(out, "outputs".as_bytes());
        push_array_head(out, self.outputs.len());
        push_outputs(out, &self.outputs);
        reveal(enc_tx);
        assert(final(out)@ =~= old(out)@ + enc_tx(self@));
    }

    /// Hash of the transaction.
    pub fn hash(&self) -> (r: crate::sha256::Hash)
        ensures
            r == tx_hash(self@),
    {
        crate::sha256::Hash::hash(self)
    }

    /// Whether two transactions are equal field by field.
    pub fn same(&self, other: &Tx) -> (r: bool)
        ensures
            r == (self@ == other@),
    {
        if self.inputs.len() != other.inputs.len() || self.outputs.len() != other.outputs.len() {
            assert(self@.inputs.len() != other@.inputs.len() || self@.outputs.len()
                != other@.outputs.len());
            return false;
        }
        let mut k: usize = 0;
        while k < self.inputs.len()
            invariant
                self.inputs@.len() == other.inputs@.len(),
                k <= self.inputs@.len(),
                forall|j: int| 0 <= j < k ==> self.inputs@[j]@ == other.inputs@[j]@,
            decreases self.inputs@.len() - k,
        {
            let a = &self.inputs[k];
            let b = &other.inputs[k];
            if a.prev_tx_output_hash != b.prev_tx_output_hash || !a.signature.same(&b.signature) {
                assert(self@.inputs[k as int] != other@.inputs[k as int]);
                return false;
            }
            k = k + 1;
        }
        let mut k: usize = 0;
        while k < self.outputs.len()
            invariant
                self.outputs@.len() == other.outputs@.len(),
                k <= self.outputs@.len(),
                forall|j: int| 0 <= j < k ==> self.outputs@[j]@ == other.outputs@[j]@,
            decreases self.outputs@.len() - k,
        {
            if !self.outputs[k].same(&other.outputs[k]) {
                assert(self@.outputs[k as int] != other@.outputs[k as int]);
                return false;
            }
            k = k + 1;
        }
        assert(self@.inputs =~= other@.inputs);
        assert(self@.outputs =~= other@.outputs);
        true
    }
}

impl Serializable for Tx {
    open spec fn spec_serialize(&self) -> Seq<u8> {
        enc_tx(self@)
    }

    fn serialize(&self) -> (r: Vec<u8>) {
        let mut out = Vec::new();
        self.push_cbor(&mut out);
        out
    }
}

} // verus!
