//! ECDSA keys and signatures over secp256k1.
use vstd::prelude::*;

use ecdsa::signature::{Signer, Verifier};
use k256::pkcs8::{DecodePublicKey, EncodePublicKey};

use crate::cbor::{enc_uint_array, push_uint_array};
use crate::error::BtcError;

verus! {

/// Whether `SigningKey::<Secp256k1>::from_slice` accepts the bytes as a secret scalar.
pub uninterp spec fn valid_secret_key(sk: Seq<u8>) -> bool;

/// The SubjectPublicKeyInfo DER encoding of the public key of a secret scalar.
pub uninterp spec fn public_key_der(sk: Seq<u8>) -> Seq<u8>;

/// The 64-byte ECDSA signature (r || s) that the secret scalar gives the message.
pub uninterp spec fn ecdsa_signature(sk: Seq<u8>, msg: Seq<u8>) -> Seq<u8>;

/// Whether a signature verifies a message under a DER-encoded public key.
pub uninterp spec fn ecdsa_verifies(pk_der: Seq<u8>, msg: Seq<u8>, sig: Seq<u8>) -> bool;

/// The PEM text (with LF line endings) of a DER-encoded public key, if the DER holds a key.
pub uninterp spec fn public_key_pem(pk_der: Seq<u8>) -> Option<Seq<char>>;

/// The DER encoding of the public key in a PEM text, if the text holds one.
pub uninterp spec fn public_key_from_pem(pem: Seq<char>) -> Option<Seq<u8>>;

/// Whether the key in the DER bytes `a` comes before the key in `b` in the order of
/// `VerifyingKey<Secp256k1>` (that of their uncompressed SEC1 encodings); false when either
/// does not hold a key.
pub uninterp spec fn key_precedes(a: Seq<u8>, b: Seq<u8>) -> bool;

/// The DER bytes have a PEM text, and reading that text back gives the same DER bytes.
pub open spec fn pem_reads_back(pk_der: Seq<u8>) -> bool {
    public_key_pem(pk_der) matches Some(pem) && public_key_from_pem(pem) == Some(pk_der)
}

/// `SigningKey::<Secp256k1>::from_slice`: whether it accepts the bytes.
#[verifier::external_body]
fn secret_key_accepted(sk: &[u8]) -> (r: bool)
    ensures
        r == valid_secret_key(sk@),
{
    ecdsa::SigningKey::<k256::Secp256k1>::from_slice(sk).is_ok()
}

/// `SigningKey::<Secp256k1>::random` with the thread-local generator, as the 32 bytes of
/// its scalar (`to_bytes`), which `from_slice` accepts again.
#[verifier::external_body]
fn random_secret_key() -> (r: Vec<u8>)
    ensures
        valid_secret_key(r@),
        r@.len() == 32,
{
    ecdsa::SigningKey::<k256::Secp256k1>::random(&mut rand::thread_rng()).to_bytes().to_vec()
}

/// `SigningKey::verifying_key` for the scalar in `sk`, encoded with `to_public_key_der`.
/// Such DER bytes decode (`from_public_key_der`) to the same key, whose PEM text
/// (`to_public_key_pem`, the same DER document wrapped as PEM) parses back to the key and so
/// to the same DER bytes.
#[verifier::external_body]
fn verifying_key_der(sk: &[u8]) -> (r: Vec<u8>)
    requires
        valid_secret_key(sk@),
    ensures
        r@ == public_key_der(sk@),
        pem_reads_back(r@),
{
    match ecdsa::SigningKey::<k256::Secp256k1>::from_slice(sk) {
        Ok(key) => match key.verifying_key().to_public_key_der() {
            Ok(doc) => doc.as_bytes().to_vec(),
            Err(_) => Vec::new(),
        },
        Err(_) => Vec::new(),
    }
}

/// `Signer::sign` of a `SigningKey<Secp256k1>` on the message, as the 64 bytes of the
/// signature (`to_bytes`). The signature is normalized to a low `s`, so the verifying key of
/// the same scalar accepts it.
#[verifier::external_body]
fn sign_message(sk: &[u8], msg: &[u8]) -> (r: Vec<u8>)
    requires
        valid_secret_key(sk@),
    ensures
        r@ == ecdsa_signature(sk@, msg@),
        r@.len() == 64,
        ecdsa_verifies(public_key_der(sk@), msg@, r@),
{
    match ecdsa::SigningKey::<k256::Secp256k1>::from_slice(sk) {
        Ok(key) => {
            let sig: ecdsa::Signature<k256::Secp256k1> = key.sign(msg);
            sig.to_bytes().to_vec()
        },
        Err(_) => Vec::new(),
    }
}

/// `Verifier::verify` of a `VerifyingKey<Secp256k1>` read from DER, on a signature read
/// from its 64 bytes; false when either cannot be read.
#[verifier::external_body]
fn verify_message(pk_der: &[u8], msg: &[u8], sig: &[u8]) -> (r: bool)
    ensures
        r == ecdsa_verifies(pk_der@, msg@, sig@),
{
    match (
        ecdsa::VerifyingKey::<k256::Secp256k1>::from_public_key_der(pk_der),
        ecdsa::Signature::<k256::Secp256k1>::from_slice(sig),
    ) {
        (Ok(key), Ok(sig)) => key.verify(msg, &sig).is_ok(),
        _ => false,
    }
}

/// `EncodePublicKey::to_public_key_pem` with LF line endings of a key read from DER.
#[verifier::external_body]
fn der_to_pem(pk_der: &[u8]) -> (r: Option<String>)
    ensures
        r matches Some(s) ==> public_key_pem(pk_der@) == Some(s@),
        r is None ==> public_key_pem(pk_der@) is None,
{
    match ecdsa::VerifyingKey::<k256::Secp256k1>::from_public_key_der(pk_der) {
        Ok(key) => key.to_public_key_pem(k256::pkcs8::LineEnding::LF).ok(),
        Err(_) => None,
    }
}

/// `<` of two `VerifyingKey<Secp256k1>` read from DER (`Ord`, which compares their
/// uncompressed SEC1 encodings); false when either cannot be read.
#[verifier::external_body]
pub(crate) fn der_key_precedes(a: &[u8], b: &[u8]) -> (r: bool)
    ensures
        r == key_precedes(a@, b@),
{
    match (
        ecdsa::VerifyingKey::<k256::Secp256k1>::from_public_key_der(a),
        ecdsa::VerifyingKey::<k256::Secp256k1>::from_public_key_der(b),
    ) {
        (Ok(x), Ok(y)) => x < y,
        _ => false,
    }
}

/// `str::parse` of a `VerifyingKey<Secp256k1>` from PEM text, encoded as DER
/// (`to_public_key_der`). As for any key encoded so, the PEM text of those DER bytes parses
/// back to the same key and DER bytes.
#[verifier::external_body]
fn pem_to_der(pem: &str) -> (r: Option<Vec<u8>>)
    ensures
        r matches Some(v) ==> public_key_from_pem(pem@) == Some(v@) && pem_reads_back(v@),
        r is None ==> public_key_from_pem(pem@) is None,
{
    match pem.parse::<ecdsa::VerifyingKey<k256::Secp256k1>>() {
        Ok(key) => match key.to_public_key_der() {
            Ok(doc) => Some(doc.as_bytes().to_vec()),
            Err(_) => None,
        },
        Err(_) => None,
    }
}

/// A public key whose PEM text reads back (every key of a private key, and every key read
/// from PEM, is one): writing it as PEM and reading that text gives the same key.
pub proof fn lemma_pem_round_trip(k: PublicKey)
    requires
        pem_reads_back(k.der@),
    ensures
        public_key_pem(k.der@) is Some,
        public_key_from_pem(public_key_pem(k.der@)->0) == Some(k.der@),
{
}

/// Whether two byte sequences are equal.
pub fn bytes_eq(a: &[u8], b: &[u8]) -> (r: bool)
    ensures
        r == (a@ == b@),
{
    if a.len() != b.len() {
        return false;
    }
    let mut i: usize = 0;
    while i < a.len()
        invariant
            a@.len() == b@.len(),
            i <= a@.len(),
            forall|j: int| 0 <= j < i ==> a@[j] == b@[j],
        decreases a@.len() - i,
    {
        if a[i] != b[i] {
            return false;
        }
        i = i + 1;
    }
    assert(a@ =~= b@);
    true
}

/// ECDSA signature: the 64 bytes r || s.
#[derive(Debug)]
pub struct Signature {
    pub bytes: Vec<u8>,
}

/// Public key, held as its SubjectPublicKeyInfo DER encoding.
#[derive(Debug)]
pub struct PublicKey {
    pub der: Vec<u8>,
}

/// Private key: the 32 bytes of a secret scalar.
#[derive(Debug)]
pub struct PrivateKey {
    bytes: Vec<u8>,
}

impl Signature {
    /// The CBOR encoding: the signature bytes as an array of unsigned integers.
    pub open spec fn spec_encode_value(self) -> Seq<u8> {
        enc_uint_array(self.bytes@)
    }

    /// Appends the CBOR encoding.
    pub fn push_cbor(&self, out: &mut Vec<u8>)
        ensures
            final(out)@ == old(out)@ + self.spec_encode_value(),
    {
        push_uint_array(out, self.bytes.as_slice());
    }

    /// Sign a TxOutput from its SHA256 hash.
    pub fn sign_output(output_hash: &crate::sha256::Hash, privkey: &PrivateKey) -> (r: Signature)
        ensures
            r.bytes@ == ecdsa_signature(privkey.spec_bytes(), output_hash.spec_bytes()),
            ecdsa_verifies(public_key_der(privkey.spec_bytes()), output_hash.spec_bytes(), r.bytes@),
    {
        proof {
            use_type_invariant(privkey);
        }
        let msg = output_hash.as_bytes();
        let bytes = sign_message(privkey.bytes.as_slice(), msg.as_slice());
        Signature { bytes }
    }

    /// Verify a signature of an output.
    pub fn verify(&self, output_hash: &crate::sha256::Hash, pubkey: &PublicKey) -> (r: bool)
        ensures
            r == ecdsa_verifies(pubkey.der@, output_hash.spec_bytes(), self.bytes@),
    {
        let msg = output_hash.as_bytes();
        verify_message(pubkey.der.as_slice(), msg.as_slice(), self.bytes.as_slice())
    }

    /// Whether two signatures are the same.
    pub fn same(&self, other: &Signature) -> (r: bool)
        ensures
            r == (self.bytes@ == other.bytes@),
    {
        bytes_eq(self.bytes.as_slice(), other.bytes.as_slice())
    }
}

impl PublicKey {
    /// The CBOR encoding: the DER bytes as an array of unsigned integers.
    pub open spec fn spec_encode_value(self) -> Seq<u8> {
        enc_uint_array(self.der@)
    }

    /// Appends the CBOR encoding.
    pub fn push_cbor(&self, out: &mut Vec<u8>)
        ensures
            final(out)@ == old(out)@ + self.spec_encode_value(),
    {
        push_uint_array(out, self.der.as_slice());
    }

    /// Whether two public keys are the same key.
    pub fn same(&self, other: &PublicKey) -> (r: bool)
        ensures
            r == (self.der@ == other.der@),
    {
        bytes_eq(self.der.as_slice(), other.der.as_slice())
    }

    /// Reads a public key from PEM text; the PEM text of the key read reads back as it.
    pub fn from_pem(pem: &str) -> (r: Result<PublicKey, BtcError>)
        ensures
            match public_key_from_pem(pem@) {
                Some(der) => r matches Ok(k) && k.der@ == der && pem_reads_back(der),
                None => r matches Err(BtcError::InvalidPublicKey),
            },
    {
        match pem_to_der(pem) {
            Some(der) => Ok(PublicKey { der }),
            None => Err(BtcError::InvalidPublicKey),
        }
    }

    /// Writes the public key as PEM text.
    pub fn to_pem(&self) -> (r: Result<String, BtcError>)
        ensures
            match public_key_pem(self.der@) {
                Some(pem) => r matches Ok(s) && s@ == pem,
                None => r matches Err(BtcError::InvalidPublicKey),
            },
    {
        match der_to_pem(self.der.as_slice()) {
            Some(s) => Ok(s),
            None => Err(BtcError::InvalidPublicKey),
        }
    }
}

impl Clone for Signature {
    fn clone(&self) -> (r: Signature)
        ensures
            r.bytes@ == self.bytes@,
    {
        Signature { bytes: vstd::slice::slice_to_vec(self.bytes.as_slice()) }
    }
}

impl Clone for PublicKey {
    fn clone(&self) -> (r: PublicKey)
        ensures
            r.der@ == self.der@,
    {
        PublicKey { der: vstd::slice::slice_to_vec(self.der.as_slice()) }
    }
}

impl Clone for PrivateKey {
    fn clone(&self) -> (r: PrivateKey)
        ensures
            r.spec_bytes() == self.spec_bytes(),
    {
        proof {
            use_type_invariant(self);
        }
        PrivateKey { bytes: vstd::slice::slice_to_vec(self.bytes.as_slice()) }
    }
}

impl PrivateKey {
    #[verifier::type_invariant]
    spec fn accepted(self) -> bool {
        valid_secret_key(self.bytes@)
    }

    /// The 32 bytes of the secret scalar.
    pub closed spec fn spec_bytes(self) -> Seq<u8> {
        self.bytes@
    }

    /// Generates new private key.
    pub fn new_key() -> (r: PrivateKey)
        ensures
            r.spec_bytes().len() == 32,
    {
        PrivateKey { bytes: random_secret_key() }
    }

    /// Reads a private key from the bytes of its secret scalar.
    pub fn from_bytes(bytes: Vec<u8>) -> (r: Result<PrivateKey, BtcError>)
        ensures
            valid_secret_key(bytes@) ==> (r matches Ok(k) && k.spec_bytes() == bytes@),
            !valid_secret_key(bytes@) ==> r matches Err(BtcError::InvalidPrivateKey),
    {
        if secret_key_accepted(bytes.as_slice()) {
            Ok(PrivateKey { bytes })
        } else {
            Err(BtcError::InvalidPrivateKey)
        }
    }

    /// The bytes of the secret scalar.
    pub fn to_bytes(&self) -> (r: Vec<u8>)
        ensures
            r@ == self.spec_bytes(),
    {
        vstd::slice::slice_to_vec(self.bytes.as_slice())
    }

    /// Corresponding public key; its PEM text reads back as the same key.
    pub fn public_key(&self) -> (r: PublicKey)
        ensures
            r.der@ == public_key_der(self.spec_bytes()),
            pem_reads_back(r.der@),
    {
        proof {
            use_type_invariant(self);
        }
        PublicKey { der: verifying_key_der(self.bytes.as_slice()) }
    }
}

} // verus!
