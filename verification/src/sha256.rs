//! SHA-256 hashes of CBOR-encoded values, read as 256-bit numbers.
use vstd::prelude::*;

use crate::u256::U256;

verus! {

/// What `sha256::digest` returns for the given bytes: the digest as a hex string.
pub uninterp spec fn sha256_hex(data: Seq<u8>) -> Seq<char>;

/// A lower-case hexadecimal digit.
pub open spec fn is_lower_hex_digit(c: char) -> bool {
    ('0' <= c && c <= '9') || ('a' <= c && c <= 'f')
}

/// A hexadecimal digit of either case.
pub open spec fn is_hex_digit(c: char) -> bool {
    ('0' <= c && c <= '9') || ('a' <= c && c <= 'f') || ('A' <= c && c <= 'F')
}

/// The number a hexadecimal digit stands for.
pub open spec fn hex_digit_value(c: char) -> int {
    if '0' <= c && c <= '9' {
        c as int - '0' as int
    } else if 'a' <= c && c <= 'f' {
        c as int - 'a' as int + 10
    } else {
        c as int - 'A' as int + 10
    }
}

/// A string of an even number of hexadecimal digits.
pub open spec fn is_hex_string(s: Seq<char>) -> bool {
    s.len() % 2 == 0 && forall|i: int| 0 <= i < s.len() ==> is_hex_digit(#[trigger] s[i])
}

/// The bytes that a string of hexadecimal digit pairs stands for.
pub open spec fn hex_decoded(s: Seq<char>) -> Seq<u8> {
    Seq::new(
        s.len() / 2,
        |i: int| (hex_digit_value(s[2 * i]) * 16 + hex_digit_value(s[2 * i + 1])) as u8,
    )
}

/// `sha256::digest` on a byte vector: the SHA-256 digest of the bytes, written as
/// 64 lower-case hexadecimal digits (the crate hex-encodes the 32-byte digest).
#[verifier::external_body]
fn sha256_digest(data: &Vec<u8>) -> (r: String)
    ensures
        r@ == sha256_hex(data@),
        r@.len() == 64,
        forall|i: int| 0 <= i < 64 ==> is_lower_hex_digit(#[trigger] r@[i]),
{
    sha256::digest(data)
}

/// `hex::decode`: succeeds exactly on strings of an even number of hexadecimal digits
/// (either case), and then gives the byte of each pair of digits.
#[verifier::external_body]
fn hex_decode(s: &String) -> (r: Option<Vec<u8>>)
    ensures
        r is Some <==> is_hex_string(s@),
        r matches Some(v) ==> v@ == hex_decoded(s@),
{
    hex::decode(s).ok()
}

/// A value that can be hashed: it has a CBOR encoding.
pub trait Serializable {
    /// The CBOR encoding of the value.
    spec fn spec_serialize(&self) -> Seq<u8>;

    /// Computes the CBOR encoding of the value.
    fn serialize(&self) -> (r: Vec<u8>)
        ensures
            r@ == self.spec_serialize(),
    ;
}

/// SHA-256 hash, as a 256-bit number read from the digest in big-endian order.
#[derive(Clone, Copy, Debug, PartialEq, Eq, Structural)]
pub struct Hash(pub U256);

/// The hash of the given bytes.
pub open spec fn spec_hash_bytes(data: Seq<u8>) -> Hash {
    Hash(U256::spec_from_be_bytes(hex_decoded(sha256_hex(data))))
}

impl Hash {
    /// The hash of an encodable value: SHA-256 of its CBOR encoding.
    pub open spec fn spec_hash<T: Serializable>(data: &T) -> Hash {
        spec_hash_bytes(data.spec_serialize())
    }

    /// Hashes anything that can be encoded (into CBOR).
    pub fn hash<T: Serializable>(data: &T) -> (r: Hash)
        ensures
            r == Hash::spec_hash(data),
    {
        let bytes = data.serialize();
        Hash::hash_bytes(&bytes)
    }

    /// Hashes the given bytes.
    pub fn hash_bytes(data: &Vec<u8>) -> (r: Hash)
        ensures
            r == spec_hash_bytes(data@),
    {
        let digest = sha256_digest(data);
        proof {
            assert forall|i: int| 0 <= i < digest@.len() implies is_hex_digit(#[trigger] digest@[i]) by {
                assert(is_lower_hex_digit(digest@[i]));
            }
        }
        let decoded = hex_decode(&digest);
        match decoded {
            Some(bytes) => {
                assert(bytes@.len() == 32);
                Hash(U256::from_big_endian(bytes.as_slice()))
            },
            None => {
                assert(false);
                Hash(U256::zero())
            },
        }
    }

    /// Checks if the hash matches a target: it is no greater than the target.
    pub fn matches_target(&self, target: U256) -> (r: bool)
        ensures
            r == (self.0.value() <= target.value()),
    {
        self.0.le(&target)
    }

    /// The hash in lower-case hexadecimal, without leading zeros.
    pub fn to_hex(&self) -> (r: String)
        ensures
            r@ == crate::text::hex_text(self.0.value() as nat),
    {
        let mut out = String::new();
        crate::text::push_hex(&mut out, &self.0);
        out
    }

    /// Zero hash.
    pub fn zero() -> (r: Hash)
        ensures
            r.0.value() == 0,
            r == Hash(U256 { w0: 0, w1: 0, w2: 0, w3: 0 }),
    {
        Hash(U256::zero())
    }

    /// The little-endian encoded 32 bytes of the hash.
    pub open spec fn spec_bytes(self) -> Seq<u8> {
        crate::u256::spec_le_bytes(self.0)
    }

    /// Converts to little-endian encoded 32 bytes.
    pub fn as_bytes(&self) -> (r: [u8; 32])
        ensures
            r@ == self.spec_bytes(),
            r@.len() == 32,
            crate::u256::le256(r@) == self.0.value(),
    {
        self.0.to_little_endian()
    }

    /// The CBOR encoding: the four words as an array of unsigned integers.
    pub open spec fn spec_encode_value(self) -> Seq<u8> {
        crate::u256::spec_encode_u256(self.0)
    }
}

/// The bytes of a hash are its 256-bit number in little-endian order, so two hashes have the
/// same bytes exactly when they are equal.
pub proof fn lemma_hash_bytes_injective(a: Hash, b: Hash)
    ensures
        a.spec_bytes().len() == 32,
        crate::u256::le256(a.spec_bytes()) == a.0.value(),
        a.spec_bytes() == b.spec_bytes() <==> a == b,
{
    crate::u256::lemma_le_bytes_words(a.0);
    crate::u256::lemma_le_bytes_injective(a.0, b.0);
}

/// The zero hash matches every target, and a hash that matches a target matches every
/// larger target.
pub proof fn lemma_matches_target_monotone(h: Hash, t1: U256, t2: U256)
    requires
        h.0.value() <= t1.value(),
        t1.value() <= t2.value(),
    ensures
        h.0.value() <= t2.value(),
        Hash(U256 { w0: 0, w1: 0, w2: 0, w3: 0 }).0.value() <= t2.value(),
{
    t2.lemma_value_bound();
}

impl Serializable for Hash {
    open spec fn spec_serialize(&self) -> Seq<u8> {
        self.spec_encode_value()
    }

    fn serialize(&self) -> (r: Vec<u8>) {
        let mut out = Vec::new();
        crate::u256::push_u256(&mut out, &self.0);
        out
    }
}

} // verus!
