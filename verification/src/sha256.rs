use vstd::prelude::*;
use crate::u256::{U256, is_hex_digit, is_lower_hex_digit, hex_value, lemma_from_value_of_value, lemma_value_injective};

verus! {

/// The lowercase hexadecimal SHA-256 digest of a byte string, as ASCII bytes.
pub uninterp spec fn sha256_hex_digest(data: Seq<u8>) -> Seq<u8>;

/// Calls `sha256::digest` on a byte slice and returns the digest string as bytes.
/// The contract claims that the result is the digest named by `sha256_hex_digest`
/// and that it is 64 hexadecimal digits, as the crate hex-encodes the 32 bytes of the
/// SHA-256 output.
#[verifier::external_body]
fn sha256_hex(data: &[u8]) -> (r: Vec<u8>)
    ensures
        r@ == sha256_hex_digest(data@),
        r@.len() == 64,
        forall|i: int| 0 <= i < 64 ==> is_hex_digit(#[trigger] r@[i]),
{
    sha256::digest(data).into_bytes()
}

/// A 256-bit SHA-256 digest read as a big-endian number.
#[derive(Clone, Copy, Debug, PartialEq, Eq, Structural)]
pub struct Hash(pub U256);

/// Hash of a whole block.
#[derive(Clone, Copy, Debug, PartialEq, Eq, Structural)]
pub struct BlockHash(pub Hash);

/// Hash identifying a transaction.
#[derive(Clone, Copy, Debug, PartialEq, Eq, Structural)]
pub struct Txid(pub Hash);

/// Hash identifying a transaction output.
#[derive(Clone, Copy, Debug, PartialEq, Eq, Structural)]
pub struct UtxoHash(pub Hash);

/// Name under which block validation refers to output hashes.
pub type TxOutputHash = UtxoHash;

impl Hash {
    /// The hash of a byte string: its SHA-256 digest read as a big-endian number.
    pub open spec fn of_bytes(data: Seq<u8>) -> Hash {
        Hash(U256::from_value(hex_value(sha256_hex_digest(data))))
    }

    /// The 32 big-endian bytes of the hash.
    pub open spec fn bytes(self) -> Seq<u8> {
        self.0.be_bytes()
    }

    /// Hashes a byte string.
    pub fn hash(data: &[u8]) -> (r: Hash)
        ensures
            r == Hash::of_bytes(data@),
    {
        let digest = sha256_hex(data);
        let v = U256::from_hex64(digest.as_slice());
        proof {
            lemma_from_value_of_value(v);
        }
        Hash(v)
    }

    /// The all-zero hash.
    pub fn zero() -> (r: Hash)
        ensures
            r.0.value() == 0,
    {
        Hash(U256::zero())
    }

    /// Whether the hash, read as a number, is at most `target`.
    pub fn matches_target(&self, target: U256) -> (b: bool)
        ensures
            b == (self.0.value() <= target.value()),
    {
        self.0.le(&target)
    }

    /// The 32 big-endian bytes of the hash.
    pub fn as_bytes(&self) -> (r: [u8; 32])
        ensures
            r@ == self.bytes(),
    {
        self.0.to_be_bytes()
    }

    /// The hash as it is printed: 64 lowercase hexadecimal digits, most significant first.
    /// The leading zeros are kept, so a mined hash shows the zero digits it starts with.
    pub fn to_hex(&self) -> (r: Vec<u8>)
        ensures
            r@.len() == 64,
            forall|i: int| 0 <= i < 64 ==> is_lower_hex_digit(#[trigger] r@[i]),
            hex_value(r@) == self.0.value(),
    {
        self.0.to_hex64()
    }

    /// Equality of two hashes.
    pub fn same(&self, other: &Hash) -> (b: bool)
        ensures
            b == (*self == *other),
    {
        proof {
            lemma_value_injective(self.0, other.0);
        }
        self.0.same(&other.0)
    }
}

impl View for Txid {
    type V = Txid;

    open spec fn view(&self) -> Txid {
        *self
    }
}

impl Txid {
    pub fn same(&self, other: &Txid) -> (b: bool)
        ensures
            b == (*self == *other),
    {
        self.0.same(&other.0)
    }
}

impl BlockHash {
    /// The all-zero block hash, referenced by the first block of a chain.
    pub fn zero() -> (r: BlockHash)
        ensures
            r.0.0.value() == 0,
    {
        BlockHash(Hash::zero())
    }

    pub fn same(&self, other: &BlockHash) -> (b: bool)
        ensures
            b == (*self == *other),
    {
        self.0.same(&other.0)
    }
}

} // verus!
