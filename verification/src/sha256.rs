//! SHA-256 digests and the `Hash` type built from them.
use crate::u256::U256;
use sha2::Digest;
use vstd::prelude::*;

verus! {

/// The SHA-256 digest of a byte string, as computed by the `sha2` crate.
pub uninterp spec fn sha256_digest(data: Seq<u8>) -> Seq<u8>;

/// Calls `sha2::Sha256::digest`. Its contract claims only that the 32 bytes returned are
/// the SHA-256 digest of `data`, which `sha256_digest` names.
#[verifier::external_body]
fn sha256(data: &[u8]) -> (r: [u8; 32])
    ensures
        r@ == sha256_digest(data@),
{
    sha2::Sha256::digest(data).into()
}

/// The 32 zero bytes.
pub open spec fn zero_bytes() -> Seq<u8> {
    Seq::new(32, |i: int| 0u8)
}

/// A 256-bit hash, read as a number most significant byte first.
#[derive(Clone, Copy, Debug)]
pub struct Hash(pub U256);

impl View for Hash {
    type V = Seq<u8>;

    open spec fn view(&self) -> Seq<u8> {
        self.0@
    }
}

impl Hash {
    /// The SHA-256 digest of `data`.
    pub fn digest(data: &[u8]) -> (r: Hash)
        ensures
            r@ == sha256_digest(data@),
    {
        Hash(U256::from_be_bytes(sha256(data)))
    }

    /// The hash made of zero bytes.
    pub fn zero() -> (r: Hash)
        ensures
            r@ == zero_bytes(),
            r.0.value() == 0,
    {
        let z = U256::zero();
        assert(z@ =~= zero_bytes());
        Hash(z)
    }

    /// Whether the hash, read as a number, is at most `target`.
    pub fn matches_target(&self, target: U256) -> (r: bool)
        ensures
            r == (self.0.value() <= target.value()),
    {
        self.0.le(&target)
    }

    /// Whether two hashes are the same.
    pub fn equals(&self, other: &Hash) -> (r: bool)
        ensures
            r == (self@ == other@),
    {
        self.0.equals(&other.0)
    }

    /// The bytes of the hash.
    pub fn as_bytes(&self) -> (r: &[u8; 32])
        ensures
            r@ == self@,
    {
        &self.0.bytes
    }
}

} // verus!
