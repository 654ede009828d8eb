//! Public keys and signatures over secp256k1, held as their encoded bytes.

use ecdsa::signature::Verifier;
use vstd::prelude::*;

verus! {

/// Whether `signature` (64 bytes, `r` then `s`) is a valid ECDSA signature over secp256k1
/// of `message` under the SEC1-encoded `public_key`, as the `k256` and `ecdsa` crates
/// decide it. Malformed keys or signatures verify nothing.
pub uninterp spec fn ecdsa_verifies(public_key: Seq<u8>, message: Seq<u8>, signature: Seq<u8>) -> bool;

/// Calls `k256::ecdsa::VerifyingKey::from_sec1_bytes`, `k256::ecdsa::Signature::from_slice`
/// and `Verifier::verify`. The contract claims only that the answer is the one
/// `ecdsa_verifies` names for these bytes.
#[verifier::external_body]
fn verify_secp256k1(public_key: &[u8], message: &[u8], signature: &[u8]) -> (r: bool)
    ensures
        r == ecdsa_verifies(public_key@, message@, signature@),
{
    match (
        k256::ecdsa::VerifyingKey::from_sec1_bytes(public_key),
        k256::ecdsa::Signature::from_slice(signature),
    ) {
        (Ok(key), Ok(sig)) => key.verify(message, &sig).is_ok(),
        _ => false,
    }
}

/// A SEC1-encoded secp256k1 public key.
#[derive(Debug)]
pub struct PublicKey {
    pub bytes: Vec<u8>,
}

/// A 64-byte ECDSA signature.
#[derive(Debug)]
pub struct Signature {
    pub bytes: Vec<u8>,
}

impl View for PublicKey {
    type V = Seq<u8>;

    open spec fn view(&self) -> Seq<u8> {
        self.bytes@
    }
}

impl View for Signature {
    type V = Seq<u8>;

    open spec fn view(&self) -> Seq<u8> {
        self.bytes@
    }
}

/// A copy of a byte vector.
pub fn copy_bytes(v: &Vec<u8>) -> (r: Vec<u8>)
    ensures
        r@ == v@,
{
    let mut r: Vec<u8> = Vec::new();
    let mut i: usize = 0;
    while i < v.len()
        invariant
            i <= v@.len(),
            r@ == v@.take(i as int),
        decreases v@.len() - i,
    {
        r.push(v[i]);
        i += 1;
        assert(r@ =~= v@.take(i as int));
    }
    assert(v@.take(v@.len() as int) =~= v@);
    r
}

impl PublicKey {
    /// A copy of the key.
    pub fn duplicate(&self) -> (r: PublicKey)
        ensures
            r@ == self@,
    {
        PublicKey { bytes: copy_bytes(&self.bytes) }
    }

    /// Whether two keys have the same encoding.
    pub fn equals(&self, other: &PublicKey) -> (r: bool)
        ensures
            r == (self@ == other@),
    {
        if self.bytes.len() != other.bytes.len() {
            return false;
        }
        let mut i: usize = 0;
        while i < self.bytes.len()
            invariant
                self.bytes@.len() == other.bytes@.len(),
                i <= self.bytes@.len(),
                forall|j: int| 0 <= j < i ==> self.bytes@[j] == other.bytes@[j],
            decreases self.bytes@.len() - i,
        {
            if self.bytes[i] != other.bytes[i] {
                return false;
            }
            i += 1;
        }
        assert(self.bytes@ =~= other.bytes@);
        true
    }
}

impl Signature {
    /// A copy of the signature.
    pub fn duplicate(&self) -> (r: Signature)
        ensures
            r@ == self@,
    {
        Signature { bytes: copy_bytes(&self.bytes) }
    }

    /// Whether this signs the bytes of `output_hash` under `pubkey`.
    pub fn verify(&self, output_hash: &crate::sha256::Hash, pubkey: &PublicKey) -> (r: bool)
        ensures
            r == ecdsa_verifies(pubkey@, output_hash@, self@),
    {
        let msg = output_hash.as_bytes();
        verify_secp256k1(pubkey.bytes.as_slice(), msg.as_slice(), self.bytes.as_slice())
    }
}

} // verus!
