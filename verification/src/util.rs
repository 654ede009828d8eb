//! The Merkle root of a block's transactions.
use crate::types::{push_slice, transaction_hash, Transaction, TransactionView};
use vstd::prelude::*;

verus! {

/// The hash of two hashes side by side.
pub open spec fn pair_hash(left: Seq<u8>, right: Seq<u8>) -> Seq<u8> {
    crate::sha256::sha256_digest(left + right)
}

/// One level up the tree: neighbours are hashed in pairs, and a last hash without a
/// neighbour is paired with itself.
pub open spec fn next_layer(layer: Seq<Seq<u8>>) -> Seq<Seq<u8>> {
    Seq::new(
        ((layer.len() + 1) / 2) as nat,
        |i: int|
            pair_hash(
                layer[2 * i],
                if 2 * i + 1 < layer.len() {
                    layer[2 * i + 1]
                } else {
                    layer[2 * i]
                },
            ),
    )
}

/// The root of the tree whose leaves are `layer` (the zero hash when there are none).
pub open spec fn merkle_root_of_layer(layer: Seq<Seq<u8>>) -> Seq<u8>
    decreases layer.len(),
{
    if layer.len() == 0 {
        crate::sha256::zero_bytes()
    } else if layer.len() == 1 {
        layer[0]
    } else {
        merkle_root_of_layer(next_layer(layer))
    }
}

/// The Merkle root of a list of transactions: the root of the tree over their hashes.
pub open spec fn merkle_root(txs: Seq<TransactionView>) -> Seq<u8> {
    merkle_root_of_layer(txs.map_values(|t: TransactionView| transaction_hash(t)))
}

pub open spec fn hash_views(s: Seq<crate::sha256::Hash>) -> Seq<Seq<u8>> {
    s.map_values(|h: crate::sha256::Hash| h@)
}

/// The root of the Merkle tree over a block's transactions.
#[derive(Clone, Copy, Debug)]
pub struct MerkleRoot(pub crate::sha256::Hash);

impl View for MerkleRoot {
    type V = Seq<u8>;

    open spec fn view(&self) -> Seq<u8> {
        self.0@
    }
}

fn hash_pair(left: &crate::sha256::Hash, right: &crate::sha256::Hash) -> (r: crate::sha256::Hash)
    ensures
        r@ == pair_hash(left@, right@),
{
    let mut out: Vec<u8> = Vec::new();
    push_slice(&mut out, left.as_bytes().as_slice());
    push_slice(&mut out, right.as_bytes().as_slice());
    assert(out@ =~= left@ + right@);
    crate::sha256::Hash::digest(out.as_slice())
}

impl MerkleRoot {
    /// Whether two roots are the same.
    pub fn equals(&self, other: &MerkleRoot) -> (r: bool)
        ensures
            r == (self@ == other@),
    {
        self.0.equals(&other.0)
    }

    /// The Merkle root of `transactions`.
    pub fn calculate(transactions: &Vec<Transaction>) -> (r: MerkleRoot)
        ensures
            r@ == merkle_root(transactions@.map_values(|t: Transaction| t@)),
    {
        let ghost txs = transactions@.map_values(|t: Transaction| t@);
        let ghost leaves = txs.map_values(|t: TransactionView| transaction_hash(t));
        let mut layer: Vec<crate::sha256::Hash> = Vec::new();
        let mut i: usize = 0;
        while i < transactions.len()
            invariant
                i <= transactions@.len(),
                txs == transactions@.map_values(|t: Transaction| t@),
                leaves == txs.map_values(|t: TransactionView| transaction_hash(t)),
                hash_views(layer@) == leaves.take(i as int),
                layer@.len() == i,
                leaves.len() == transactions@.len(),
            decreases transactions@.len() - i,
        {
            let h = transactions[i].hash();
            assert(leaves[i as int] == transaction_hash(transactions@[i as int]@));
            let ghost old_layer = layer@;
            layer.push(h);
            i += 1;
            assert(hash_views(layer@) =~= leaves.take(i as int));
        }
        assert(leaves.take(leaves.len() as int) =~= leaves);
        if layer.len() == 0 {
            return MerkleRoot(crate::sha256::Hash::zero());
        }
        while layer.len() > 1
            invariant
                layer@.len() >= 1,
                merkle_root_of_layer(hash_views(layer@)) == merkle_root_of_layer(leaves),
            decreases layer@.len(),
        {
            let ghost cur = hash_views(layer@);
            let mut next: Vec<crate::sha256::Hash> = Vec::new();
            let n = layer.len();
            let pairs = n / 2 + n % 2;
            let mut p: usize = 0;
            while p < pairs
                invariant
                    cur == hash_views(layer@),
                    n == layer@.len(),
                    n > 1,
                    pairs == n / 2 + n % 2,
                    pairs == next_layer(cur).len(),
                    p <= pairs,
                    next@.len() == p,
                    hash_views(next@) == next_layer(cur).take(p as int),
                decreases pairs - p,
            {
                let k = 2 * p;
                let left = layer[k];
                let right = if k + 1 < n {
                    layer[k + 1]
                } else {
                    layer[k]
                };
                let h = hash_pair(&left, &right);
                next.push(h);
                p += 1;
                assert(hash_views(next@) =~= next_layer(cur).take(p as int));
            }
            assert(next_layer(cur).take(next@.len() as int) =~= next_layer(cur));
            layer = next;
        }
        MerkleRoot(layer[0])
    }
}


/// The Merkle root of a single transaction is that transaction's hash.
pub proof fn lemma_merkle_root_single(t: TransactionView)
    ensures
        merkle_root(seq![t]) == transaction_hash(t),
{
    let leaves = seq![t].map_values(|x: TransactionView| transaction_hash(x));
    assert(leaves.len() == 1);
    assert(leaves[0] == transaction_hash(t));
}

} // verus!
