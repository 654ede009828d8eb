//! A small bitcoin-like blockchain: transactions, blocks, the UTXO set and the mempool.
pub mod crypto;
pub mod error;
pub mod network;
pub mod node;
pub mod sha256;
pub mod time;
pub mod types;
pub mod u256;
pub mod util;
pub mod utxo;

use crate::u256::{be_nat, U256};
use vstd::prelude::*;

verus! {

/// How many blocks pass between two adjustments of the target.
pub const DIFFICULTY_UPDATE_INTERVAL: u64 = 50;

/// The time, in seconds, one block should take.
pub const IDEAL_BLOCK_TIME: u64 = 10;

/// How long, in seconds, a transaction may wait in the mempool.
pub const MAXIMUM_MEMPOOL_TRANSACTION_AGE: u64 = 600;

/// How many mempool transactions a block template takes.
pub const BLOCK_TRANSACTION_CAP: usize = 20;

/// The bytes of the easiest target: two zero bytes, then thirty `0xff` bytes.
pub open spec fn min_target_bytes() -> Seq<u8> {
    Seq::new(32, |i: int| if i < 2 { 0u8 } else { 0xffu8 })
}

/// The easiest target, as a number.
pub open spec fn min_target_value() -> nat {
    be_nat(min_target_bytes())
}

/// The easiest target.
pub fn min_target() -> (r: U256)
    ensures
        r@ == min_target_bytes(),
        r.value() == min_target_value(),
{
    let mut b = [0xffu8; 32];
    b[0] = 0;
    b[1] = 0;
    let r = U256::from_be_bytes(b);
    assert(r@ =~= min_target_bytes());
    r
}

} // verus!
