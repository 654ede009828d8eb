//! Decisions a node takes while talking to its peers.
use crate::network::Message;
use crate::time::Timestamp;
use crate::types::blockchain::{
    block_outcome, block_overflows, block_tx_hashes, mempool_add, mempool_add_overflows,
    fees_computable, fees_total, outputs_for_key, pool_without, target_after_adjust,
    template_picks, template_transactions, tip, Blockchain, ChainView,
};
use crate::types::{blocks_view, rebuild_blocks, BlockView, TransactionOutput};
use crate::util::merkle_root;
use vstd::prelude::*;

verus! {

/// The peer with the longest chain among those asked so far.
#[derive(Debug)]
pub struct LongestChain {
    pub name: String,
    pub count: i32,
}

impl LongestChain {
    /// No peer asked yet: an empty name and a count of zero.
    pub fn new() -> (r: LongestChain)
        ensures
            r.name@ == Seq::<char>::empty(),
            r.count == 0,
    {
        LongestChain { name: String::new(), count: 0 }
    }

    /// Takes the answer of peer `node`, holding `count` blocks more than we do: it becomes
    /// the longest when it beats the longest so far.
    pub fn observe(&mut self, node: String, count: i32)
        ensures
            count > old(self).count ==> final(self).name@ == node@ && final(self).count == count,
            count <= old(self).count ==> final(self).name@ == old(self).name@
                && final(self).count == old(self).count,
    {
        if count > self.count {
            self.count = count;
            self.name = node;
        }
    }

    /// The longest chain's peer and count.
    pub fn result(&self) -> (r: (String, u32))
        ensures
            r.0@ == self.name@,
            r.1 == self.count as u32,
    {
        (self.name.clone(), #[verifier::truncate] (self.count as u32))
    }
}

/// What a node does after handling one message from a peer.
#[derive(Debug)]
pub enum Action {
    /// Send this answer to the peer, then wait for its next message.
    Reply(Message),
    /// Send this message to every known node, then wait for the peer's next message.
    Broadcast(Message),
    /// Wait for the peer's next message.
    Continue,
    /// End the connection.
    Close,
}

/// The chain after `b` was accepted: `b` appended, its transactions out of the mempool and
/// the target adjusted.
pub open spec fn with_block(c: ChainView, b: BlockView) -> ChainView {
    ChainView {
        utxos: c.utxos,
        target: target_after_adjust(c.blocks.push(b), c.target),
        blocks: c.blocks.push(b),
        mempool: pool_without(c.mempool, block_tx_hashes(b)),
    }
}

/// `with_block`, then the unspent outputs rebuilt from every block.
pub open spec fn with_block_rebuilt(c: ChainView, b: BlockView) -> ChainView {
    ChainView {
        utxos: rebuild_blocks(c.utxos, c.blocks.push(b)),
        target: target_after_adjust(c.blocks.push(b), c.target),
        blocks: c.blocks.push(b),
        mempool: pool_without(c.mempool, block_tx_hashes(b)),
    }
}

/// The chain after offering `t` to the mempool at time `now`.
pub open spec fn with_transaction(c: ChainView, t: crate::types::TransactionView, now: Timestamp) -> ChainView {
    ChainView {
        utxos: mempool_add(c.utxos, c.mempool, t, now).1,
        target: c.target,
        blocks: c.blocks,
        mempool: mempool_add(c.utxos, c.mempool, t, now).2,
    }
}

/// The messages that can be handled in `u64` and `i32`: a block or transaction whose
/// checks stay in range, a height whose difference to ours fits in `i32`, and a template
/// request whose coinbase, `reward` plus the miner fee, fits in `u64`.
pub open spec fn message_fits(c: ChainView, message: Message, reward: u64) -> bool {
    match message {
        Message::NewBlock(b) => !block_overflows(c, b@),
        Message::SubmitTemplate(b) => !block_overflows(c, b@),
        Message::NewTrasaction(t) => !mempool_add_overflows(c.utxos, c.mempool, t@),
        Message::SubmitTransaction(t) => !mempool_add_overflows(c.utxos, c.mempool, t@),
        Message::AskDifference(h) => i32::MIN <= (c.blocks.len() as u64 as i32) - (h as i32)
            <= i32::MAX,
        Message::FetchTemplate(_) => fees_computable(c.utxos, template_picks(c.mempool))
            ==> reward + fees_total(c.utxos, template_picks(c.mempool)) <= u64::MAX,
        _ => true,
    }
}

/// Whether `message` is one that `handle_message` cannot carry out in range.
pub fn message_overflows(chain: &Blockchain, message: &Message, reward: u64) -> (r: bool)
    requires
        chain.wf(),
    ensures
        r == !message_fits(chain@, *message, reward),
{
    match message {
        Message::NewBlock(b) => chain.block_overflows_at(b),
        Message::SubmitTemplate(b) => chain.block_overflows_at(b),
        Message::NewTrasaction(t) => chain.mempool_add_overflows_at(t),
        Message::SubmitTransaction(t) => chain.mempool_add_overflows_at(t),
        Message::AskDifference(h) => {
            let ours: i32 = #[verifier::truncate] (chain.block_height() as i32);
            let theirs: i32 = #[verifier::truncate] (*h as i32);
            let d: i64 = ours as i64 - theirs as i64;
            d < i32::MIN as i64 || d > i32::MAX as i64
        },
        Message::FetchTemplate(_) => match chain.template_fee() {
            Some(f) => reward.checked_add(f).is_none(),
            None => false,
        },
        _ => false,
    }
}

/// Handles one message from a peer and says what to do next.
///
/// Answers meant for miners and wallets end the connection. A block is sent when asked for
/// by a height the chain holds, and the connection ends otherwise. The known nodes, our
/// height difference, the unspent outputs of a key, whether a template is current, and a
/// new template (stamped `now`, its coinbase carrying `unique_id`) are sent back. A block
/// or transaction from another node is added, and a refused one ends the connection. A
/// block or transaction submitted by a miner or wallet is added, the unspent outputs
/// rebuilt after a block, and then broadcast; a refused one ends the connection.
pub fn handle_message(
    chain: &mut Blockchain,
    message: Message,
    nodes: Vec<String>,
    now: Timestamp,
    unique_id: u128,
    reward: u64,
) -> (r: Action)
    requires
        old(chain).wf(),
        message_fits(old(chain)@, message, reward),
    ensures
        final(chain).wf(),
        match message {
            Message::UTXOs(_) | Message::Template(_) | Message::Difference(_)
            | Message::TemplateValidity(_) | Message::NodesList(_) => {
                r is Close && final(chain)@ == old(chain)@
            },
            Message::FetchBlock(h) => {
                &&& final(chain)@ == old(chain)@
                &&& h < old(chain)@.blocks.len() ==> (r matches Action::Reply(Message::NewBlock(b))
                    && b@ == old(chain)@.blocks[h as int])
                &&& h >= old(chain)@.blocks.len() ==> r is Close
            },
            Message::DiscoverNodes => {
                r == Action::Reply(Message::NodesList(nodes)) && final(chain)@ == old(chain)@
            },
            Message::AskDifference(h) => {
                &&& final(chain)@ == old(chain)@
                &&& r matches Action::Reply(Message::Difference(d)) && d == (old(
                    chain,
                )@.blocks.len() as u64 as i32) - (h as i32)
            },
            Message::FetchUTXOs(key) => {
                &&& final(chain)@ == old(chain)@
                &&& r matches Action::Reply(Message::UTXOs(v)) && v@.map_values(
                    |e: (TransactionOutput, bool)| (e.0@, e.1),
                ) == outputs_for_key(old(chain).utxo_entries(), key@)
            },
            Message::NewBlock(b) => match block_outcome(old(chain)@, b@) {
                Some(_) => r is Close && final(chain)@ == old(chain)@,
                None => r is Continue && final(chain)@ == with_block(old(chain)@, b@),
            },
            Message::NewTrasaction(t) => {
                &&& final(chain)@ == with_transaction(old(chain)@, t@, now)
                &&& mempool_add(old(chain)@.utxos, old(chain)@.mempool, t@, now).0 is Ok
                    ==> r is Continue
                &&& mempool_add(old(chain)@.utxos, old(chain)@.mempool, t@, now).0 is Err
                    ==> r is Close
            },
            Message::ValidateTemplate(t) => {
                &&& final(chain)@ == old(chain)@
                &&& r == Action::Reply(
                    Message::TemplateValidity(t@.header.previous_hash == tip(old(chain)@.blocks)),
                )
            },
            Message::SubmitTemplate(b) => match block_outcome(old(chain)@, b@) {
                Some(_) => r is Close && final(chain)@ == old(chain)@,
                None => {
                    &&& final(chain)@ == with_block_rebuilt(old(chain)@, b@)
                    &&& r matches Action::Broadcast(Message::NewBlock(b2)) && b2@ == b@
                },
            },
            Message::SubmitTransaction(t) => {
                &&& final(chain)@ == with_transaction(old(chain)@, t@, now)
                &&& mempool_add(old(chain)@.utxos, old(chain)@.mempool, t@, now).0 is Ok
                    ==> (r matches Action::Broadcast(Message::NewTrasaction(t2)) && t2@ == t@)
                &&& mempool_add(old(chain)@.utxos, old(chain)@.mempool, t@, now).0 is Err
                    ==> r is Close
            },
            Message::FetchTemplate(key) => {
                &&& final(chain)@ == old(chain)@
                &&& !fees_computable(old(chain)@.utxos, template_picks(old(chain)@.mempool))
                    ==> r is Close
                &&& fees_computable(old(chain)@.utxos, template_picks(old(chain)@.mempool))
                    ==> (r matches Action::Reply(Message::Template(blk)) && {
                    &&& blk@.transactions == template_transactions(
                        old(chain)@.mempool,
                        key@,
                        unique_id,
                        (reward + fees_total(
                            old(chain)@.utxos,
                            template_picks(old(chain)@.mempool),
                        )) as u64,
                    )
                    &&& blk@.header.timestamp == now
                    &&& blk@.header.nonce == 0
                    &&& blk@.header.previous_hash == tip(old(chain)@.blocks)
                    &&& blk@.header.merkle_root == merkle_root(blk@.transactions)
                    &&& blk.header.target.value() == old(chain)@.target
                })
            },
        },
{
    match message {
        Message::UTXOs(_) | Message::Template(_) | Message::Difference(_)
        | Message::TemplateValidity(_) | Message::NodesList(_) => Action::Close,
        Message::FetchBlock(h) => {
            let blocks = chain.blocks();
            if h < blocks.len() {
                assert(blocks_view(blocks@)[h as int] == blocks@[h as int]@);
                Action::Reply(Message::NewBlock(blocks[h].duplicate()))
            } else {
                Action::Close
            }
        },
        Message::DiscoverNodes => Action::Reply(Message::NodesList(nodes)),
        Message::AskDifference(h) => Action::Reply(Message::Difference(chain.height_difference(h))),
        Message::FetchUTXOs(key) => Action::Reply(Message::UTXOs(chain.utxos_for_key(&key))),
        Message::NewBlock(b) => {
            match chain.add_block(b) {
                Ok(()) => Action::Continue,
                Err(_) => Action::Close,
            }
        },
        Message::NewTrasaction(t) => {
            match chain.add_to_mempool_at(t, now) {
                Ok(()) => Action::Continue,
                Err(_) => Action::Close,
            }
        },
        Message::ValidateTemplate(t) => Action::Reply(
            Message::TemplateValidity(chain.template_is_current(&t)),
        ),
        Message::SubmitTemplate(b) => {
            let copy = b.duplicate();
            match chain.add_block(b) {
                Ok(()) => {
                    chain.rebuild_utoxs();
                    Action::Broadcast(Message::NewBlock(copy))
                },
                Err(_) => Action::Close,
            }
        },
        Message::SubmitTransaction(t) => {
            let copy = t.duplicate();
            match chain.add_to_mempool_at(t, now) {
                Ok(()) => Action::Broadcast(Message::NewTrasaction(copy)),
                Err(_) => Action::Close,
            }
        },
        Message::FetchTemplate(key) => match chain.block_template(&key, now, unique_id, reward) {
            Some(b) => Action::Reply(Message::Template(b)),
            None => Action::Close,
        },
    }
}

} // verus!
