//! Transactions and blocks, the byte encoding their hashes are taken over, and the
//! checks a block's transactions must pass.
use crate::crypto::{ecdsa_verifies, PublicKey, Signature};
use crate::error::BtcError;
use crate::time::is_before;
use crate::u256::be_nat;
use crate::util::merkle_root;
use crate::utxo::UtxoSet;
use crate::time::Timestamp;
use crate::u256::U256;
use crate::util::MerkleRoot;
use vstd::prelude::*;

pub mod blockchain;

verus! {

/// The 8 bytes of `x`, most significant first.
pub open spec fn enc_u64(x: u64) -> Seq<u8> {
    seq![
        (x >> 56u64) as u8,
        (x >> 48u64) as u8,
        (x >> 40u64) as u8,
        (x >> 32u64) as u8,
        (x >> 24u64) as u8,
        (x >> 16u64) as u8,
        (x >> 8u64) as u8,
        x as u8,
    ]
}

/// The 4 bytes of `x`, most significant first.
pub open spec fn enc_u32(x: u32) -> Seq<u8> {
    seq![(x >> 24u32) as u8, (x >> 16u32) as u8, (x >> 8u32) as u8, x as u8]
}

/// The 16 bytes of `x`, most significant first.
pub open spec fn enc_u128(x: u128) -> Seq<u8> {
    enc_u64((x >> 64u128) as u64) + enc_u64(x as u64)
}

/// A byte string preceded by its length.
pub open spec fn enc_bytes(b: Seq<u8>) -> Seq<u8> {
    enc_u64(b.len() as u64) + b
}

/// What the library reads of a transaction input.
pub struct InputView {
    pub prev: Seq<u8>,
    pub signature: Seq<u8>,
}

/// What the library reads of a transaction output.
pub struct OutputView {
    pub value: u64,
    pub unique_id: u128,
    pub pubkey: Seq<u8>,
}

/// What the library reads of a transaction.
pub struct TransactionView {
    pub inputs: Seq<InputView>,
    pub outputs: Seq<OutputView>,
}

/// What the library reads of a block header.
pub struct HeaderView {
    pub timestamp: Timestamp,
    pub nonce: u64,
    pub previous_hash: Seq<u8>,
    pub merkle_root: Seq<u8>,
    pub target: Seq<u8>,
}

/// What the library reads of a block.
pub struct BlockView {
    pub header: HeaderView,
    pub transactions: Seq<TransactionView>,
}

pub open spec fn enc_timestamp(t: Timestamp) -> Seq<u8> {
    enc_u64(t.secs as u64) + enc_u32(t.nanos)
}

pub open spec fn enc_output(o: OutputView) -> Seq<u8> {
    enc_u64(o.value) + enc_u128(o.unique_id) + enc_bytes(o.pubkey)
}

pub open spec fn enc_input(i: InputView) -> Seq<u8> {
    i.prev + enc_bytes(i.signature)
}

pub open spec fn enc_inputs(s: Seq<InputView>) -> Seq<u8>
    decreases s.len(),
{
    if s.len() == 0 {
        Seq::empty()
    } else {
        enc_inputs(s.drop_last()) + enc_input(s.last())
    }
}

pub open spec fn enc_outputs(s: Seq<OutputView>) -> Seq<u8>
    decreases s.len(),
{
    if s.len() == 0 {
        Seq::empty()
    } else {
        enc_outputs(s.drop_last()) + enc_output(s.last())
    }
}

pub open spec fn enc_transaction(t: TransactionView) -> Seq<u8> {
    enc_u64(t.inputs.len() as u64) + enc_inputs(t.inputs) + enc_u64(t.outputs.len() as u64)
        + enc_outputs(t.outputs)
}

pub open spec fn enc_transactions(s: Seq<TransactionView>) -> Seq<u8>
    decreases s.len(),
{
    if s.len() == 0 {
        Seq::empty()
    } else {
        enc_transactions(s.drop_last()) + enc_transaction(s.last())
    }
}

pub open spec fn enc_header(h: HeaderView) -> Seq<u8> {
    enc_timestamp(h.timestamp) + enc_u64(h.nonce) + h.previous_hash + h.merkle_root + h.target
}

pub open spec fn enc_block(b: BlockView) -> Seq<u8> {
    enc_header(b.header) + enc_u64(b.transactions.len() as u64) + enc_transactions(b.transactions)
}

/// The hash of a transaction output.
pub open spec fn output_hash(o: OutputView) -> Seq<u8> {
    crate::sha256::sha256_digest(enc_output(o))
}

/// The hash of a transaction.
pub open spec fn transaction_hash(t: TransactionView) -> Seq<u8> {
    crate::sha256::sha256_digest(enc_transaction(t))
}

/// The hash of a block header.
pub open spec fn header_hash(h: HeaderView) -> Seq<u8> {
    crate::sha256::sha256_digest(enc_header(h))
}

/// The bytes a header is hashed over carry its nonce at a fixed place: bytes 12 to 20,
/// right after the timestamp.
pub proof fn lemma_header_encoding_carries_nonce(h: HeaderView)
    ensures
        enc_header(h).len() >= 20,
        enc_header(h).subrange(12, 20) == enc_u64(h.nonce),
{
    assert(enc_timestamp(h.timestamp).len() == 12);
    assert(enc_header(h).subrange(12, 20) =~= enc_u64(h.nonce));
}

/// Headers with different nonces are hashed over different bytes, so a miner changing
/// the nonce changes what is hashed.
pub proof fn lemma_header_encoding_nonce_injective(h1: HeaderView, h2: HeaderView)
    requires
        h1.nonce != h2.nonce,
    ensures
        enc_header(h1) != enc_header(h2),
{
    lemma_header_encoding_carries_nonce(h1);
    lemma_header_encoding_carries_nonce(h2);
    crate::network::lemma_frame_header_roundtrip(h1.nonce);
    crate::network::lemma_frame_header_roundtrip(h2.nonce);
    if enc_header(h1) == enc_header(h2) {
        assert(enc_u64(h1.nonce) == enc_u64(h2.nonce));
    }
}

/// The hash of a whole block, header and transactions.
pub open spec fn block_hash(b: BlockView) -> Seq<u8> {
    crate::sha256::sha256_digest(enc_block(b))
}

/// The hashes of the outputs each input spends.
pub open spec fn input_prevs(t: TransactionView) -> Seq<Seq<u8>> {
    t.inputs.map_values(|i: InputView| i.prev)
}

fn push_u64(out: &mut Vec<u8>, x: u64)
    ensures
        final(out)@ == old(out)@ + enc_u64(x),
{
    out.push((x >> 56u64) as u8);
    out.push((x >> 48u64) as u8);
    out.push((x >> 40u64) as u8);
    out.push((x >> 32u64) as u8);
    out.push((x >> 24u64) as u8);
    out.push((x >> 16u64) as u8);
    out.push((x >> 8u64) as u8);
    out.push(x as u8);
    assert(out@ =~= old(out)@ + enc_u64(x));
}

fn push_u32(out: &mut Vec<u8>, x: u32)
    ensures
        final(out)@ == old(out)@ + enc_u32(x),
{
    out.push((x >> 24u32) as u8);
    out.push((x >> 16u32) as u8);
    out.push((x >> 8u32) as u8);
    out.push(x as u8);
    assert(out@ =~= old(out)@ + enc_u32(x));
}

fn push_u128(out: &mut Vec<u8>, x: u128)
    ensures
        final(out)@ == old(out)@ + enc_u128(x),
{
    push_u64(out, (x >> 64u128) as u64);
    push_u64(out, x as u64);
    assert(out@ =~= old(out)@ + enc_u128(x));
}

pub(crate) fn push_slice(out: &mut Vec<u8>, b: &[u8])
    ensures
        final(out)@ == old(out)@ + b@,
{
    let ghost start = out@;
    let mut i: usize = 0;
    while i < b.len()
        invariant
            i <= b@.len(),
            out@ == start + b@.take(i as int),
        decreases b@.len() - i,
    {
        out.push(b[i]);
        i += 1;
        assert(out@ =~= start + b@.take(i as int));
    }
    assert(b@.take(b@.len() as int) =~= b@);
}

fn push_bytes(out: &mut Vec<u8>, b: &[u8])
    ensures
        final(out)@ == old(out)@ + enc_bytes(b@),
{
    push_u64(out, b.len() as u64);
    push_slice(out, b);
    assert(out@ =~= old(out)@ + enc_bytes(b@));
}

/// An input: the output it spends, by hash, and the signature that unlocks it.
#[derive(Debug)]
pub struct TransactionInput {
    pub prev_transaction_output_hash: crate::sha256::Hash,
    pub signature: Signature,
}

/// An output: an amount, a unique identifier and the key that may spend it.
#[derive(Debug)]
pub struct TransactionOutput {
    pub value: u64,
    pub unique_id: u128,
    pub pubkey: PublicKey,
}

/// A transaction: the outputs it spends and the outputs it creates.
#[derive(Debug)]
pub struct Transaction {
    pub inputs: Vec<TransactionInput>,
    pub outputs: Vec<TransactionOutput>,
}

/// A block header.
#[derive(Clone, Copy, Debug)]
pub struct BlockHeader {
    pub timestamp: Timestamp,
    pub nonce: u64,
    pub previous_hash: crate::sha256::Hash,
    pub merkle_root: MerkleRoot,
    pub target: U256,
}

/// A block: its header and its transactions.
#[derive(Debug)]
pub struct Block {
    pub header: BlockHeader,
    pub transactions: Vec<Transaction>,
}

impl View for TransactionInput {
    type V = InputView;

    open spec fn view(&self) -> InputView {
        InputView { prev: self.prev_transaction_output_hash@, signature: self.signature@ }
    }
}

impl View for TransactionOutput {
    type V = OutputView;

    open spec fn view(&self) -> OutputView {
        OutputView { value: self.value, unique_id: self.unique_id, pubkey: self.pubkey@ }
    }
}

impl View for Transaction {
    type V = TransactionView;

    open spec fn view(&self) -> TransactionView {
        TransactionView {
            inputs: self.inputs@.map_values(|i: TransactionInput| i@),
            outputs: self.outputs@.map_values(|o: TransactionOutput| o@),
        }
    }
}

impl View for BlockHeader {
    type V = HeaderView;

    open spec fn view(&self) -> HeaderView {
        HeaderView {
            timestamp: self.timestamp,
            nonce: self.nonce,
            previous_hash: self.previous_hash@,
            merkle_root: self.merkle_root@,
            target: self.target@,
        }
    }
}

impl View for Block {
    type V = BlockView;

    open spec fn view(&self) -> BlockView {
        BlockView {
            header: self.header@,
            transactions: self.transactions@.map_values(|t: Transaction| t@),
        }
    }
}

impl TransactionInput {
    /// A copy of the input.
    pub fn duplicate(&self) -> (r: TransactionInput)
        ensures
            r@ == self@,
    {
        TransactionInput {
            prev_transaction_output_hash: self.prev_transaction_output_hash,
            signature: self.signature.duplicate(),
        }
    }

    fn encode_into(&self, out: &mut Vec<u8>)
        ensures
            final(out)@ == old(out)@ + enc_input(self@),
    {
        push_slice(out, self.prev_transaction_output_hash.as_bytes().as_slice());
        push_bytes(out, self.signature.bytes.as_slice());
        assert(out@ =~= old(out)@ + enc_input(self@));
    }
}

impl TransactionOutput {
    /// A copy of the output.
    pub fn duplicate(&self) -> (r: TransactionOutput)
        ensures
            r@ == self@,
    {
        TransactionOutput {
            value: self.value,
            unique_id: self.unique_id,
            pubkey: self.pubkey.duplicate(),
        }
    }

    fn encode_into(&self, out: &mut Vec<u8>)
        ensures
            final(out)@ == old(out)@ + enc_output(self@),
    {
        push_u64(out, self.value);
        push_u128(out, self.unique_id);
        push_bytes(out, self.pubkey.bytes.as_slice());
        assert(out@ =~= old(out)@ + enc_output(self@));
    }

    /// The hash of the output.
    pub fn hash(&self) -> (r: crate::sha256::Hash)
        ensures
            r@ == output_hash(self@),
    {
        let mut out: Vec<u8> = Vec::new();
        self.encode_into(&mut out);
        assert(out@ =~= enc_output(self@));
        crate::sha256::Hash::digest(out.as_slice())
    }
}

impl Transaction {
    /// A transaction made of these inputs and outputs.
    pub fn new(inputs: Vec<TransactionInput>, outputs: Vec<TransactionOutput>) -> (r: Transaction)
        ensures
            r.inputs@ == inputs@,
            r.outputs@ == outputs@,
    {
        Transaction { inputs, outputs }
    }

    /// A copy of the transaction.
    pub fn duplicate(&self) -> (r: Transaction)
        ensures
            r@ == self@,
    {
        let mut inputs: Vec<TransactionInput> = Vec::new();
        let mut i: usize = 0;
        while i < self.inputs.len()
            invariant
                i <= self.inputs@.len(),
                inputs@.len() == i,
                forall|j: int| 0 <= j < i ==> #[trigger] inputs@[j]@ == self.inputs@[j]@,
            decreases self.inputs@.len() - i,
        {
            inputs.push(self.inputs[i].duplicate());
            i += 1;
        }
        let mut outputs: Vec<TransactionOutput> = Vec::new();
        let mut k: usize = 0;
        while k < self.outputs.len()
            invariant
                k <= self.outputs@.len(),
                outputs@.len() == k,
                forall|j: int| 0 <= j < k ==> #[trigger] outputs@[j]@ == self.outputs@[j]@,
            decreases self.outputs@.len() - k,
        {
            outputs.push(self.outputs[k].duplicate());
            k += 1;
        }
        let r = Transaction { inputs, outputs };
        assert(r@.inputs =~= self@.inputs);
        assert(r@.outputs =~= self@.outputs);
        r
    }

    fn encode_into(&self, out: &mut Vec<u8>)
        ensures
            final(out)@ == old(out)@ + enc_transaction(self@),
    {
        let ghost start = out@;
        let ghost ins = self@.inputs;
        let ghost outs = self@.outputs;
        push_u64(out, self.inputs.len() as u64);
        let ghost mid = out@;
        let mut i: usize = 0;
        while i < self.inputs.len()
            invariant
                i <= self.inputs@.len(),
                ins == self@.inputs,
                out@ == mid + enc_inputs(ins.take(i as int)),
            decreases self.inputs@.len() - i,
        {
            self.inputs[i].encode_into(out);
            assert(ins.take(i + 1).drop_last() =~= ins.take(i as int));
            i += 1;
        }
        assert(ins.take(ins.len() as int) =~= ins);
        push_u64(out, self.outputs.len() as u64);
        let ghost mid2 = out@;
        let mut k: usize = 0;
        while k < self.outputs.len()
            invariant
                k <= self.outputs@.len(),
                outs == self@.outputs,
                out@ == mid2 + enc_outputs(outs.take(k as int)),
            decreases self.outputs@.len() - k,
        {
            self.outputs[k].encode_into(out);
            assert(outs.take(k + 1).drop_last() =~= outs.take(k as int));
            k += 1;
        }
        assert(outs.take(outs.len() as int) =~= outs);
        assert(out@ =~= start + enc_transaction(self@));
    }

    /// The hash of the transaction.
    pub fn hash(&self) -> (r: crate::sha256::Hash)
        ensures
            r@ == transaction_hash(self@),
    {
        let mut out: Vec<u8> = Vec::new();
        self.encode_into(&mut out);
        assert(out@ =~= enc_transaction(self@));
        crate::sha256::Hash::digest(out.as_slice())
    }
}

impl BlockHeader {
    /// A header made of these parts.
    pub fn new(
        timestamp: Timestamp,
        nonce: u64,
        previous_hash: crate::sha256::Hash,
        merkle_root: MerkleRoot,
        target: U256,
    ) -> (r: BlockHeader)
        ensures
            r.timestamp == timestamp,
            r.nonce == nonce,
            r.previous_hash == previous_hash,
            r.merkle_root == merkle_root,
            r.target == target,
    {
        BlockHeader { timestamp, nonce, previous_hash, merkle_root, target }
    }

    fn encode_into(&self, out: &mut Vec<u8>)
        ensures
            final(out)@ == old(out)@ + enc_header(self@),
    {
        push_u64(out, self.timestamp.secs as u64);
        push_u32(out, self.timestamp.nanos);
        push_u64(out, self.nonce);
        push_slice(out, self.previous_hash.as_bytes().as_slice());
        push_slice(out, self.merkle_root.0.as_bytes().as_slice());
        push_slice(out, self.target.bytes.as_slice());
        assert(out@ =~= old(out)@ + enc_header(self@));
    }

    /// The hash of the header.
    pub fn hash(&self) -> (r: crate::sha256::Hash)
        ensures
            r@ == header_hash(self@),
    {
        let mut out: Vec<u8> = Vec::new();
        self.encode_into(&mut out);
        assert(out@ =~= enc_header(self@));
        crate::sha256::Hash::digest(out.as_slice())
    }
}

impl Block {
    /// A block made of this header and these transactions.
    pub fn new(header: BlockHeader, transactions: Vec<Transaction>) -> (r: Block)
        ensures
            r.header == header,
            r.transactions@ == transactions@,
    {
        Block { header, transactions }
    }

    /// A copy of the block.
    pub fn duplicate(&self) -> (r: Block)
        ensures
            r@ == self@,
    {
        let mut txs: Vec<Transaction> = Vec::new();
        let mut i: usize = 0;
        while i < self.transactions.len()
            invariant
                i <= self.transactions@.len(),
                txs@.len() == i,
                forall|j: int| 0 <= j < i ==> #[trigger] txs@[j]@ == self.transactions@[j]@,
            decreases self.transactions@.len() - i,
        {
            txs.push(self.transactions[i].duplicate());
            i += 1;
        }
        let r = Block { header: self.header, transactions: txs };
        assert(r@.transactions =~= self@.transactions);
        r
    }

    /// The hash of the whole block, header and transactions.
    pub fn hash(&self) -> (r: crate::sha256::Hash)
        ensures
            r@ == block_hash(self@),
    {
        let mut out: Vec<u8> = Vec::new();
        self.header.encode_into(&mut out);
        push_u64(&mut out, self.transactions.len() as u64);
        let ghost mid = out@;
        let ghost txs = self@.transactions;
        let mut i: usize = 0;
        while i < self.transactions.len()
            invariant
                i <= self.transactions@.len(),
                txs == self@.transactions,
                out@ == mid + enc_transactions(txs.take(i as int)),
            decreases self.transactions@.len() - i,
        {
            self.transactions[i].encode_into(&mut out);
            assert(txs.take(i + 1).drop_last() =~= txs.take(i as int));
            i += 1;
        }
        assert(txs.take(txs.len() as int) =~= txs);
        assert(out@ =~= enc_block(self@));
        crate::sha256::Hash::digest(out.as_slice())
    }
}


/// How far the checks of a block's transactions got: they passed (with the outputs spent
/// so far and, within one transaction, the running sum), refused the block, or a sum
/// left the range of `u64`.
pub enum Check {
    Passed(Seq<Seq<u8>>, int),
    Refused(BtcError),
    Overflow,
}

/// The checks of a transaction's inputs, in order: each must spend a known output not
/// spent before in the block, carry a valid signature of that output's hash under the
/// output's key; their values are summed.
pub open spec fn check_inputs(
    inputs: Seq<InputView>,
    utxos: Map<Seq<u8>, (bool, OutputView)>,
    used: Seq<Seq<u8>>,
) -> Check
    decreases inputs.len(),
{
    if inputs.len() == 0 {
        Check::Passed(used, 0)
    } else {
        match check_inputs(inputs.drop_last(), utxos, used) {
            Check::Passed(u, sum) => {
                let i = inputs.last();
                let p = i.prev;
                if !utxos.contains_key(p) {
                    Check::Refused(BtcError::InvalidTransection)
                } else if u.contains(p) {
                    Check::Refused(BtcError::InvalidTransection)
                } else if !ecdsa_verifies(utxos[p].1.pubkey, p, i.signature) {
                    Check::Refused(BtcError::InvalidSignature)
                } else if sum + utxos[p].1.value > u64::MAX {
                    Check::Overflow
                } else {
                    Check::Passed(u.push(p), sum + utxos[p].1.value)
                }
            },
            other => other,
        }
    }
}

/// The checks of a transaction's outputs, in order: their running sum may never exceed
/// what the inputs bring in.
pub open spec fn check_outputs(outputs: Seq<OutputView>, input_sum: int) -> Check
    decreases outputs.len(),
{
    if outputs.len() == 0 {
        Check::Passed(Seq::empty(), 0)
    } else {
        match check_outputs(outputs.drop_last(), input_sum) {
            Check::Passed(u, sum) => {
                let total = sum + outputs.last().value;
                if total > u64::MAX {
                    Check::Overflow
                } else if input_sum < total {
                    Check::Refused(BtcError::InvalidTransection)
                } else {
                    Check::Passed(u, total)
                }
            },
            other => other,
        }
    }
}

/// The checks of one transaction, given the outputs spent earlier in the block.
pub open spec fn check_transaction(
    t: TransactionView,
    utxos: Map<Seq<u8>, (bool, OutputView)>,
    used: Seq<Seq<u8>>,
) -> Check {
    match check_inputs(t.inputs, utxos, used) {
        Check::Passed(u, sum) => match check_outputs(t.outputs, sum) {
            Check::Passed(_, _) => Check::Passed(u, 0),
            other => other,
        },
        other => other,
    }
}

/// The checks of a list of transactions, in order.
pub open spec fn check_transactions(
    txs: Seq<TransactionView>,
    utxos: Map<Seq<u8>, (bool, OutputView)>,
) -> Check
    decreases txs.len(),
{
    if txs.len() == 0 {
        Check::Passed(Seq::empty(), 0)
    } else {
        match check_transactions(txs.drop_last(), utxos) {
            Check::Passed(u, _) => check_transaction(txs.last(), utxos, u),
            other => other,
        }
    }
}

/// The checks of a block's transactions: a block must hold at least one.
pub open spec fn verify_outcome(
    txs: Seq<TransactionView>,
    utxos: Map<Seq<u8>, (bool, OutputView)>,
) -> Check {
    if txs.len() == 0 {
        Check::Refused(BtcError::InvalidTransection)
    } else {
        check_transactions(txs, utxos)
    }
}

pub proof fn lemma_check_inputs_stops(
    inputs: Seq<InputView>,
    utxos: Map<Seq<u8>, (bool, OutputView)>,
    used: Seq<Seq<u8>>,
    k: int,
)
    requires
        0 <= k <= inputs.len(),
        !(check_inputs(inputs.take(k), utxos, used) is Passed),
    ensures
        check_inputs(inputs, utxos, used) == check_inputs(inputs.take(k), utxos, used),
    decreases inputs.len(),
{
    if k < inputs.len() {
        assert(inputs.drop_last().take(k) =~= inputs.take(k));
        lemma_check_inputs_stops(inputs.drop_last(), utxos, used, k);
    } else {
        assert(inputs.take(k) =~= inputs);
    }
}

pub proof fn lemma_check_outputs_stops(outputs: Seq<OutputView>, input_sum: int, k: int)
    requires
        0 <= k <= outputs.len(),
        !(check_outputs(outputs.take(k), input_sum) is Passed),
    ensures
        check_outputs(outputs, input_sum) == check_outputs(outputs.take(k), input_sum),
    decreases outputs.len(),
{
    if k < outputs.len() {
        assert(outputs.drop_last().take(k) =~= outputs.take(k));
        lemma_check_outputs_stops(outputs.drop_last(), input_sum, k);
    } else {
        assert(outputs.take(k) =~= outputs);
    }
}

pub proof fn lemma_check_transactions_stops(
    txs: Seq<TransactionView>,
    utxos: Map<Seq<u8>, (bool, OutputView)>,
    k: int,
)
    requires
        0 <= k <= txs.len(),
        !(check_transactions(txs.take(k), utxos) is Passed),
    ensures
        check_transactions(txs, utxos) == check_transactions(txs.take(k), utxos),
    decreases txs.len(),
{
    if k < txs.len() {
        assert(txs.drop_last().take(k) =~= txs.take(k));
        lemma_check_transactions_stops(txs.drop_last(), utxos, k);
    } else {
        assert(txs.take(k) =~= txs);
    }
}

/// The outputs a transaction's inputs spend, in order, as hashes.
pub open spec fn prevs_of(s: Seq<crate::sha256::Hash>) -> Seq<Seq<u8>> {
    s.map_values(|h: crate::sha256::Hash| h@)
}

pub proof fn lemma_prevs_of_push(s: Seq<crate::sha256::Hash>, h: crate::sha256::Hash)
    ensures
        prevs_of(s.push(h)) == prevs_of(s).push(h@),
{
    assert(prevs_of(s.push(h)) =~= prevs_of(s).push(h@));
}

pub(crate) fn contains_hash(v: &Vec<crate::sha256::Hash>, h: &crate::sha256::Hash) -> (r: bool)
    ensures
        r == prevs_of(v@).contains(h@),
{
    let mut i: usize = 0;
    while i < v.len()
        invariant
            i <= v@.len(),
            forall|j: int| 0 <= j < i ==> v@[j]@ != h@,
        decreases v@.len() - i,
    {
        if v[i].equals(h) {
            assert(prevs_of(v@)[i as int] == h@);
            return true;
        }
        i += 1;
    }
    assert forall|j: int| 0 <= j < prevs_of(v@).len() implies prevs_of(v@)[j] != h@ by {
        assert(prevs_of(v@)[j] == v@[j]@);
    }
    false
}

/// How the checks of a block's transactions ended.
#[derive(Clone, Copy, Debug, PartialEq, Eq, Structural)]
pub enum CheckResult {
    Passed,
    Refused(BtcError),
    Overflow,
}

impl Block {
    /// Runs the checks of `verify_outcome` on the block's transactions.
    pub fn check_transactions(&self, utxos: &UtxoSet) -> (r: CheckResult)
        requires
            utxos.wf(),
        ensures
            match verify_outcome(self@.transactions, utxos@) {
                Check::Passed(_, _) => r == CheckResult::Passed,
                Check::Refused(e) => r == CheckResult::Refused(e),
                Check::Overflow => r == CheckResult::Overflow,
            },
    {
        let ghost txs = self@.transactions;
        let ghost u = utxos@;
        if self.transactions.len() == 0 {
            return CheckResult::Refused(BtcError::InvalidTransection);
        }
        let mut used: Vec<crate::sha256::Hash> = Vec::new();
        let mut i: usize = 0;
        assert(check_transactions(txs.take(0), u) == Check::Passed(Seq::<Seq<u8>>::empty(), 0))
            by {
            assert(txs.take(0) =~= Seq::<TransactionView>::empty());
        }
        assert(prevs_of(used@) =~= Seq::<Seq<u8>>::empty());
        while i < self.transactions.len()
            invariant
                utxos.wf(),
                u == utxos@,
                txs == self@.transactions,
                i <= txs.len(),
                txs.len() > 0,
                check_transactions(txs.take(i as int), u) == Check::Passed(prevs_of(used@), 0),
            decreases txs.len() - i,
        {
            let tx = &self.transactions[i];
            let ghost t = tx@;
            assert(t == txs[i as int]);
            assert(txs.take(i + 1).drop_last() =~= txs.take(i as int));
            assert(txs.take(i + 1).last() == t);
            let ghost used0 = prevs_of(used@);
            let mut input_value: u64 = 0;
            let mut j: usize = 0;
            assert(t.inputs.take(0) =~= Seq::<InputView>::empty());
            while j < tx.inputs.len()
                invariant
                    utxos.wf(),
                    u == utxos@,
                    txs == self@.transactions,
                    i < txs.len(),
                    t == txs[i as int],
                    t == tx@,
                    j <= t.inputs.len(),
                        check_transactions(txs.take(i as int), u) == Check::Passed(used0, 0),
                    txs.take(i + 1).drop_last() == txs.take(i as int),
                    txs.take(i + 1).last() == t,
                    check_inputs(t.inputs.take(j as int), u, used0) == Check::Passed(
                        prevs_of(used@),
                        input_value as int,
                    ),
                decreases t.inputs.len() - j,
            {
                let input = &tx.inputs[j];
                assert(input@ == t.inputs[j as int]);
                assert(t.inputs.take(j + 1).drop_last() =~= t.inputs.take(j as int));
                assert(t.inputs.take(j + 1).last() == input@);
                let p = &input.prev_transaction_output_hash;
                match utxos.get(p) {
                    None => {
                        proof {
                            lemma_check_inputs_stops(t.inputs, u, used0, j + 1);
                            lemma_check_transactions_stops(txs, u, i + 1);
                        }
                        return CheckResult::Refused(BtcError::InvalidTransection);
                    },
                    Some((_, prev_output)) => {
                        if contains_hash(&used, p) {
                            proof {
                                lemma_check_inputs_stops(t.inputs, u, used0, j + 1);
                                lemma_check_transactions_stops(txs, u, i + 1);
                            }
                            return CheckResult::Refused(BtcError::InvalidTransection);
                        }
                        if !input.signature.verify(p, &prev_output.pubkey) {
                            proof {
                                lemma_check_inputs_stops(t.inputs, u, used0, j + 1);
                                lemma_check_transactions_stops(txs, u, i + 1);
                            }
                            return CheckResult::Refused(BtcError::InvalidSignature);
                        }
                        match input_value.checked_add(prev_output.value) {
                            None => {
                                proof {
                                    lemma_check_inputs_stops(t.inputs, u, used0, j + 1);
                                    lemma_check_transactions_stops(txs, u, i + 1);
                                }
                                return CheckResult::Overflow;
                            },
                            Some(v) => {
                                input_value = v;
                            },
                        }
                        let ghost before = prevs_of(used@);
                        used.push(*p);
                        assert(prevs_of(used@) =~= before.push(p@));
                    },
                }
                j += 1;
            }
            assert(t.inputs.take(t.inputs.len() as int) =~= t.inputs);
            let mut output_value: u64 = 0;
            let mut k: usize = 0;
            assert(t.outputs.take(0) =~= Seq::<OutputView>::empty());
            while k < tx.outputs.len()
                invariant
                    utxos.wf(),
                    u == utxos@,
                    txs == self@.transactions,
                    i < txs.len(),
                    t == txs[i as int],
                    t == tx@,
                    k <= t.outputs.len(),
                        check_transactions(txs.take(i as int), u) == Check::Passed(used0, 0),
                    txs.take(i + 1).drop_last() == txs.take(i as int),
                    txs.take(i + 1).last() == t,
                    check_inputs(t.inputs, u, used0) == Check::Passed(
                        prevs_of(used@),
                        input_value as int,
                    ),
                    check_outputs(t.outputs.take(k as int), input_value as int) == Check::Passed(
                        Seq::<Seq<u8>>::empty(),
                        output_value as int,
                    ),
                decreases t.outputs.len() - k,
            {
                let output = &tx.outputs[k];
                assert(output@ == t.outputs[k as int]);
                assert(t.outputs.take(k + 1).drop_last() =~= t.outputs.take(k as int));
                assert(t.outputs.take(k + 1).last() == output@);
                match output_value.checked_add(output.value) {
                    None => {
                        proof {
                            lemma_check_outputs_stops(t.outputs, input_value as int, k + 1);
                            lemma_check_transactions_stops(txs, u, i + 1);
                        }
                        return CheckResult::Overflow;
                    },
                    Some(v) => {
                        output_value = v;
                    },
                }
                if input_value < output_value {
                    proof {
                        lemma_check_outputs_stops(t.outputs, input_value as int, k + 1);
                        lemma_check_transactions_stops(txs, u, i + 1);
                    }
                    return CheckResult::Refused(BtcError::InvalidTransection);
                }
                k += 1;
            }
            assert(t.outputs.take(t.outputs.len() as int) =~= t.outputs);
            i += 1;
        }
        assert(txs.take(txs.len() as int) =~= txs);
        CheckResult::Passed
    }

    /// Checks the block's transactions against `utxos`: the block holds at least one
    /// transaction; every input spends a known output that no earlier input of the block
    /// spends, and is signed under that output's key; and no transaction pays out more than
    /// its inputs bring in.
    pub fn verify_transactions(&self, utxos: &UtxoSet) -> (r: Result<(), BtcError>)
        requires
            utxos.wf(),
            !(verify_outcome(self@.transactions, utxos@) is Overflow),
        ensures
            match verify_outcome(self@.transactions, utxos@) {
                Check::Refused(e) => r == Err::<(), BtcError>(e),
                _ => r is Ok,
            },
    {
        match self.check_transactions(utxos) {
            CheckResult::Refused(e) => Err(e),
            _ => Ok(()),
        }
    }
}


/// The views of a list of blocks.
pub open spec fn blocks_view(s: Seq<Block>) -> Seq<BlockView> {
    s.map_values(|b: Block| b@)
}

/// How a block must link to the chain: to the hash of the last block, with a later
/// timestamp, or, for the first block, to the zero hash.
pub open spec fn link_check(blocks: Seq<BlockView>, b: BlockView) -> Option<BtcError> {
    if blocks.len() > 0 {
        if block_hash(blocks.last()) != b.header.previous_hash {
            Some(BtcError::InvalidBlock)
        } else if !is_before(blocks.last().header.timestamp, b.header.timestamp) {
            Some(BtcError::InvalidBlock)
        } else {
            None
        }
    } else if b.header.previous_hash != crate::sha256::zero_bytes() {
        Some(BtcError::InvalidBlock)
    } else {
        None
    }
}

/// The header's hash must not exceed its target, and its Merkle root must be that of
/// the block's transactions.
pub open spec fn work_and_root_check(b: BlockView) -> Option<BtcError> {
    if !(be_nat(header_hash(b.header)) <= be_nat(b.header.target)) {
        Some(BtcError::InvalidHash)
    } else if merkle_root(b.transactions) != b.header.merkle_root {
        Some(BtcError::InvalidMerkeleRoot)
    } else {
        None
    }
}

/// The first check a block fails before its transactions are looked at, if any.
pub open spec fn header_check(blocks: Seq<BlockView>, b: BlockView) -> Option<BtcError> {
    match link_check(blocks, b) {
        Some(e) => Some(e),
        None => work_and_root_check(b),
    }
}

/// Runs the checks of `header_check`.
pub(crate) fn check_header(blocks: &Vec<Block>, block: &Block) -> (r: Option<BtcError>)
    ensures
        r == header_check(blocks_view(blocks@), block@),
{
    let n = blocks.len();
    if n > 0 {
        let last = &blocks[n - 1];
        assert(blocks_view(blocks@).last() == last@);
        if !last.hash().equals(&block.header.previous_hash) {
            return Some(BtcError::InvalidBlock);
        }
        if !last.header.timestamp.before(&block.header.timestamp) {
            return Some(BtcError::InvalidBlock);
        }
    } else {
        if !block.header.previous_hash.equals(&crate::sha256::Hash::zero()) {
            return Some(BtcError::InvalidBlock);
        }
    }
    if !block.header.hash().matches_target(block.header.target) {
        return Some(BtcError::InvalidHash);
    }
    let root = MerkleRoot::calculate(&block.transactions);
    if !root.equals(&block.header.merkle_root) {
        return Some(BtcError::InvalidMerkeleRoot);
    }
    None
}

/// `u` without the keys in `ps`, removed in order.
pub open spec fn remove_keys(u: Map<Seq<u8>, (bool, OutputView)>, ps: Seq<Seq<u8>>) -> Map<
    Seq<u8>,
    (bool, OutputView),
>
    decreases ps.len(),
{
    if ps.len() == 0 {
        u
    } else {
        remove_keys(u, ps.drop_last()).remove(ps.last())
    }
}

/// What replaying one transaction does to the unspent outputs: the outputs its inputs
/// spend leave, and its outputs are stored, unmarked, under the transaction's hash, so
/// that the last one stays.
pub open spec fn rebuild_transaction(u: Map<Seq<u8>, (bool, OutputView)>, t: TransactionView) -> Map<
    Seq<u8>,
    (bool, OutputView),
> {
    let v = remove_keys(u, input_prevs(t));
    if t.outputs.len() == 0 {
        v
    } else {
        v.insert(transaction_hash(t), (false, t.outputs.last()))
    }
}

pub open spec fn rebuild_transactions(
    u: Map<Seq<u8>, (bool, OutputView)>,
    txs: Seq<TransactionView>,
) -> Map<Seq<u8>, (bool, OutputView)>
    decreases txs.len(),
{
    if txs.len() == 0 {
        u
    } else {
        rebuild_transaction(rebuild_transactions(u, txs.drop_last()), txs.last())
    }
}

/// What replaying the blocks, in order, does to the unspent outputs.
pub open spec fn rebuild_blocks(u: Map<Seq<u8>, (bool, OutputView)>, blocks: Seq<BlockView>) -> Map<
    Seq<u8>,
    (bool, OutputView),
>
    decreases blocks.len(),
{
    if blocks.len() == 0 {
        u
    } else {
        rebuild_transactions(rebuild_blocks(u, blocks.drop_last()), blocks.last().transactions)
    }
}

/// The two maps hold the same entry, or none, under `k`.
pub open spec fn agree_at(
    a: Map<Seq<u8>, (bool, OutputView)>,
    b: Map<Seq<u8>, (bool, OutputView)>,
    k: Seq<u8>,
) -> bool {
    &&& a.contains_key(k) == b.contains_key(k)
    &&& a.contains_key(k) ==> a[k] == b[k]
}

/// Replaying `t` removes or stores the key `k`.
pub open spec fn tx_touches(t: TransactionView, k: Seq<u8>) -> bool {
    ||| input_prevs(t).contains(k)
    ||| (t.outputs.len() > 0 && transaction_hash(t) == k)
}

/// Replaying `txs` removes or stores the key `k`.
pub open spec fn txs_touch(txs: Seq<TransactionView>, k: Seq<u8>) -> bool
    decreases txs.len(),
{
    txs.len() > 0 && (txs_touch(txs.drop_last(), k) || tx_touches(txs.last(), k))
}

/// Replaying `blocks` removes or stores the key `k`.
pub open spec fn blocks_touch(blocks: Seq<BlockView>, k: Seq<u8>) -> bool
    decreases blocks.len(),
{
    blocks.len() > 0 && (blocks_touch(blocks.drop_last(), k) || txs_touch(
        blocks.last().transactions,
        k,
    ))
}

proof fn lemma_remove_keys_at(
    u: Map<Seq<u8>, (bool, OutputView)>,
    v: Map<Seq<u8>, (bool, OutputView)>,
    ps: Seq<Seq<u8>>,
    k: Seq<u8>,
)
    ensures
        agree_at(u, v, k) || ps.contains(k) ==> agree_at(remove_keys(u, ps), remove_keys(v, ps), k),
        !ps.contains(k) ==> agree_at(remove_keys(u, ps), u, k),
    decreases ps.len(),
{
    if ps.len() > 0 {
        let d = ps.drop_last();
        lemma_remove_keys_at(u, v, d, k);
        if d.contains(k) {
            let i = choose|i: int| 0 <= i < d.len() && d[i] == k;
            assert(ps[i] == k);
        }
        if !ps.contains(k) {
            assert(ps[ps.len() - 1] != k);
        } else if !d.contains(k) {
            let i = choose|i: int| 0 <= i < ps.len() && ps[i] == k;
            if i < ps.len() - 1 {
                assert(d[i] == k);
            }
            assert(ps.last() == k);
        }
    }
}

proof fn lemma_rebuild_transaction_at(
    u: Map<Seq<u8>, (bool, OutputView)>,
    v: Map<Seq<u8>, (bool, OutputView)>,
    t: TransactionView,
    k: Seq<u8>,
)
    ensures
        agree_at(u, v, k) || tx_touches(t, k) ==> agree_at(
            rebuild_transaction(u, t),
            rebuild_transaction(v, t),
            k,
        ),
        !tx_touches(t, k) ==> agree_at(rebuild_transaction(u, t), u, k),
{
    lemma_remove_keys_at(u, v, input_prevs(t), k);
}

proof fn lemma_rebuild_transactions_at(
    u: Map<Seq<u8>, (bool, OutputView)>,
    v: Map<Seq<u8>, (bool, OutputView)>,
    txs: Seq<TransactionView>,
    k: Seq<u8>,
)
    ensures
        agree_at(u, v, k) || txs_touch(txs, k) ==> agree_at(
            rebuild_transactions(u, txs),
            rebuild_transactions(v, txs),
            k,
        ),
        !txs_touch(txs, k) ==> agree_at(rebuild_transactions(u, txs), u, k),
    decreases txs.len(),
{
    if txs.len() > 0 {
        let d = txs.drop_last();
        lemma_rebuild_transactions_at(u, v, d, k);
        lemma_rebuild_transaction_at(
            rebuild_transactions(u, d),
            rebuild_transactions(v, d),
            txs.last(),
            k,
        );
    }
}

proof fn lemma_rebuild_blocks_at(
    u: Map<Seq<u8>, (bool, OutputView)>,
    v: Map<Seq<u8>, (bool, OutputView)>,
    blocks: Seq<BlockView>,
    k: Seq<u8>,
)
    ensures
        agree_at(u, v, k) || blocks_touch(blocks, k) ==> agree_at(
            rebuild_blocks(u, blocks),
            rebuild_blocks(v, blocks),
            k,
        ),
        !blocks_touch(blocks, k) ==> agree_at(rebuild_blocks(u, blocks), u, k),
    decreases blocks.len(),
{
    if blocks.len() > 0 {
        let d = blocks.drop_last();
        lemma_rebuild_blocks_at(u, v, d, k);
        lemma_rebuild_transactions_at(
            rebuild_blocks(u, d),
            rebuild_blocks(v, d),
            blocks.last().transactions,
            k,
        );
    }
}

/// Rebuilding the unspent outputs a second time from the same blocks changes nothing:
/// replaying the blocks onto what one replay gave gives it back.
pub proof fn lemma_rebuild_blocks_idempotent(
    u: Map<Seq<u8>, (bool, OutputView)>,
    blocks: Seq<BlockView>,
)
    ensures
        rebuild_blocks(rebuild_blocks(u, blocks), blocks) == rebuild_blocks(u, blocks),
{
    let r = rebuild_blocks(u, blocks);
    let rr = rebuild_blocks(r, blocks);
    assert forall|k: Seq<u8>| #[trigger] agree_at(rr, r, k) by {
        lemma_rebuild_blocks_at(u, u, blocks, k);
        lemma_rebuild_blocks_at(r, u, blocks, k);
    }
    assert forall|k: Seq<u8>| rr.contains_key(k) <==> #[trigger] r.contains_key(k) by {
        assert(agree_at(rr, r, k));
    }
    assert forall|k: Seq<u8>| #[trigger] rr.contains_key(k) implies rr[k] == r[k] by {
        assert(agree_at(rr, r, k));
    }
    assert(rr =~= r);
}

/// Replays `blocks` onto `utxos`.
pub(crate) fn replay_blocks(utxos: &mut UtxoSet, blocks: &Vec<Block>)
    requires
        old(utxos).wf(),
    ensures
        final(utxos).wf(),
        final(utxos)@ == rebuild_blocks(old(utxos)@, blocks_view(blocks@)),
{
    let ghost bs = blocks_view(blocks@);
    let mut i: usize = 0;
    assert(bs.take(0) =~= Seq::<BlockView>::empty());
    while i < blocks.len()
        invariant
            utxos.wf(),
            bs == blocks_view(blocks@),
            i <= bs.len(),
            utxos@ == rebuild_blocks(old(utxos)@, bs.take(i as int)),
        decreases bs.len() - i,
    {
        let block = &blocks[i];
        let ghost txs = block@.transactions;
        let ghost u_block = utxos@;
        assert(bs.take(i + 1).drop_last() =~= bs.take(i as int));
        assert(bs.take(i + 1).last() == block@);
        let mut j: usize = 0;
        assert(txs.take(0) =~= Seq::<TransactionView>::empty());
        while j < block.transactions.len()
            invariant
                utxos.wf(),
                txs == block@.transactions,
                j <= txs.len(),
                utxos@ == rebuild_transactions(u_block, txs.take(j as int)),
            decreases txs.len() - j,
        {
            let tx = &block.transactions[j];
            let ghost t = tx@;
            assert(t == txs[j as int]);
            assert(txs.take(j + 1).drop_last() =~= txs.take(j as int));
            assert(txs.take(j + 1).last() == t);
            let ghost u_tx = utxos@;
            let ghost prevs = input_prevs(t);
            let mut k: usize = 0;
            assert(prevs.take(0) =~= Seq::<Seq<u8>>::empty());
            while k < tx.inputs.len()
                invariant
                    utxos.wf(),
                    t == tx@,
                    prevs == input_prevs(t),
                    k <= t.inputs.len(),
                    utxos@ == remove_keys(u_tx, prevs.take(k as int)),
                decreases t.inputs.len() - k,
            {
                utxos.remove(&tx.inputs[k].prev_transaction_output_hash);
                assert(prevs.take(k + 1).drop_last() =~= prevs.take(k as int));
                k += 1;
            }
            assert(prevs.take(prevs.len() as int) =~= prevs);
            let ghost v = utxos@;
            if tx.outputs.len() > 0 {
                let h = tx.hash();
                let mut m: usize = 0;
                while m < tx.outputs.len()
                    invariant
                        utxos.wf(),
                        t == tx@,
                        h@ == transaction_hash(t),
                        m <= t.outputs.len(),
                        utxos@ == (if m == 0 {
                            v
                        } else {
                            v.insert(h@, (false, t.outputs[m - 1]))
                        }),
                    decreases t.outputs.len() - m,
                {
                    let out = tx.outputs[m].duplicate();
                    utxos.insert(h, false, out);
                    assert(utxos@ =~= v.insert(h@, (false, t.outputs[m as int])));
                    m += 1;
                }
            }
            j += 1;
        }
        assert(txs.take(txs.len() as int) =~= txs);
        i += 1;
    }
    assert(bs.take(bs.len() as int) =~= bs);
}

/// A chain of blocks with the outputs they leave unspent, without mempool or difficulty.
#[derive(Debug)]
pub struct Blockchain {
    pub utxos: UtxoSet,
    pub blocks: Vec<Block>,
}

impl Blockchain {
    /// The empty chain.
    pub fn new() -> (r: Blockchain)
        ensures
            r.utxos.wf(),
            r.utxos@ == Map::<Seq<u8>, (bool, OutputView)>::empty(),
            r.blocks@.len() == 0,
    {
        Blockchain { utxos: UtxoSet::new(), blocks: Vec::new() }
    }

    /// Appends `block` when it links to the last block (or, as the first block, to the zero
    /// hash), comes later than it, meets its own target and carries the Merkle root of its
    /// transactions. Otherwise the chain is left as it is and the first failed check is
    /// returned.
    pub fn add_block(&mut self, block: Block) -> (r: Result<(), BtcError>)
        ensures
            final(self).utxos == old(self).utxos,
            match header_check(blocks_view(old(self).blocks@), block@) {
                Some(e) => r == Err::<(), BtcError>(e) && final(self).blocks@ == old(
                    self,
                ).blocks@,
                None => r is Ok && blocks_view(final(self).blocks@) == blocks_view(
                    old(self).blocks@,
                ).push(block@),
            },
    {
        match check_header(&self.blocks, &block) {
            Some(e) => Err(e),
            None => {
                let ghost b = block@;
                self.blocks.push(block);
                assert(blocks_view(self.blocks@) =~= blocks_view(old(self).blocks@).push(b));
                Ok(())
            },
        }
    }

    /// Replays every block onto the unspent outputs: each input's output leaves and each
    /// transaction's outputs are stored under the transaction's hash.
    pub fn rebuild_utoxs(&mut self)
        requires
            old(self).utxos.wf(),
        ensures
            final(self).utxos.wf(),
            final(self).utxos@ == rebuild_blocks(old(self).utxos@, blocks_view(old(self).blocks@)),
            final(self).blocks@ == old(self).blocks@,
    {
        replay_blocks(&mut self.utxos, &self.blocks);
    }
}

} // verus!
