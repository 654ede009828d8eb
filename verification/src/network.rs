//! Messages between nodes and miners, and how they are framed on the wire.
use crate::crypto::PublicKey;
use crate::types::{enc_u64, Block, Transaction, TransactionOutput};
use crate::u256::be_nat;
use vstd::prelude::*;

verus! {

/// A message of the protocol between nodes, miners and wallets.
#[derive(Debug)]
pub enum Message {
    FetchUTXOs(PublicKey),
    UTXOs(Vec<(TransactionOutput, bool)>),
    SubmitTransaction(Transaction),
    NewTrasaction(Transaction),
    FetchTemplate(PublicKey),
    Template(Block),
    ValidateTemplate(Block),
    TemplateValidity(bool),
    SubmitTemplate(Block),
    DiscoverNodes,
    NodesList(Vec<String>),
    AskDifference(u32),
    Difference(i32),
    FetchBlock(usize),
    NewBlock(Block),
}

/// A frame on the wire: the payload's length as 8 big-endian bytes, then the payload.
pub open spec fn frame_bytes(payload: Seq<u8>) -> Seq<u8> {
    enc_u64(payload.len() as u64) + payload
}

/// The 8 header bytes of a frame read back as the length they were written from.
pub proof fn lemma_frame_header_roundtrip(x: u64)
    ensures
        be_nat(enc_u64(x)) == x,
{
    let s = enc_u64(x);
    reveal_with_fuel(be_nat, 9);
    assert(s.drop_last().drop_last().drop_last().drop_last().drop_last().drop_last().drop_last().drop_last() =~= Seq::<u8>::empty());
    let b0 = (x >> 56u64) as u8;
    let b1 = (x >> 48u64) as u8;
    let b2 = (x >> 40u64) as u8;
    let b3 = (x >> 32u64) as u8;
    let b4 = (x >> 24u64) as u8;
    let b5 = (x >> 16u64) as u8;
    let b6 = (x >> 8u64) as u8;
    let b7 = x as u8;
    assert(x == ((((((b0 as u64 * 256 + b1 as u64) * 256 + b2 as u64) * 256 + b3 as u64) * 256
        + b4 as u64) * 256 + b5 as u64) * 256 + b6 as u64) * 256 + b7 as u64) by (bit_vector)
        requires
            b0 == (x >> 56u64) as u8,
            b1 == (x >> 48u64) as u8,
            b2 == (x >> 40u64) as u8,
            b3 == (x >> 32u64) as u8,
            b4 == (x >> 24u64) as u8,
            b5 == (x >> 16u64) as u8,
            b6 == (x >> 8u64) as u8,
            b7 == x as u8,
    ;
}

/// Reading the header of a frame gives back the length of its payload.
pub proof fn lemma_frame_length_of_frame(payload: Seq<u8>)
    requires
        payload.len() <= u64::MAX,
    ensures
        be_nat(frame_bytes(payload).take(8)) == payload.len(),
{
    lemma_frame_header_roundtrip(payload.len() as u64);
    assert(frame_bytes(payload).take(8) =~= enc_u64(payload.len() as u64));
}

impl Message {
    /// The frame that carries an encoded message.
    pub fn frame(payload: &[u8]) -> (r: Vec<u8>)
        ensures
            r@ == frame_bytes(payload@),
    {
        let mut out: Vec<u8> = Vec::new();
        let len = payload.len() as u64;
        out.push((len >> 56u64) as u8);
        out.push((len >> 48u64) as u8);
        out.push((len >> 40u64) as u8);
        out.push((len >> 32u64) as u8);
        out.push((len >> 24u64) as u8);
        out.push((len >> 16u64) as u8);
        out.push((len >> 8u64) as u8);
        out.push(len as u8);
        let ghost head = out@;
        let mut i: usize = 0;
        while i < payload.len()
            invariant
                i <= payload@.len(),
                out@ == head + payload@.take(i as int),
            decreases payload@.len() - i,
        {
            out.push(payload[i]);
            i += 1;
            assert(out@ =~= head + payload@.take(i as int));
        }
        assert(payload@.take(payload@.len() as int) =~= payload@);
        assert(out@ =~= frame_bytes(payload@));
        out
    }

    /// The payload length that a frame's 8 header bytes announce.
    pub fn frame_length(header: &[u8; 8]) -> (r: u64)
        ensures
            r == be_nat(header@),
    {
        let mut acc: u64 = 0;
        let mut i: usize = 0;
        assert(header@.take(0) =~= Seq::<u8>::empty());
        while i < 8
            invariant
                i <= 8,
                acc == be_nat(header@.take(i as int)),
            decreases 8 - i,
        {
            proof {
                crate::u256::lemma_be_nat_bound(header@.take(i as int));
                reveal_with_fuel(crate::u256::pow256, 9);
            }
            assert(header@.take(i + 1).drop_last() =~= header@.take(i as int));
            acc = acc * 256 + header[i] as u64;
            i += 1;
        }
        assert(header@.take(8) =~= header@);
        acc
    }
}

} // verus!
