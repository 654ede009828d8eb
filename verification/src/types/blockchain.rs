//! The blockchain: blocks, the unspent outputs they leave, the difficulty target and the
//! mempool of transactions waiting for a block.
use crate::crypto::PublicKey;
use crate::error::BtcError;
use crate::time::{nanos_between, whole_seconds, Timestamp};
use crate::types::{
    block_hash, blocks_view, check_header, header_check, input_prevs, link_check, output_hash,
    rebuild_blocks, replay_blocks, transaction_hash, verify_outcome, Block, BlockHeader,
    BlockView, Check, check_inputs, check_outputs, check_transactions, InputView, OutputView,
    Transaction, TransactionOutput, TransactionView,
};
use crate::u256::{dec_digits, parse_decimal, U256};
use crate::util::{merkle_root, MerkleRoot};
use crate::utxo::{with_mark, UtxoEntryView, UtxoSet};
use crate::{
    min_target, min_target_value, BLOCK_TRANSACTION_CAP, DIFFICULTY_UPDATE_INTERVAL,
    IDEAL_BLOCK_TIME, MAXIMUM_MEMPOOL_TRANSACTION_AGE,
};
use vstd::prelude::*;

verus! {

/// What `bigdecimal` prints for `target * (numerator / denominator)`, where `target` is
/// parsed from the decimal digits `target_digits`; `None` when those digits do not parse.
pub uninterp spec fn scaled_target_text(
    target_digits: Seq<u8>,
    numerator: int,
    denominator: int,
) -> Option<Seq<u8>>;

/// Calls `bigdecimal::BigDecimal::parse_bytes`, `BigDecimal::from`, the division and the
/// multiplication of `BigDecimal`, and its `to_string`. The contract claims only that the
/// bytes printed are the ones `scaled_target_text` names for these arguments; it says
/// nothing of how `bigdecimal` rounds the quotient or when it prints an exponent.
#[verifier::external_body]
fn scale_decimal(target_digits: &[u8], numerator: i128, denominator: u64) -> (r: Option<Vec<u8>>)
    requires
        denominator > 0,
        target_digits@.len() > 0,
        crate::u256::all_digits(target_digits@),
    ensures
        match scaled_target_text(target_digits@, numerator as int, denominator as int) {
            Some(t) => r matches Some(v) && v@ == t,
            None => r is None,
        },
{
    let target = bigdecimal::BigDecimal::parse_bytes(target_digits, 10)?;
    let product = target * (bigdecimal::BigDecimal::from(numerator) / bigdecimal::BigDecimal::from(
        denominator,
    ));
    Some(product.to_string().into_bytes())
}

/// The part of a printed number before its first `.` (all of it when there is none).
pub open spec fn integer_part(s: Seq<u8>) -> Seq<u8>
    decreases s.len(),
{
    if s.len() == 0 {
        s
    } else if s.drop_last().contains(46u8) {
        integer_part(s.drop_last())
    } else if s.last() == 46u8 {
        s.drop_last()
    } else {
        s
    }
}

pub proof fn lemma_integer_part_at(s: Seq<u8>, i: int)
    requires
        0 <= i < s.len(),
        s[i] == 46u8,
        forall|k: int| 0 <= k < i ==> s[k] != 46u8,
    ensures
        integer_part(s) == s.take(i),
    decreases s.len(),
{
    if i < s.len() - 1 {
        assert(s.drop_last()[i] == s[i]);
        assert(s.drop_last().contains(46u8));
        lemma_integer_part_at(s.drop_last(), i);
        assert(s.drop_last().take(i) =~= s.take(i));
    } else {
        assert(!s.drop_last().contains(46u8)) by {
            if s.drop_last().contains(46u8) {
                let k = choose|k: int| 0 <= k < s.drop_last().len() && s.drop_last()[k] == 46u8;
                assert(s[k] == 46u8);
            }
        }
        assert(s.drop_last() =~= s.take(i));
    }
}

pub proof fn lemma_integer_part_none(s: Seq<u8>)
    requires
        forall|k: int| 0 <= k < s.len() ==> s[k] != 46u8,
    ensures
        integer_part(s) == s,
{
    if s.len() > 0 {
        assert(!s.drop_last().contains(46u8)) by {
            if s.drop_last().contains(46u8) {
                let k = choose|k: int| 0 <= k < s.drop_last().len() && s.drop_last()[k] == 46u8;
                assert(s[k] == 46u8);
            }
        }
        assert(s[s.len() - 1] != 46u8);
    }
}

/// The proposed target pulled back to within a factor of four of the current one.
pub open spec fn clamp_target(current: nat, proposed: nat) -> nat {
    if proposed < current / 4 {
        current / 4
    } else if proposed > current * 4 {
        current * 4
    } else {
        proposed
    }
}

/// The smaller of two numbers.
pub open spec fn min_nat(a: nat, b: nat) -> nat {
    if a <= b {
        a
    } else {
        b
    }
}

/// The new target that a printed, scaled target gives: its integer part, kept within a
/// factor of four of `current` and never easier than the easiest target. `None` when the
/// integer part is not a number that fits in 256 bits.
pub open spec fn retargeted(current: nat, text: Seq<u8>) -> Option<nat> {
    match parse_decimal(integer_part(text)) {
        Some(n) => Some(min_nat(clamp_target(current, n), min_target_value())),
        None => None,
    }
}

/// Each time the chain length reaches a positive multiple of `DIFFICULTY_UPDATE_INTERVAL`
/// (at 50 blocks, at 100, at 150, ...), the target becomes the scaled target `n` that
/// bigdecimal printed, pulled within a quarter and four times the current target and
/// capped at the easiest target.
pub proof fn lemma_target_adjusted_at_every_interval(blocks: Seq<BlockView>, target: nat, k: nat, text: Seq<u8>, n: nat)
    requires
        k > 0,
        blocks.len() == k * DIFFICULTY_UPDATE_INTERVAL,
        scaled_target_text(dec_digits(target), last_span_seconds(blocks), span_seconds()) == Some(
            text,
        ),
        parse_decimal(integer_part(text)) == Some(n),
    ensures
        target_after_adjust(blocks, target) == ({
            let c = if n < target / 4 {
                target / 4
            } else if n > target * 4 {
                target * 4
            } else {
                n
            };
            if c <= min_target_value() {
                c
            } else {
                min_target_value()
            }
        }),
{
    assert(blocks.len() % (DIFFICULTY_UPDATE_INTERVAL as nat) == 0) by (nonlinear_arith)
        requires
            blocks.len() == k * DIFFICULTY_UPDATE_INTERVAL,
            DIFFICULTY_UPDATE_INTERVAL == 50,
    ;
}

/// Between those lengths, and on an empty chain, the target stays as it is.
pub proof fn lemma_target_kept_between_intervals(blocks: Seq<BlockView>, target: nat)
    requires
        blocks.len() == 0 || blocks.len() % (DIFFICULTY_UPDATE_INTERVAL as nat) != 0,
    ensures
        target_after_adjust(blocks, target) == target,
{
}

/// Clamping keeps the order of proposals: from the same current target, a larger proposed
/// target never gives a smaller new one.
pub proof fn lemma_clamp_monotone(current: nat, n1: nat, n2: nat)
    requires
        n1 <= n2,
    ensures
        min_nat(clamp_target(current, n1), min_target_value()) <= min_nat(
            clamp_target(current, n2),
            min_target_value(),
        ),
{
}

/// The seconds one span of blocks should take.
pub open spec fn span_seconds() -> int {
    (IDEAL_BLOCK_TIME * DIFFICULTY_UPDATE_INTERVAL) as int
}

/// Whether the chain has just completed a span of blocks, so that the target is due for
/// adjustment.
pub open spec fn retarget_due(blocks: Seq<BlockView>) -> bool {
    blocks.len() > 0 && blocks.len() % (DIFFICULTY_UPDATE_INTERVAL as nat) == 0
}

/// The seconds the last span of blocks took, rounded toward zero.
pub open spec fn last_span_seconds(blocks: Seq<BlockView>) -> int {
    whole_seconds(
        nanos_between(
            blocks.last().header.timestamp,
            blocks[blocks.len() - DIFFICULTY_UPDATE_INTERVAL].header.timestamp,
        ),
    )
}

/// The target after an adjustment: when a span of blocks is complete, the current target
/// scaled by how long the span took against how long it should take, then kept within a
/// factor of four and never easier than the easiest target. When the scaled target does
/// not print as a number that fits in 256 bits, the target stays.
pub open spec fn target_after_adjust(blocks: Seq<BlockView>, target: nat) -> nat {
    if !retarget_due(blocks) {
        target
    } else {
        match scaled_target_text(dec_digits(target), last_span_seconds(blocks), span_seconds()) {
            None => target,
            Some(text) => match retargeted(target, text) {
                Some(n) => n,
                None => target,
            },
        }
    }
}

/// Computes the new target from the current one and the printed, scaled target.
pub fn retarget(current: U256, scaled: &[u8]) -> (r: Option<U256>)
    ensures
        match retargeted(current.value(), scaled@) {
            Some(n) => r matches Some(v) && v.value() == n,
            None => r is None,
        },
{
    let mut i: usize = 0;
    while i < scaled.len()
        invariant
            i <= scaled@.len(),
            forall|k: int| 0 <= k < i ==> scaled@[k] != 46u8,
        ensures
            i <= scaled@.len(),
            forall|k: int| 0 <= k < i ==> scaled@[k] != 46u8,
            i < scaled@.len() ==> scaled@[i as int] == 46u8,
        decreases scaled@.len() - i,
    {
        if scaled[i] == 46u8 {
            break ;
        }
        i += 1;
    }
    let mut digits: Vec<u8> = Vec::new();
    let mut k: usize = 0;
    while k < i
        invariant
            k <= i <= scaled@.len(),
            digits@ == scaled@.take(k as int),
        decreases i - k,
    {
        digits.push(scaled[k]);
        k += 1;
        assert(digits@ =~= scaled@.take(k as int));
    }
    proof {
        if i < scaled@.len() {
            lemma_integer_part_at(scaled@, i as int);
        } else {
            lemma_integer_part_none(scaled@);
            assert(scaled@.take(i as int) =~= scaled@);
        }
    }
    match U256::from_decimal(digits.as_slice()) {
        None => None,
        Some(proposed) => {
            let (quarter, _) = current.div_rem_small(4);
            let clamped = if proposed.lt(&quarter) {
                quarter
            } else {
                match current.checked_mul_add_small(4, 0) {
                    Some(quadruple) => {
                        if quadruple.lt(&proposed) {
                            quadruple
                        } else {
                            proposed
                        }
                    },
                    None => {
                        proof {
                            proposed.lemma_value_bound();
                        }
                        proposed
                    },
                }
            };
            Some(clamped.min(min_target()))
        },
    }
}

/// The unspent outputs, as the library reads them.
pub type UtxoMap = Map<Seq<u8>, (bool, OutputView)>;

/// The mempool, as the library reads it.
pub type Pool = Seq<(Timestamp, TransactionView)>;

/// Whether one of the transaction's inputs spends the output `p`.
pub open spec fn references(t: TransactionView, p: Seq<u8>) -> bool {
    exists|j: int| 0 <= j < t.inputs.len() && t.inputs[j].prev == p
}

/// The position of the first mempool transaction that spends the output `p`.
pub open spec fn first_referencing(m: Pool, p: Seq<u8>) -> Option<int> {
    if exists|i: int| 0 <= i < m.len() && references(m[i].1, p) {
        Some(
            choose|i: int|
                0 <= i < m.len() && references(m[i].1, p) && forall|k: int|
                    0 <= k < i ==> !references(m[k].1, p),
        )
    } else {
        None
    }
}

/// `u` with the mark of each key in `ps` that it holds set to `marked`.
pub open spec fn set_marks(u: UtxoMap, ps: Seq<Seq<u8>>, marked: bool) -> UtxoMap
    decreases ps.len(),
{
    if ps.len() == 0 {
        u
    } else {
        with_mark(set_marks(u, ps.drop_last(), marked), ps.last(), marked)
    }
}

/// Frees the output `p` when it is marked as spent: the first mempool transaction that
/// spends `p` leaves the mempool and every output it spends is unmarked; when there is
/// none, `p` alone is unmarked.
pub open spec fn release_one(u: UtxoMap, m: Pool, p: Seq<u8>) -> (UtxoMap, Pool) {
    if u.contains_key(p) && u[p].0 {
        match first_referencing(m, p) {
            Some(i) => (set_marks(u, input_prevs(m[i].1), false), m.remove(i)),
            None => (with_mark(u, p, false), m),
        }
    } else {
        (u, m)
    }
}

/// `release_one` for each of `ps`, in order.
pub open spec fn release(u: UtxoMap, m: Pool, ps: Seq<Seq<u8>>) -> (UtxoMap, Pool)
    decreases ps.len(),
{
    if ps.len() == 0 {
        (u, m)
    } else {
        let r = release(u, m, ps.drop_last());
        release_one(r.0, r.1, ps.last())
    }
}

/// Every input spends a known output, and no two inputs spend the same one.
pub open spec fn inputs_acceptable(u: UtxoMap, t: TransactionView) -> bool {
    &&& forall|i: int| 0 <= i < t.inputs.len() ==> u.contains_key(#[trigger] t.inputs[i].prev)
    &&& input_prevs(t).no_duplicates()
}

/// The total value of the outputs stored under `ps`.
pub open spec fn input_sum(u: UtxoMap, ps: Seq<Seq<u8>>) -> int
    decreases ps.len(),
{
    if ps.len() == 0 {
        0
    } else {
        input_sum(u, ps.drop_last()) + u[ps.last()].1.value
    }
}

/// The total value of a list of outputs.
pub open spec fn output_sum(outs: Seq<OutputView>) -> int
    decreases outs.len(),
{
    if outs.len() == 0 {
        0
    } else {
        output_sum(outs.drop_last()) + outs.last().value
    }
}

/// What the transaction leaves to the miner: what its inputs bring in minus what it pays.
pub open spec fn fee(u: UtxoMap, t: TransactionView) -> int {
    input_sum(u, input_prevs(t)) - output_sum(t.outputs)
}

/// The fee of `t` can be computed in `u64`: every output it spends is known, both sums
/// fit, and it pays out no more than it brings in.
pub open spec fn fee_computable(u: UtxoMap, t: TransactionView) -> bool {
    &&& forall|i: int| 0 <= i < t.inputs.len() ==> u.contains_key(#[trigger] t.inputs[i].prev)
    &&& input_sum(u, input_prevs(t)) <= u64::MAX
    &&& output_sum(t.outputs) <= u64::MAX
    &&& input_sum(u, input_prevs(t)) >= output_sum(t.outputs)
}

/// Where an entry with fee `k` goes in a list sorted by decreasing fee: after every entry
/// whose fee is at least `k`.
pub open spec fn insert_pos(u: UtxoMap, s: Pool, k: int) -> int
    decreases s.len(),
{
    if s.len() == 0 {
        0
    } else if fee(u, s.last().1) < k {
        insert_pos(u, s.drop_last(), k)
    } else {
        s.len() as int
    }
}

/// The mempool sorted by decreasing fee; entries with equal fees keep their order.
pub open spec fn sort_by_fee(u: UtxoMap, s: Pool) -> Pool
    decreases s.len(),
{
    if s.len() == 0 {
        s
    } else {
        let r = sort_by_fee(u, s.drop_last());
        r.insert(insert_pos(u, r, fee(u, s.last().1)), s.last())
    }
}

/// What adding `t` to the mempool at time `now` gives: the answer, then the unspent
/// outputs and the mempool after it.
///
/// A transaction whose inputs are not all known, or spend one output twice, is refused and
/// nothing changes. Otherwise each output it spends that a mempool transaction already
/// spends is freed (`release`). Then, if it pays out more than it brings in, it is refused
/// with those changes kept; else the outputs it spends are marked, it joins the mempool,
/// and the mempool is sorted by decreasing fee.
pub open spec fn mempool_add(u: UtxoMap, m: Pool, t: TransactionView, now: Timestamp) -> (
    Result<(), BtcError>,
    UtxoMap,
    Pool,
) {
    if !inputs_acceptable(u, t) {
        (Err(BtcError::InvalidTransection), u, m)
    } else {
        let r = release(u, m, input_prevs(t));
        if input_sum(u, input_prevs(t)) < output_sum(t.outputs) {
            (Err(BtcError::InvalidTransection), r.0, r.1)
        } else {
            (Ok(()), set_marks(r.0, input_prevs(t), true), sort_by_fee(u, r.1.push((now, t))))
        }
    }
}

/// The inputs on which adding `t` cannot be carried out in `u64`: a sum of values leaves
/// its range, or the mempool to be sorted holds a transaction whose fee cannot be computed.
pub open spec fn mempool_add_overflows(u: UtxoMap, m: Pool, t: TransactionView) -> bool {
    &&& inputs_acceptable(u, t)
    &&& {
        ||| input_sum(u, input_prevs(t)) > u64::MAX
        ||| output_sum(t.outputs) > u64::MAX
        ||| (input_sum(u, input_prevs(t)) >= output_sum(t.outputs) && release(
            u,
            m,
            input_prevs(t),
        ).1.len() >= 1 && exists|i: int|
            0 <= i < release(u, m, input_prevs(t)).1.len() && !fee_computable(
                u,
                #[trigger] release(u, m, input_prevs(t)).1[i].1,
            ))
    }
}

/// Two unspent-output maps hold the same keys and the same outputs; only marks may differ.
pub open spec fn same_entries(a: UtxoMap, b: UtxoMap) -> bool {
    &&& a.dom() == b.dom()
    &&& forall|k: Seq<u8>| #[trigger] a.contains_key(k) ==> a[k].1 == b[k].1
}

pub proof fn lemma_same_entries_trans(a: UtxoMap, b: UtxoMap, c: UtxoMap)
    requires
        same_entries(a, b),
        same_entries(b, c),
    ensures
        same_entries(a, c),
{
    assert forall|k: Seq<u8>| #[trigger] a.contains_key(k) implies a[k].1 == c[k].1 by {
        assert(b.contains_key(k));
    }
}

pub proof fn lemma_with_mark_same(u: UtxoMap, p: Seq<u8>, marked: bool)
    ensures
        same_entries(with_mark(u, p, marked), u),
{
    assert(with_mark(u, p, marked).dom() =~= u.dom());
}

pub proof fn lemma_set_marks_same(u: UtxoMap, ps: Seq<Seq<u8>>, marked: bool)
    ensures
        same_entries(set_marks(u, ps, marked), u),
    decreases ps.len(),
{
    if ps.len() == 0 {
        assert(u.dom() =~= u.dom());
    } else {
        lemma_set_marks_same(u, ps.drop_last(), marked);
        lemma_with_mark_same(set_marks(u, ps.drop_last(), marked), ps.last(), marked);
        lemma_same_entries_trans(
            set_marks(u, ps, marked),
            set_marks(u, ps.drop_last(), marked),
            u,
        );
    }
}

pub proof fn lemma_release_same(u: UtxoMap, m: Pool, ps: Seq<Seq<u8>>)
    ensures
        same_entries(release(u, m, ps).0, u),
    decreases ps.len(),
{
    if ps.len() == 0 {
        assert(u.dom() =~= u.dom());
    } else {
        let r = release(u, m, ps.drop_last());
        lemma_release_same(u, m, ps.drop_last());
        let p = ps.last();
        if r.0.contains_key(p) && r.0[p].0 {
            match first_referencing(r.1, p) {
                Some(i) => {
                    lemma_set_marks_same(r.0, input_prevs(r.1[i].1), false);
                },
                None => {
                    lemma_with_mark_same(r.0, p, false);
                },
            }
            lemma_same_entries_trans(release(u, m, ps).0, r.0, u);
        }
    }
}

pub proof fn lemma_input_sum_same(a: UtxoMap, b: UtxoMap, ps: Seq<Seq<u8>>)
    requires
        same_entries(a, b),
        forall|i: int| 0 <= i < ps.len() ==> a.contains_key(#[trigger] ps[i]),
    ensures
        input_sum(a, ps) == input_sum(b, ps),
    decreases ps.len(),
{
    if ps.len() > 0 {
        assert(a.contains_key(ps[ps.len() - 1]));
        lemma_input_sum_same(a, b, ps.drop_last());
    }
}

pub proof fn lemma_input_sum_prefix(u: UtxoMap, ps: Seq<Seq<u8>>, k: int)
    requires
        0 <= k <= ps.len(),
    ensures
        input_sum(u, ps.take(k)) <= input_sum(u, ps),
        input_sum(u, ps.take(k)) >= 0,
    decreases ps.len(),
{
    if k < ps.len() {
        assert(ps.drop_last().take(k) =~= ps.take(k));
        lemma_input_sum_prefix(u, ps.drop_last(), k);
    } else {
        assert(ps.take(k) =~= ps);
        if ps.len() > 0 {
            lemma_input_sum_prefix(u, ps.drop_last(), 0);
            assert(ps.drop_last().take(0) =~= ps.take(0));
            assert(ps.take(0) =~= Seq::<Seq<u8>>::empty());
        }
    }
}

pub proof fn lemma_output_sum_prefix(outs: Seq<OutputView>, k: int)
    requires
        0 <= k <= outs.len(),
    ensures
        output_sum(outs.take(k)) <= output_sum(outs),
        output_sum(outs.take(k)) >= 0,
    decreases outs.len(),
{
    if k < outs.len() {
        assert(outs.drop_last().take(k) =~= outs.take(k));
        lemma_output_sum_prefix(outs.drop_last(), k);
    } else {
        assert(outs.take(k) =~= outs);
        if outs.len() > 0 {
            lemma_output_sum_prefix(outs.drop_last(), 0);
            assert(outs.drop_last().take(0) =~= outs.take(0));
            assert(outs.take(0) =~= Seq::<OutputView>::empty());
        }
    }
}

/// The fee of a transaction does not depend on marks.
pub proof fn lemma_fee_same(a: UtxoMap, b: UtxoMap, t: TransactionView)
    requires
        same_entries(a, b),
        forall|i: int| 0 <= i < t.inputs.len() ==> a.contains_key(#[trigger] t.inputs[i].prev),
    ensures
        fee(a, t) == fee(b, t),
        fee_computable(a, t) == fee_computable(b, t),
{
    assert forall|i: int| 0 <= i < input_prevs(t).len() implies a.contains_key(
        #[trigger] input_prevs(t)[i],
    ) by {
        assert(input_prevs(t)[i] == t.inputs[i].prev);
    }
    lemma_input_sum_same(a, b, input_prevs(t));
    assert forall|i: int| 0 <= i < t.inputs.len() implies b.contains_key(
        #[trigger] t.inputs[i].prev,
    ) by {
        assert(a.contains_key(t.inputs[i].prev));
    }
}

pub proof fn lemma_first_referencing_found(m: Pool, p: Seq<u8>, i: int, j: int)
    requires
        0 <= i < m.len(),
        0 <= j < m[i].1.inputs.len(),
        m[i].1.inputs[j].prev == p,
        forall|k: int| 0 <= k < i ==> !references(#[trigger] m[k].1, p),
    ensures
        first_referencing(m, p) == Some(i),
{
    assert(references(m[i].1, p));
    let c = choose|c: int|
        0 <= c < m.len() && references(m[c].1, p) && forall|k: int|
            0 <= k < c ==> !references(m[k].1, p);
    assert(0 <= c < m.len() && references(m[c].1, p) && forall|k: int|
        0 <= k < c ==> !references(m[k].1, p));
    if c < i {
        assert(!references(m[c].1, p));
    }
    if c > i {
        assert(!references(m[i].1, p));
    }
}

fn find_referencing(pool: &Vec<(Timestamp, Transaction)>, p: &crate::sha256::Hash) -> (r: Option<
    usize,
>)
    ensures
        match r {
            Some(i) => first_referencing(pool_view(pool@), p@) == Some(i as int) && i
                < pool@.len(),
            None => first_referencing(pool_view(pool@), p@) is None,
        },
{
    let ghost m = pool_view(pool@);
    let mut i: usize = 0;
    while i < pool.len()
        invariant
            m == pool_view(pool@),
            i <= pool@.len(),
            forall|k: int| 0 <= k < i ==> !references(#[trigger] m[k].1, p@),
        decreases pool@.len() - i,
    {
        let tx = &pool[i].1;
        assert(m[i as int].1 == tx@);
        let mut j: usize = 0;
        while j < tx.inputs.len()
            invariant
                m == pool_view(pool@),
                i < pool@.len(),
                m[i as int].1 == tx@,
                forall|k: int| 0 <= k < i ==> !references(#[trigger] m[k].1, p@),
                j <= tx@.inputs.len(),
                forall|k: int| 0 <= k < j ==> (#[trigger] tx@.inputs[k]).prev != p@,
            decreases tx@.inputs.len() - j,
        {
            assert(tx@.inputs[j as int] == tx.inputs@[j as int]@);
            if tx.inputs[j].prev_transaction_output_hash.equals(p) {
                proof {
                    lemma_first_referencing_found(m, p@, i as int, j as int);
                }
                return Some(i);
            }
            j += 1;
        }
        assert(!references(m[i as int].1, p@));
        i += 1;
    }
    None
}

fn set_marks_of(utxos: &mut UtxoSet, t: &Transaction, marked: bool)
    requires
        old(utxos).wf(),
    ensures
        final(utxos).wf(),
        final(utxos)@ == set_marks(old(utxos)@, input_prevs(t@), marked),
{
    let ghost ps = input_prevs(t@);
    let mut q: usize = 0;
    assert(ps.take(0) =~= Seq::<Seq<u8>>::empty());
    while q < t.inputs.len()
        invariant
            utxos.wf(),
            ps == input_prevs(t@),
            q <= ps.len(),
            utxos@ == set_marks(old(utxos)@, ps.take(q as int), marked),
        decreases ps.len() - q,
    {
        utxos.set_mark(&t.inputs[q].prev_transaction_output_hash, marked);
        assert(ps.take(q + 1).drop_last() =~= ps.take(q as int));
        assert(ps[q as int] == t.inputs@[q as int].prev_transaction_output_hash@);
        q += 1;
    }
    assert(ps.take(ps.len() as int) =~= ps);
}

fn sum_input_values(utxos: &UtxoSet, t: &Transaction, u: Ghost<UtxoMap>) -> (r: u64)
    requires
        utxos.wf(),
        same_entries(utxos@, u@),
        forall|i: int| 0 <= i < t@.inputs.len() ==> u@.contains_key(#[trigger] t@.inputs[i].prev),
        input_sum(u@, input_prevs(t@)) <= u64::MAX,
    ensures
        r == input_sum(u@, input_prevs(t@)),
{
    let ghost ps = input_prevs(t@);
    let mut acc: u64 = 0;
    let mut q: usize = 0;
    assert(ps.take(0) =~= Seq::<Seq<u8>>::empty());
    while q < t.inputs.len()
        invariant
            utxos.wf(),
            same_entries(utxos@, u@),
            forall|i: int| 0 <= i < t@.inputs.len() ==> u@.contains_key(#[trigger] t@.inputs[i].prev),
            input_sum(u@, ps) <= u64::MAX,
            ps == input_prevs(t@),
            q <= ps.len(),
            acc == input_sum(u@, ps.take(q as int)),
        decreases ps.len() - q,
    {
        let p = &t.inputs[q].prev_transaction_output_hash;
        assert(ps[q as int] == p@);
        assert(t@.inputs[q as int].prev == p@);
        assert(u@.contains_key(p@));
        assert(ps.take(q + 1).drop_last() =~= ps.take(q as int));
        proof {
            lemma_input_sum_prefix(u@, ps, q + 1);
        }
        match utxos.get(p) {
            Some((_, out)) => {
                acc = acc + out.value;
            },
            None => {
                assert(false);
            },
        }
        q += 1;
    }
    assert(ps.take(ps.len() as int) =~= ps);
    acc
}

fn sum_output_values(t: &Transaction) -> (r: u64)
    requires
        output_sum(t@.outputs) <= u64::MAX,
    ensures
        r == output_sum(t@.outputs),
{
    let ghost os = t@.outputs;
    let mut acc: u64 = 0;
    let mut q: usize = 0;
    assert(os.take(0) =~= Seq::<OutputView>::empty());
    while q < t.outputs.len()
        invariant
            os == t@.outputs,
            output_sum(os) <= u64::MAX,
            q <= os.len(),
            acc == output_sum(os.take(q as int)),
        decreases os.len() - q,
    {
        assert(os.take(q + 1).drop_last() =~= os.take(q as int));
        assert(os[q as int] == t.outputs@[q as int]@);
        proof {
            lemma_output_sum_prefix(os, q + 1);
        }
        acc = acc + t.outputs[q].value;
        q += 1;
    }
    assert(os.take(os.len() as int) =~= os);
    acc
}

fn fee_of(utxos: &UtxoSet, t: &Transaction, u: Ghost<UtxoMap>) -> (r: u64)
    requires
        utxos.wf(),
        same_entries(utxos@, u@),
        fee_computable(u@, t@),
    ensures
        r == fee(u@, t@),
{
    let a = sum_input_values(utxos, t, u);
    let b = sum_output_values(t);
    a - b
}

fn sort_by_fee_in_place(pool: &mut Vec<(Timestamp, Transaction)>, utxos: &UtxoSet, u: Ghost<UtxoMap>)
    requires
        utxos.wf(),
        same_entries(utxos@, u@),
        forall|i: int|
            0 <= i < old(pool)@.len() ==> fee_computable(u@, #[trigger] pool_view(old(pool)@)[i].1),
    ensures
        pool_view(final(pool)@) == sort_by_fee(u@, pool_view(old(pool)@)),
{
    let ghost orig = pool_view(pool@);
    let n = pool.len();
    let mut keys: Vec<u64> = Vec::new();
    let mut q: usize = 0;
    while q < n
        invariant
            utxos.wf(),
            same_entries(utxos@, u@),
            n == pool@.len(),
            orig == pool_view(pool@),
            forall|i: int| 0 <= i < n ==> fee_computable(u@, #[trigger] orig[i].1),
            q <= n,
            keys@.len() == q,
            forall|k: int| 0 <= k < q ==> keys@[k] == fee(u@, #[trigger] orig[k].1),
        decreases n - q,
    {
        assert(orig[q as int].1 == pool@[q as int].1@);
        assert(fee_computable(u@, orig[q as int].1));
        let f = fee_of(utxos, &pool[q].1, u);
        keys.push(f);
        q += 1;
    }
    let mut i: usize = 0;
    assert(orig.take(0) =~= Seq::<(Timestamp, TransactionView)>::empty());
    assert(pool_view(pool@).take(0) =~= Seq::<(Timestamp, TransactionView)>::empty());
    assert(pool_view(pool@).skip(0) =~= orig.skip(0));
    while i < n
        invariant
            n == orig.len(),
            pool@.len() == n,
            keys@.len() == n,
            i <= n,
            pool_view(pool@).take(i as int) == sort_by_fee(u@, orig.take(i as int)),
            pool_view(pool@).skip(i as int) == orig.skip(i as int),
            forall|k: int| 0 <= k < n ==> keys@[k] == fee(u@, #[trigger] pool_view(pool@)[k].1),
        decreases n - i,
    {
        let ghost pv = pool_view(pool@);
        let ghost sorted = pv.take(i as int);
        let key = keys[i];
        assert(pv[i as int] == pv.skip(i as int)[0]);
        assert(pv[i as int] == orig[i as int]);
        assert(key == fee(u@, orig[i as int].1));
        let mut k: usize = i;
        assert(sorted.take(i as int) =~= sorted);
        while k > 0 && keys[k - 1] < key
            invariant
                k <= i < n,
                keys@.len() == n,
                pv == pool_view(pool@),
                pv.len() == n,
                sorted == pv.take(i as int),
                sorted.len() == i,
                forall|x: int| 0 <= x < n ==> keys@[x] == fee(u@, #[trigger] pv[x].1),
                insert_pos(u@, sorted, key as int) == insert_pos(u@, sorted.take(k as int), key as int),
            decreases k,
        {
            assert(sorted.take(k as int).drop_last() =~= sorted.take(k - 1));
            assert(sorted.take(k as int).last() == pv[k - 1]);
            k -= 1;
        }
        proof {
            if k > 0 {
                assert(sorted.take(k as int).last() == pv[k - 1]);
                assert(sorted.take(k as int).len() == k);
            } else {
                assert(sorted.take(0) =~= Seq::<(Timestamp, TransactionView)>::empty());
            }
        }
        assert(insert_pos(u@, sorted, key as int) == k);
        let ghost ok = keys@;
        let e = pool.remove(i);
        pool.insert(k, e);
        let kk = keys.remove(i);
        keys.insert(k, kk);
        proof {
            let npv = pool_view(pool@);
            assert(npv =~= pv.remove(i as int).insert(k as int, pv[i as int]));
            assert(orig.take(i + 1).drop_last() =~= orig.take(i as int));
            assert(orig.take(i + 1).last() == orig[i as int]);
            assert(npv.take(i + 1) =~= sorted.insert(k as int, orig[i as int]));
            assert forall|x: int| i <= x < n implies pv[x] == orig[x] by {
                assert(pv.skip(i as int)[x - i] == orig.skip(i as int)[x - i]);
            }
            assert(npv.skip(i + 1) =~= orig.skip(i + 1));
            assert(keys@ =~= ok.remove(i as int).insert(k as int, ok[i as int]));
            assert forall|x: int| 0 <= x < n implies keys@[x] == fee(u@, #[trigger] npv[x].1) by {
                if x < k {
                    assert(keys@[x] == ok[x] && npv[x] == pv[x]);
                } else if x == k {
                    assert(keys@[x] == ok[i as int] && npv[x] == pv[i as int]);
                } else if x <= i {
                    assert(keys@[x] == ok[x - 1] && npv[x] == pv[x - 1]);
                } else {
                    assert(keys@[x] == ok[x] && npv[x] == pv[x]);
                }
            }
        }
        i += 1;
    }
    assert(orig.take(n as int) =~= orig);
    assert(pool_view(pool@).take(n as int) =~= pool_view(pool@));
}

/// Whether an entry that arrived at `ts` is older, at `now`, than a mempool transaction
/// may be.
pub open spec fn expired(now: Timestamp, ts: Timestamp) -> bool {
    nanos_between(now, ts) > MAXIMUM_MEMPOOL_TRANSACTION_AGE * 1_000_000_000
}

/// The mempool entries that have not expired at `now`, in order.
pub open spec fn kept_entries(m: Pool, now: Timestamp) -> Pool
    decreases m.len(),
{
    if m.len() == 0 {
        m
    } else {
        let r = kept_entries(m.drop_last(), now);
        if expired(now, m.last().0) {
            r
        } else {
            r.push(m.last())
        }
    }
}

/// The outputs that the expired entries spend, in order.
pub open spec fn expired_prevs(m: Pool, now: Timestamp) -> Seq<Seq<u8>>
    decreases m.len(),
{
    if m.len() == 0 {
        Seq::empty()
    } else {
        let r = expired_prevs(m.drop_last(), now);
        if expired(now, m.last().0) {
            r + input_prevs(m.last().1)
        } else {
            r
        }
    }
}

/// The hashes of a block's transactions.
pub open spec fn block_tx_hashes(b: BlockView) -> Seq<Seq<u8>> {
    b.transactions.map_values(|t: TransactionView| transaction_hash(t))
}

/// The mempool without the transactions whose hashes are in `hs`, in order.
pub open spec fn pool_without(m: Pool, hs: Seq<Seq<u8>>) -> Pool
    decreases m.len(),
{
    if m.len() == 0 {
        m
    } else {
        let r = pool_without(m.drop_last(), hs);
        if hs.contains(transaction_hash(m.last().1)) {
            r
        } else {
            r.push(m.last())
        }
    }
}

/// Why a block is refused, if it is: the first failed check of its header, then of its
/// transactions.
pub open spec fn block_outcome(c: ChainView, b: BlockView) -> Option<BtcError> {
    match header_check(c.blocks, b) {
        Some(e) => Some(e),
        None => match verify_outcome(b.transactions, c.utxos) {
            Check::Refused(e) => Some(e),
            _ => None,
        },
    }
}

/// The blocks whose transactions cannot be checked in `u64`: a sum of values leaves its
/// range before the checks decide.
pub open spec fn block_overflows(c: ChainView, b: BlockView) -> bool {
    header_check(c.blocks, b) is None && verify_outcome(b.transactions, c.utxos) is Overflow
}

/// The stored outputs locked to `key`, each with its mark, in stored order.
pub open spec fn outputs_for_key(entries: Seq<UtxoEntryView>, key: Seq<u8>) -> Seq<(OutputView, bool)>
    decreases entries.len(),
{
    if entries.len() == 0 {
        Seq::empty()
    } else {
        let r = outputs_for_key(entries.drop_last(), key);
        let e = entries.last();
        if e.1.1.pubkey == key {
            r.push((e.1.1, e.1.0))
        } else {
            r
        }
    }
}

proof fn lemma_outputs_for_key_sound(s: Seq<UtxoEntryView>, key: Seq<u8>, i: int)
    requires
        0 <= i < outputs_for_key(s, key).len(),
    ensures
        outputs_for_key(s, key)[i].0.pubkey == key,
        exists|j: int|
            0 <= j < s.len() && s[j].1 == (outputs_for_key(s, key)[i].1, outputs_for_key(s, key)[i].0),
    decreases s.len(),
{
    let d = s.drop_last();
    let r = outputs_for_key(d, key);
    if i < r.len() {
        lemma_outputs_for_key_sound(d, key, i);
        assert(outputs_for_key(s, key)[i] == r[i]);
        let j = choose|j: int| 0 <= j < d.len() && d[j].1 == (r[i].1, r[i].0);
        assert(s[j] == d[j]);
    } else {
        assert(s[s.len() - 1] == s.last());
    }
}

proof fn lemma_outputs_for_key_complete(s: Seq<UtxoEntryView>, key: Seq<u8>, j: int)
    requires
        0 <= j < s.len(),
        s[j].1.1.pubkey == key,
    ensures
        exists|i: int|
            0 <= i < outputs_for_key(s, key).len() && outputs_for_key(s, key)[i] == (s[j].1.1, s[j].1.0),
    decreases s.len(),
{
    let d = s.drop_last();
    let r = outputs_for_key(d, key);
    let o = outputs_for_key(s, key);
    if j < s.len() - 1 {
        assert(d[j] == s[j]);
        lemma_outputs_for_key_complete(d, key, j);
        let i = choose|i: int| 0 <= i < r.len() && r[i] == (d[j].1.1, d[j].1.0);
        assert(o[i] == r[i]);
    } else {
        assert(o[o.len() - 1] == (s[j].1.1, s[j].1.0));
    }
}

/// The outputs reported for a key are exactly the stored outputs locked to that key, each
/// with the mark stored for it: every reported pair is a stored entry's output and mark,
/// and every stored output locked to the key is reported with its mark.
pub proof fn lemma_outputs_for_key_marks(s: Seq<UtxoEntryView>, key: Seq<u8>)
    requires
        crate::utxo::keys_distinct(s),
    ensures
        forall|i: int|
            0 <= i < outputs_for_key(s, key).len() ==> (#[trigger] outputs_for_key(s, key)[i]).0.pubkey
                == key && exists|k: Seq<u8>|
                crate::utxo::entries_map(s).contains_key(k) && crate::utxo::entries_map(s)[k] == (
                    outputs_for_key(s, key)[i].1,
                    outputs_for_key(s, key)[i].0,
                ),
        forall|k: Seq<u8>|
            #[trigger] crate::utxo::entries_map(s).contains_key(k) && crate::utxo::entries_map(
                s,
            )[k].1.pubkey == key ==> exists|i: int|
                0 <= i < outputs_for_key(s, key).len() && outputs_for_key(s, key)[i] == (
                    crate::utxo::entries_map(s)[k].1,
                    crate::utxo::entries_map(s)[k].0,
                ),
{
    let o = outputs_for_key(s, key);
    let mp = crate::utxo::entries_map(s);
    assert forall|i: int| 0 <= i < o.len() implies (#[trigger] o[i]).0.pubkey == key && exists|
        k: Seq<u8>,
    | mp.contains_key(k) && mp[k] == (o[i].1, o[i].0) by {
        lemma_outputs_for_key_sound(s, key, i);
        let j = choose|j: int| 0 <= j < s.len() && s[j].1 == (o[i].1, o[i].0);
        crate::utxo::lemma_entries_map_index(s, j);
    }
    assert forall|k: Seq<u8>| #[trigger] mp.contains_key(k) && mp[k].1.pubkey == key implies exists|
        i: int,
    | 0 <= i < o.len() && o[i] == (mp[k].1, mp[k].0) by {
        crate::utxo::lemma_entries_map_dom(s, k);
        let j = choose|j: int| 0 <= j < s.len() && s[j].0 == k;
        crate::utxo::lemma_entries_map_index(s, j);
        lemma_outputs_for_key_complete(s, key, j);
    }
}

/// The hash a new block must link to: the hash of the last block, or the zero hash.
pub open spec fn tip(blocks: Seq<BlockView>) -> Seq<u8> {
    if blocks.len() > 0 {
        block_hash(blocks.last())
    } else {
        crate::sha256::zero_bytes()
    }
}

/// The transaction that pays the miner: no inputs and one output of `value`.
pub open spec fn coinbase(pubkey: Seq<u8>, unique_id: u128, value: u64) -> TransactionView {
    TransactionView {
        inputs: Seq::empty(),
        outputs: seq![OutputView { value, unique_id, pubkey }],
    }
}

/// The mempool transactions a block template takes: the first ones, at most
/// `BLOCK_TRANSACTION_CAP` of them.
pub open spec fn template_picks(m: Pool) -> Seq<TransactionView> {
    let n = if m.len() < BLOCK_TRANSACTION_CAP {
        m.len() as int
    } else {
        BLOCK_TRANSACTION_CAP as int
    };
    m.take(n).map_values(|e: (Timestamp, TransactionView)| e.1)
}

/// What the transactions leave to the miner together: the sum of their fees.
pub open spec fn fees_total(u: UtxoMap, txs: Seq<TransactionView>) -> int
    decreases txs.len(),
{
    if txs.len() == 0 {
        0
    } else {
        fees_total(u, txs.drop_last()) + fee(u, txs.last())
    }
}

/// The miner fee of `txs` can be computed in `u64`: each fee can, and so can their sum.
pub open spec fn fees_computable(u: UtxoMap, txs: Seq<TransactionView>) -> bool {
    &&& forall|i: int| 0 <= i < txs.len() ==> fee_computable(u, #[trigger] txs[i])
    &&& fees_total(u, txs) <= u64::MAX
}

/// The transactions of a block template: the coinbase paying `value`, then the picked
/// mempool transactions.
pub open spec fn template_transactions(m: Pool, pubkey: Seq<u8>, unique_id: u128, value: u64) -> Seq<
    TransactionView,
> {
    seq![coinbase(pubkey, unique_id, value)] + template_picks(m)
}

/// With every fee computable, a prefix's fees add up to no more than all of them.
proof fn lemma_fees_total_prefix(u: UtxoMap, txs: Seq<TransactionView>, k: int)
    requires
        0 <= k <= txs.len(),
        forall|i: int| 0 <= i < txs.len() ==> fee_computable(u, #[trigger] txs[i]),
    ensures
        fees_total(u, txs.take(k)) <= fees_total(u, txs),
    decreases txs.len(),
{
    if k < txs.len() {
        let d = txs.drop_last();
        assert(fee_computable(u, txs[txs.len() - 1]));
        assert forall|i: int| 0 <= i < d.len() implies fee_computable(u, #[trigger] d[i]) by {
            assert(d[i] == txs[i]);
        }
        assert(d.take(k) =~= txs.take(k));
        lemma_fees_total_prefix(u, d, k);
    } else {
        assert(txs.take(k) =~= txs);
    }
}

/// The mempool is ordered by decreasing fee.
pub open spec fn sorted_by_fee(u: UtxoMap, s: Pool) -> bool {
    forall|i: int, j: int| 0 <= i < j < s.len() ==> fee(u, s[i].1) >= fee(u, s[j].1)
}

pub proof fn lemma_insert_pos(u: UtxoMap, s: Pool, k: int)
    requires
        sorted_by_fee(u, s),
    ensures
        0 <= insert_pos(u, s, k) <= s.len(),
        forall|i: int| 0 <= i < insert_pos(u, s, k) ==> fee(u, #[trigger] s[i].1) >= k,
        forall|i: int| insert_pos(u, s, k) <= i < s.len() ==> fee(u, #[trigger] s[i].1) < k,
    decreases s.len(),
{
    if s.len() > 0 {
        let d = s.drop_last();
        assert(sorted_by_fee(u, d)) by {
            assert forall|i: int, j: int| 0 <= i < j < d.len() implies fee(u, d[i].1) >= fee(
                u,
                d[j].1,
            ) by {
                assert(d[i] == s[i] && d[j] == s[j]);
            }
        }
        if fee(u, s.last().1) < k {
            lemma_insert_pos(u, d, k);
            assert forall|i: int| 0 <= i < insert_pos(u, s, k) implies fee(u, #[trigger] s[i].1)
                >= k by {
                assert(d[i] == s[i]);
            }
            assert forall|i: int| insert_pos(u, s, k) <= i < s.len() implies fee(
                u,
                #[trigger] s[i].1,
            ) < k by {
                if i < d.len() {
                    assert(d[i] == s[i]);
                }
            }
        } else {
            assert forall|i: int| 0 <= i < s.len() implies fee(u, #[trigger] s[i].1) >= k by {
                if i < s.len() - 1 {
                    assert(fee(u, s[i].1) >= fee(u, s[s.len() - 1].1));
                }
            }
        }
    }
}

/// Sorting by fee yields a list ordered by decreasing fee holding the same entries.
pub proof fn lemma_sort_by_fee(u: UtxoMap, s: Pool)
    ensures
        sorted_by_fee(u, sort_by_fee(u, s)),
        sort_by_fee(u, s).to_multiset() == s.to_multiset(),
        sort_by_fee(u, s).len() == s.len(),
    decreases s.len(),
{
    broadcast use vstd::seq_lib::group_to_multiset_ensures;

    if s.len() > 0 {
        let r = sort_by_fee(u, s.drop_last());
        lemma_sort_by_fee(u, s.drop_last());
        let k = fee(u, s.last().1);
        let p = insert_pos(u, r, k);
        lemma_insert_pos(u, r, k);
        let t = r.insert(p, s.last());
        assert forall|i: int, j: int| 0 <= i < j < t.len() implies fee(u, t[i].1) >= fee(
            u,
            t[j].1,
        ) by {
            if j < p {
                assert(t[i] == r[i] && t[j] == r[j]);
            } else if j == p {
                assert(t[i] == r[i]);
            } else if i < p {
                assert(t[i] == r[i] && t[j] == r[j - 1]);
            } else if i == p {
                assert(t[j] == r[j - 1]);
            } else {
                assert(t[i] == r[i - 1] && t[j] == r[j - 1]);
            }
        }
        let e = s.last();
        assert(t.remove(p) =~= r);
        assert(t[p] == e);
        assert(t.contains(e));
        assert(t.to_multiset().count(e) > 0);
        assert(t.to_multiset() =~= r.to_multiset().insert(e));
        assert(s =~= s.drop_last().push(e));
    }
}

/// An accepted transaction meets the rules: every input spends a known output, no output
/// is spent twice, it pays out no more than it brings in; afterwards every output it
/// spends is marked, it waits in the mempool, and the mempool is ordered by decreasing fee.
pub proof fn lemma_accepted_transaction(u: UtxoMap, m: Pool, t: TransactionView, now: Timestamp)
    requires
        mempool_add(u, m, t, now).0 is Ok,
    ensures
        inputs_acceptable(u, t),
        input_sum(u, input_prevs(t)) >= output_sum(t.outputs),
        forall|i: int|
            0 <= i < t.inputs.len() ==> #[trigger] mempool_add(u, m, t, now).1[t.inputs[i].prev].0,
        mempool_add(u, m, t, now).2.contains((now, t)),
        sorted_by_fee(u, mempool_add(u, m, t, now).2),
{
    broadcast use vstd::seq_lib::group_to_multiset_ensures;

    let ps = input_prevs(t);
    let r = release(u, m, ps);
    lemma_release_same(u, m, ps);
    assert forall|i: int| 0 <= i < t.inputs.len() implies #[trigger] mempool_add(
        u,
        m,
        t,
        now,
    ).1[t.inputs[i].prev].0 by {
        assert(ps[i] == t.inputs[i].prev);
        assert(r.0.contains_key(ps[i]));
        lemma_set_marks_marks(r.0, ps, true, i);
    }
    let pushed = r.1.push((now, t));
    lemma_sort_by_fee(u, pushed);
    assert(pushed[pushed.len() - 1] == (now, t));
    assert(pushed.to_multiset().count((now, t)) > 0);
}

/// After `set_marks`, each key of `ps` that the map holds carries the mark.
pub proof fn lemma_set_marks_marks(u: UtxoMap, ps: Seq<Seq<u8>>, marked: bool, i: int)
    requires
        0 <= i < ps.len(),
        u.contains_key(ps[i]),
    ensures
        set_marks(u, ps, marked).contains_key(ps[i]),
        set_marks(u, ps, marked)[ps[i]].0 == marked,
    decreases ps.len(),
{
    lemma_set_marks_same(u, ps.drop_last(), marked);
    if i < ps.len() - 1 {
        assert(ps.drop_last()[i] == ps[i]);
        lemma_set_marks_marks(u, ps.drop_last(), marked, i);
    }
}

/// The target an adjustment leaves is never easier than the easiest target, and stays
/// within a factor of four of the target before it.
pub proof fn lemma_target_adjustment_bounds(blocks: Seq<BlockView>, target: nat)
    requires
        target <= min_target_value(),
    ensures
        target_after_adjust(blocks, target) <= min_target_value(),
        target / 4 <= target_after_adjust(blocks, target) <= target * 4,
{
}

/// The blocks link up: the first to the zero hash, each later one to the hash of the block
/// before it, with strictly increasing timestamps.
pub open spec fn chain_linked(blocks: Seq<BlockView>) -> bool {
    &&& blocks.len() > 0 ==> blocks[0].header.previous_hash == crate::sha256::zero_bytes()
    &&& forall|i: int|
        0 < i < blocks.len() ==> #[trigger] blocks[i].header.previous_hash == block_hash(
            blocks[i - 1],
        ) && crate::time::is_before(blocks[i - 1].header.timestamp, blocks[i].header.timestamp)
}

/// The blocks after offering `b` to the chain: `b` appended when accepted, else as they were.
pub open spec fn blocks_after(c: ChainView, b: BlockView) -> Seq<BlockView> {
    if block_outcome(c, b) is None {
        c.blocks.push(b)
    } else {
        c.blocks
    }
}

/// Offering a block keeps a linked chain linked, whether the block is accepted or refused:
/// a block that passes the link checks of its header may be appended, whatever its
/// transactions hold.
pub proof fn lemma_add_block_keeps_chain_linked(c: ChainView, b: BlockView)
    requires
        chain_linked(c.blocks),
    ensures
        link_check(c.blocks, b) is None ==> chain_linked(c.blocks.push(b)),
        chain_linked(blocks_after(c, b)),
{
    if link_check(c.blocks, b) is None {
        lemma_linked_push(c.blocks, b);
    }
}

proof fn lemma_linked_push(blocks: Seq<BlockView>, b: BlockView)
    requires
        chain_linked(blocks),
        link_check(blocks, b) is None,
    ensures
        chain_linked(blocks.push(b)),
{
    let n = blocks.push(b);
    assert forall|i: int| 0 < i < n.len() implies #[trigger] n[i].header.previous_hash
        == block_hash(n[i - 1]) && crate::time::is_before(
        n[i - 1].header.timestamp,
        n[i].header.timestamp,
    ) by {
        if i < blocks.len() {
            assert(n[i] == blocks[i] && n[i - 1] == blocks[i - 1]);
        } else {
            assert(n[i - 1] == blocks.last());
        }
    }
}

/// After a cleanup no entry left in the mempool has expired, and every entry that had not
/// expired is still there.
pub proof fn lemma_cleanup_keeps_fresh(m: Pool, now: Timestamp)
    ensures
        forall|i: int|
            0 <= i < kept_entries(m, now).len() ==> !expired(now, #[trigger] kept_entries(m, now)[i].0),
        forall|i: int| 0 <= i < m.len() && !expired(now, #[trigger] m[i].0) ==> kept_entries(
            m,
            now,
        ).contains(m[i]),
    decreases m.len(),
{
    if m.len() > 0 {
        let d = m.drop_last();
        lemma_cleanup_keeps_fresh(d, now);
        let r = kept_entries(d, now);
        assert forall|i: int| 0 <= i < m.len() && !expired(now, #[trigger] m[i].0) implies kept_entries(
            m,
            now,
        ).contains(m[i]) by {
            if i < d.len() {
                assert(d[i] == m[i]);
                let j = choose|j: int| 0 <= j < r.len() && r[j] == d[i];
                if !expired(now, m.last().0) {
                    assert(r.push(m.last())[j] == r[j]);
                }
            } else {
                assert(r.push(m.last())[r.len() as int] == m[i]);
            }
        }
        assert forall|i: int| 0 <= i < kept_entries(m, now).len() implies !expired(
            now,
            #[trigger] kept_entries(m, now)[i].0,
        ) by {
            if i < r.len() {
                assert(kept_entries(m, now)[i] == r[i]);
            }
        }
    }
}

fn inputs_acceptable_exec(utxos: &UtxoSet, transaction: &Transaction) -> (r: bool)
    requires
        utxos.wf(),
    ensures
        r == inputs_acceptable(utxos@, transaction@),
{
    let ghost t = transaction@;
    let ghost u0 = utxos@;
    let ghost ps = input_prevs(t);
    let mut known: Vec<crate::sha256::Hash> = Vec::new();
    let mut j: usize = 0;
    assert(ps.take(0) =~= Seq::<Seq<u8>>::empty());
    assert(crate::types::prevs_of(known@) =~= Seq::<Seq<u8>>::empty());
    while j < transaction.inputs.len()
        invariant
            utxos.wf(),
            t == transaction@,
            u0 == utxos@,
            ps == input_prevs(t),
            j <= ps.len(),
            crate::types::prevs_of(known@) == ps.take(j as int),
            forall|i: int| 0 <= i < j ==> u0.contains_key(#[trigger] t.inputs[i].prev),
            ps.take(j as int).no_duplicates(),
        decreases ps.len() - j,
    {
        let p = &transaction.inputs[j].prev_transaction_output_hash;
        assert(t.inputs[j as int].prev == p@);
        assert(ps[j as int] == p@);
        if !utxos.contains_key(p) {
            assert(!u0.contains_key(t.inputs[j as int].prev));
            return false;
        }
        if crate::types::contains_hash(&known, p) {
            proof {
                let x = choose|x: int| 0 <= x < ps.take(j as int).len() && ps.take(j as int)[x] == p@;
                assert(ps[x] == ps[j as int]);
            }
            return false;
        }
        let ghost before = crate::types::prevs_of(known@);
        let ghost kv = known@;
        known.push(*p);
        proof {
            crate::types::lemma_prevs_of_push(kv, *p);
        }
        assert(ps.take(j + 1) =~= ps.take(j as int).push(p@));
        let ghost nt = ps.take(j + 1);
        assert forall|a: int, b: int|
            #![trigger nt[a], nt[b]]
            0 <= a < nt.len() && 0 <= b < nt.len() && a != b implies nt[a] != nt[b] by {
            if a == j {
                assert(!ps.take(j as int).contains(p@));
                assert(ps.take(j as int)[b] == nt[b]);
            } else if b == j {
                assert(!ps.take(j as int).contains(p@));
                assert(ps.take(j as int)[a] == nt[a]);
            } else {
                assert(ps.take(j as int)[a] == nt[a]);
                assert(ps.take(j as int)[b] == nt[b]);
            }
        }
        j += 1;
    }
    assert(ps.take(ps.len() as int) =~= ps);
    true
}

/// The fee of `t` under `utxos`, or `None` when it cannot be computed in `u64`.
pub fn fee_checked(utxos: &UtxoSet, t: &Transaction) -> (r: Option<u64>)
    requires
        utxos.wf(),
    ensures
        r is Some <==> fee_computable(utxos@, t@),
        r matches Some(f) ==> f == fee(utxos@, t@),
{
    let ghost u = utxos@;
    let ghost ps = input_prevs(t@);
    let mut acc: u64 = 0;
    let mut q: usize = 0;
    assert(ps.take(0) =~= Seq::<Seq<u8>>::empty());
    while q < t.inputs.len()
        invariant
            utxos.wf(),
            u == utxos@,
            ps == input_prevs(t@),
            q <= ps.len(),
            acc == input_sum(u, ps.take(q as int)),
            forall|i: int| 0 <= i < q ==> u.contains_key(#[trigger] t@.inputs[i].prev),
        decreases ps.len() - q,
    {
        let p = &t.inputs[q].prev_transaction_output_hash;
        assert(ps[q as int] == p@);
        assert(t@.inputs[q as int].prev == p@);
        assert(ps.take(q + 1).drop_last() =~= ps.take(q as int));
        match utxos.get(p) {
            None => {
                return None;
            },
            Some((_, out)) => {
                match acc.checked_add(out.value) {
                    None => {
                        proof {
                            lemma_input_sum_prefix(u, ps, q + 1);
                        }
                        return None;
                    },
                    Some(v) => {
                        acc = v;
                    },
                }
            },
        }
        q += 1;
    }
    assert(ps.take(ps.len() as int) =~= ps);
    let ghost os = t@.outputs;
    let mut out_acc: u64 = 0;
    let mut k: usize = 0;
    assert(os.take(0) =~= Seq::<OutputView>::empty());
    while k < t.outputs.len()
        invariant
            os == t@.outputs,
            k <= os.len(),
            out_acc == output_sum(os.take(k as int)),
        decreases os.len() - k,
    {
        assert(os.take(k + 1).drop_last() =~= os.take(k as int));
        assert(os[k as int] == t.outputs@[k as int]@);
        match out_acc.checked_add(t.outputs[k].value) {
            None => {
                proof {
                    lemma_output_sum_prefix(os, k + 1);
                }
                return None;
            },
            Some(v) => {
                out_acc = v;
            },
        }
        k += 1;
    }
    assert(os.take(os.len() as int) =~= os);
    if acc < out_acc {
        None
    } else {
        Some(acc - out_acc)
    }
}

fn checked_input_sum(utxos: &UtxoSet, t: &Transaction) -> (r: Option<u64>)
    requires
        utxos.wf(),
        forall|i: int| 0 <= i < t@.inputs.len() ==> utxos@.contains_key(#[trigger] t@.inputs[i].prev),
    ensures
        r is None <==> input_sum(utxos@, input_prevs(t@)) > u64::MAX,
        r matches Some(v) ==> v == input_sum(utxos@, input_prevs(t@)),
{
    let ghost u = utxos@;
    let ghost ps = input_prevs(t@);
    let mut acc: u64 = 0;
    let mut q: usize = 0;
    assert(ps.take(0) =~= Seq::<Seq<u8>>::empty());
    while q < t.inputs.len()
        invariant
            utxos.wf(),
            u == utxos@,
            forall|i: int| 0 <= i < t@.inputs.len() ==> u.contains_key(#[trigger] t@.inputs[i].prev),
            ps == input_prevs(t@),
            q <= ps.len(),
            acc == input_sum(u, ps.take(q as int)),
        decreases ps.len() - q,
    {
        let p = &t.inputs[q].prev_transaction_output_hash;
        assert(ps[q as int] == p@);
        assert(t@.inputs[q as int].prev == p@);
        assert(ps.take(q + 1).drop_last() =~= ps.take(q as int));
        proof {
            lemma_input_sum_prefix(u, ps, q + 1);
        }
        match utxos.get(p) {
            None => {
                assert(false);
                return None;
            },
            Some((_, out)) => {
                match acc.checked_add(out.value) {
                    None => {
                        return None;
                    },
                    Some(v) => {
                        acc = v;
                    },
                }
            },
        }
        q += 1;
    }
    assert(ps.take(ps.len() as int) =~= ps);
    Some(acc)
}

fn checked_output_sum(t: &Transaction) -> (r: Option<u64>)
    ensures
        r is None <==> output_sum(t@.outputs) > u64::MAX,
        r matches Some(v) ==> v == output_sum(t@.outputs),
{
    let ghost os = t@.outputs;
    let mut acc: u64 = 0;
    let mut k: usize = 0;
    assert(os.take(0) =~= Seq::<OutputView>::empty());
    while k < t.outputs.len()
        invariant
            os == t@.outputs,
            k <= os.len(),
            acc == output_sum(os.take(k as int)),
        decreases os.len() - k,
    {
        assert(os.take(k + 1).drop_last() =~= os.take(k as int));
        assert(os[k as int] == t.outputs@[k as int]@);
        proof {
            lemma_output_sum_prefix(os, k + 1);
        }
        match acc.checked_add(t.outputs[k].value) {
            None => {
                return None;
            },
            Some(v) => {
                acc = v;
            },
        }
        k += 1;
    }
    assert(os.take(os.len() as int) =~= os);
    Some(acc)
}

/// The outputs all of a list of transactions spend, in order.
pub open spec fn all_prevs(txs: Seq<TransactionView>) -> Seq<Seq<u8>>
    decreases txs.len(),
{
    if txs.len() == 0 {
        Seq::empty()
    } else {
        all_prevs(txs.drop_last()) + input_prevs(txs.last())
    }
}

pub proof fn lemma_check_inputs_passed(
    inputs: Seq<InputView>,
    u: UtxoMap,
    used: Seq<Seq<u8>>,
    used2: Seq<Seq<u8>>,
    sum: int,
)
    requires
        check_inputs(inputs, u, used) == Check::Passed(used2, sum),
        used.no_duplicates(),
    ensures
        forall|i: int| 0 <= i < inputs.len() ==> u.contains_key(#[trigger] inputs[i].prev),
        sum == input_sum(u, inputs.map_values(|i: InputView| i.prev)),
        used2 == used + inputs.map_values(|i: InputView| i.prev),
        used2.no_duplicates(),
    decreases inputs.len(),
{
    let ps = inputs.map_values(|i: InputView| i.prev);
    if inputs.len() == 0 {
        assert(used + ps =~= used);
    } else {
        let d = inputs.drop_last();
        match check_inputs(d, u, used) {
            Check::Passed(u1, s1) => {
                lemma_check_inputs_passed(d, u, used, u1, s1);
                let p = inputs.last().prev;
                assert(d.map_values(|i: InputView| i.prev) =~= ps.drop_last());
                assert(used2 == u1.push(p));
                assert(used + ps =~= u1.push(p));
                assert forall|i: int| 0 <= i < inputs.len() implies u.contains_key(
                    #[trigger] inputs[i].prev,
                ) by {
                    if i < d.len() {
                        assert(d[i] == inputs[i]);
                    }
                }
                assert forall|a: int, b: int|
                    #![trigger used2[a], used2[b]]
                    0 <= a < used2.len() && 0 <= b < used2.len() && a != b implies used2[a]
                    != used2[b] by {
                    if a == used2.len() - 1 {
                        assert(u1[b] == used2[b]);
                    } else if b == used2.len() - 1 {
                        assert(u1[a] == used2[a]);
                    } else {
                        assert(u1[a] == used2[a] && u1[b] == used2[b]);
                    }
                }
            },
            _ => {},
        }
    }
}

pub proof fn lemma_check_outputs_passed(
    outs: Seq<OutputView>,
    input_sum: int,
    tag: Seq<Seq<u8>>,
    sum: int,
)
    requires
        check_outputs(outs, input_sum) == Check::Passed(tag, sum),
        input_sum >= 0,
    ensures
        sum == output_sum(outs),
        sum <= input_sum,
    decreases outs.len(),
{
    if outs.len() > 0 {
        match check_outputs(outs.drop_last(), input_sum) {
            Check::Passed(t1, s1) => {
                lemma_check_outputs_passed(outs.drop_last(), input_sum, t1, s1);
            },
            _ => {},
        }
    }
}

/// A block whose transactions pass the checks spends only known outputs, spends no output
/// twice, and none of its transactions pays out more than its inputs bring in.
pub proof fn lemma_checked_transactions_spend_only_what_exists(
    txs: Seq<TransactionView>,
    u: UtxoMap,
    used: Seq<Seq<u8>>,
    z: int,
)
    requires
        check_transactions(txs, u) == Check::Passed(used, z),
    ensures
        used == all_prevs(txs),
        used.no_duplicates(),
        forall|k: int, i: int|
            0 <= k < txs.len() && 0 <= i < txs[k].inputs.len() ==> u.contains_key(
                #[trigger] txs[k].inputs[i].prev,
            ),
        forall|k: int|
            0 <= k < txs.len() ==> output_sum(#[trigger] txs[k].outputs) <= input_sum(
                u,
                input_prevs(txs[k]),
            ),
    decreases txs.len(),
{
    if txs.len() > 0 {
        let d = txs.drop_last();
        let t = txs.last();
        match check_transactions(d, u) {
            Check::Passed(u1, z1) => {
                lemma_checked_transactions_spend_only_what_exists(d, u, u1, z1);
                match check_inputs(t.inputs, u, u1) {
                    Check::Passed(u2, s) => {
                        lemma_check_inputs_passed(t.inputs, u, u1, u2, s);
                        assert(input_prevs(t) =~= t.inputs.map_values(|i: InputView| i.prev));
                        lemma_input_sum_prefix(u, input_prevs(t), 0);
                        assert(input_prevs(t).take(0) =~= Seq::<Seq<u8>>::empty());
                        match check_outputs(t.outputs, s) {
                            Check::Passed(t3, s3) => {
                                lemma_check_outputs_passed(t.outputs, s, t3, s3);
                            },
                            _ => {},
                        }
                        assert forall|k: int, i: int|
                            0 <= k < txs.len() && 0 <= i < txs[k].inputs.len() implies u.contains_key(
                            #[trigger] txs[k].inputs[i].prev,
                        ) by {
                            if k < d.len() {
                                assert(d[k] == txs[k]);
                            }
                        }
                        assert forall|k: int| 0 <= k < txs.len() implies output_sum(
                            #[trigger] txs[k].outputs,
                        ) <= input_sum(u, input_prevs(txs[k])) by {
                            if k < d.len() {
                                assert(d[k] == txs[k]);
                            }
                        }
                    },
                    _ => {},
                }
            },
            _ => {},
        }
    }
}

/// No output is spent by two different pending transactions.
pub open spec fn pool_disjoint(m: Pool) -> bool {
    forall|a: int, b: int, j: int, k: int|
        0 <= a < m.len() && 0 <= b < m.len() && a != b && 0 <= j < m[a].1.inputs.len() && 0 <= k
            < m[b].1.inputs.len() ==> #[trigger] m[a].1.inputs[j].prev
            != #[trigger] m[b].1.inputs[k].prev
}

/// Every output a pending transaction spends is a known output marked as spent.
pub open spec fn pool_marked(u: UtxoMap, m: Pool) -> bool {
    forall|a: int, j: int|
        0 <= a < m.len() && 0 <= j < m[a].1.inputs.len() ==> u.contains_key(
            #[trigger] m[a].1.inputs[j].prev,
        ) && u[m[a].1.inputs[j].prev].0
}

/// Setting marks of other keys leaves the entry of `q` as it was.
pub proof fn lemma_set_marks_other(u: UtxoMap, ps: Seq<Seq<u8>>, marked: bool, q: Seq<u8>)
    requires
        !ps.contains(q),
    ensures
        set_marks(u, ps, marked).contains_key(q) == u.contains_key(q),
        u.contains_key(q) ==> set_marks(u, ps, marked)[q] == u[q],
    decreases ps.len(),
{
    if ps.len() > 0 {
        assert(!ps.drop_last().contains(q)) by {
            if ps.drop_last().contains(q) {
                let i = choose|i: int| 0 <= i < ps.drop_last().len() && ps.drop_last()[i] == q;
                assert(ps[i] == q);
            }
        }
        assert(ps[ps.len() - 1] != q);
        lemma_set_marks_other(u, ps.drop_last(), marked, q);
    }
}

/// Marking keys as spent never unmarks one.
pub proof fn lemma_set_marks_true_keeps(u: UtxoMap, ps: Seq<Seq<u8>>, q: Seq<u8>)
    requires
        u.contains_key(q),
        u[q].0,
    ensures
        set_marks(u, ps, true).contains_key(q),
        set_marks(u, ps, true)[q].0,
    decreases ps.len(),
{
    if ps.len() > 0 {
        lemma_set_marks_true_keeps(u, ps.drop_last(), q);
    }
}

pub proof fn lemma_release_one_keeps_pool(u: UtxoMap, m: Pool, p: Seq<u8>, qs: Seq<Seq<u8>>)
    requires
        pool_marked(u, m),
        pool_disjoint(m),
        forall|k: int, a: int|
            #![trigger references(m[a].1, qs[k])]
            0 <= k < qs.len() && 0 <= a < m.len() ==> !references(m[a].1, qs[k]),
    ensures
        pool_marked(release_one(u, m, p).0, release_one(u, m, p).1),
        pool_disjoint(release_one(u, m, p).1),
        forall|k: int, a: int|
            #![trigger references(release_one(u, m, p).1[a].1, qs.push(p)[k])]
            0 <= k < qs.push(p).len() && 0 <= a < release_one(u, m, p).1.len() ==> !references(
                release_one(u, m, p).1[a].1,
                qs.push(p)[k],
            ),
{
    let r = release_one(u, m, p);
    if u.contains_key(p) && u[p].0 {
        match first_referencing(m, p) {
            Some(i) => {
                let c = choose|c: int|
                    0 <= c < m.len() && references(m[c].1, p) && forall|k: int|
                        0 <= k < c ==> !references(m[k].1, p);
                assert(i == c);
                let ev = input_prevs(m[i].1);
                let m2 = m.remove(i);
                assert forall|a: int| 0 <= a < m2.len() implies m2[a] == (if a < i {
                    m[a]
                } else {
                    m[a + 1]
                }) by {}
                assert forall|a: int, j: int|
                    0 <= a < m2.len() && 0 <= j < m2[a].1.inputs.len() implies r.0.contains_key(
                    #[trigger] m2[a].1.inputs[j].prev,
                ) && r.0[m2[a].1.inputs[j].prev].0 by {
                    let b = if a < i {
                        a
                    } else {
                        a + 1
                    };
                    let q = m[b].1.inputs[j].prev;
                    assert(m2[a] == m[b]);
                    assert(!ev.contains(q)) by {
                        if ev.contains(q) {
                            let k = choose|k: int| 0 <= k < ev.len() && ev[k] == q;
                            assert(ev[k] == m[i].1.inputs[k].prev);
                        }
                    }
                    lemma_set_marks_other(u, ev, false, q);
                }
                assert forall|a: int, b: int, j: int, k: int|
                    0 <= a < m2.len() && 0 <= b < m2.len() && a != b && 0 <= j
                        < m2[a].1.inputs.len() && 0 <= k
                        < m2[b].1.inputs.len() implies #[trigger] m2[a].1.inputs[j].prev
                    != #[trigger] m2[b].1.inputs[k].prev by {
                    let a1 = if a < i {
                        a
                    } else {
                        a + 1
                    };
                    let b1 = if b < i {
                        b
                    } else {
                        b + 1
                    };
                    assert(m2[a] == m[a1] && m2[b] == m[b1]);
                    assert(m[a1].1.inputs[j].prev != m[b1].1.inputs[k].prev);
                }
                let jp = choose|jp: int| 0 <= jp < m[i].1.inputs.len() && m[i].1.inputs[jp].prev == p;
                assert forall|k: int, a: int|
                    0 <= k < qs.push(p).len() && 0 <= a < m2.len() implies !#[trigger] references(
                    m2[a].1,
                    qs.push(p)[k],
                ) by {
                    let a1 = if a < i {
                        a
                    } else {
                        a + 1
                    };
                    assert(m2[a] == m[a1]);
                    if k < qs.len() {
                        assert(qs.push(p)[k] == qs[k]);
                        assert(!references(m[a1].1, qs[k]));
                    } else {
                        assert(qs.push(p)[k] == p);
                        if references(m2[a].1, p) {
                            let j = choose|j: int| 0 <= j < m[a1].1.inputs.len() && m[a1].1.inputs[j].prev == p;
                            assert(m[a1].1.inputs[j].prev != m[i].1.inputs[jp].prev);
                        }
                    }
                }
            },
            None => {
                assert(!(exists|i: int| 0 <= i < m.len() && references(m[i].1, p)));
                assert forall|a: int, j: int|
                    0 <= a < m.len() && 0 <= j < m[a].1.inputs.len() implies r.0.contains_key(
                    #[trigger] m[a].1.inputs[j].prev,
                ) && r.0[m[a].1.inputs[j].prev].0 by {
                    if m[a].1.inputs[j].prev == p {
                        assert(references(m[a].1, p));
                    }
                }
                assert forall|k: int, a: int|
                    0 <= k < qs.push(p).len() && 0 <= a < m.len() implies !#[trigger] references(
                    m[a].1,
                    qs.push(p)[k],
                ) by {
                    if k < qs.len() {
                        assert(qs.push(p)[k] == qs[k]);
                    }
                }
            },
        }
    } else {
        assert forall|k: int, a: int|
            0 <= k < qs.push(p).len() && 0 <= a < m.len() implies !#[trigger] references(
            m[a].1,
            qs.push(p)[k],
        ) by {
            if k < qs.len() {
                assert(qs.push(p)[k] == qs[k]);
            } else if references(m[a].1, p) {
                let j = choose|j: int| 0 <= j < m[a].1.inputs.len() && m[a].1.inputs[j].prev == p;
                assert(u.contains_key(m[a].1.inputs[j].prev));
            }
        }
    }
}

/// Freeing outputs keeps every pending spend marked and no output doubly spent, and
/// afterwards no pending transaction spends any of the freed outputs.
pub proof fn lemma_release_keeps_pool(u: UtxoMap, m: Pool, ps: Seq<Seq<u8>>)
    requires
        pool_marked(u, m),
        pool_disjoint(m),
    ensures
        pool_marked(release(u, m, ps).0, release(u, m, ps).1),
        pool_disjoint(release(u, m, ps).1),
        forall|k: int, a: int|
            #![trigger references(release(u, m, ps).1[a].1, ps[k])]
            0 <= k < ps.len() && 0 <= a < release(u, m, ps).1.len() ==> !references(
                release(u, m, ps).1[a].1,
                ps[k],
            ),
    decreases ps.len(),
{
    if ps.len() > 0 {
        let d = ps.drop_last();
        lemma_release_keeps_pool(u, m, d);
        let r = release(u, m, d);
        lemma_release_one_keeps_pool(r.0, r.1, ps.last(), d);
        assert(d.push(ps.last()) =~= ps);
    }
}

/// Sorting the mempool keeps every pending spend marked and no output doubly spent.
pub proof fn lemma_sort_keeps_pool(key: UtxoMap, u: UtxoMap, s: Pool)
    requires
        pool_marked(u, s),
        pool_disjoint(s),
    ensures
        pool_marked(u, sort_by_fee(key, s)),
        pool_disjoint(sort_by_fee(key, s)),
    decreases s.len(),
{
    broadcast use vstd::seq_lib::group_to_multiset_ensures;

    if s.len() > 0 {
        let d = s.drop_last();
        let e = s.last();
        assert forall|a: int, j: int|
            0 <= a < d.len() && 0 <= j < d[a].1.inputs.len() implies u.contains_key(
            #[trigger] d[a].1.inputs[j].prev,
        ) && u[d[a].1.inputs[j].prev].0 by {
            assert(d[a] == s[a]);
        }
        assert forall|a: int, b: int, j: int, k: int|
            0 <= a < d.len() && 0 <= b < d.len() && a != b && 0 <= j < d[a].1.inputs.len() && 0
                <= k < d[b].1.inputs.len() implies #[trigger] d[a].1.inputs[j].prev
            != #[trigger] d[b].1.inputs[k].prev by {
            assert(d[a] == s[a] && d[b] == s[b]);
        }
        lemma_sort_keeps_pool(key, u, d);
        lemma_sort_by_fee(key, d);
        let r = sort_by_fee(key, d);
        let pos = insert_pos(key, r, fee(key, e.1));
        lemma_sort_by_fee(key, s);
        lemma_insert_pos(key, r, fee(key, e.1));
        let t = r.insert(pos, e);
        assert(t == sort_by_fee(key, s));
        assert forall|x: int| 0 <= x < r.len() implies exists|y: int|
            0 <= y < d.len() && d[y] == #[trigger] r[x] by {
            assert(r.contains(r[x]));
            assert(r.to_multiset().count(r[x]) > 0);
            assert(d.contains(r[x]));
        }
        let last = s.len() - 1;
        assert(s[last] == e);
        assert forall|a: int, j: int|
            0 <= a < t.len() && 0 <= j < t[a].1.inputs.len() implies u.contains_key(
            #[trigger] t[a].1.inputs[j].prev,
        ) && u[t[a].1.inputs[j].prev].0 by {
            if a < pos {
                assert(t[a] == r[a]);
            } else if a == pos {
                assert(t[a] == s[last]);
            } else {
                assert(t[a] == r[a - 1]);
            }
        }
        assert forall|a: int, b: int, j: int, k: int|
            0 <= a < t.len() && 0 <= b < t.len() && a != b && 0 <= j < t[a].1.inputs.len() && 0
                <= k < t[b].1.inputs.len() implies #[trigger] t[a].1.inputs[j].prev
            != #[trigger] t[b].1.inputs[k].prev by {
            let ra = if a < pos {
                a
            } else {
                a - 1
            };
            let rb = if b < pos {
                b
            } else {
                b - 1
            };
            if a == pos {
                assert(t[a] == e);
                assert(t[b] == r[rb]);
                let y = choose|y: int| 0 <= y < d.len() && d[y] == r[rb];
                assert(s[y] == d[y]);
                assert(s[last].1.inputs[j].prev != s[y].1.inputs[k].prev);
            } else if b == pos {
                assert(t[b] == e);
                assert(t[a] == r[ra]);
                let y = choose|y: int| 0 <= y < d.len() && d[y] == r[ra];
                assert(s[y] == d[y]);
                assert(s[y].1.inputs[j].prev != s[last].1.inputs[k].prev);
            } else {
                assert(t[a] == r[ra] && t[b] == r[rb]);
                assert(ra != rb);
                assert(r[ra].1.inputs[j].prev != r[rb].1.inputs[k].prev);
            }
        }
    }
}

/// Adding a transaction to the mempool, whatever the answer, keeps the two rules of the
/// mempool: every output a pending transaction spends is a known output marked as spent,
/// and no output is spent by two pending transactions.
pub proof fn lemma_add_to_mempool_keeps_pool(u: UtxoMap, m: Pool, t: TransactionView, now: Timestamp)
    requires
        pool_marked(u, m),
        pool_disjoint(m),
    ensures
        pool_marked(mempool_add(u, m, t, now).1, mempool_add(u, m, t, now).2),
        pool_disjoint(mempool_add(u, m, t, now).2),
{
    if inputs_acceptable(u, t) {
        let ps = input_prevs(t);
        lemma_release_keeps_pool(u, m, ps);
        let r = release(u, m, ps);
        if input_sum(u, ps) >= output_sum(t.outputs) {
            lemma_release_same(u, m, ps);
            let u2 = set_marks(r.0, ps, true);
            let pushed = r.1.push((now, t));
            let n = r.1.len();
            assert forall|a: int, j: int|
                0 <= a < pushed.len() && 0 <= j < pushed[a].1.inputs.len() implies u2.contains_key(
                #[trigger] pushed[a].1.inputs[j].prev,
            ) && u2[pushed[a].1.inputs[j].prev].0 by {
                if a < n {
                    assert(pushed[a] == r.1[a]);
                    lemma_set_marks_true_keeps(r.0, ps, r.1[a].1.inputs[j].prev);
                } else {
                    assert(pushed[a].1 == t);
                    assert(ps[j] == t.inputs[j].prev);
                    assert(u.contains_key(t.inputs[j].prev));
                    assert(r.0.contains_key(ps[j]));
                    lemma_set_marks_marks(r.0, ps, true, j);
                }
            }
            assert forall|a: int, b: int, j: int, k: int|
                0 <= a < pushed.len() && 0 <= b < pushed.len() && a != b && 0 <= j
                    < pushed[a].1.inputs.len() && 0 <= k
                    < pushed[b].1.inputs.len() implies #[trigger] pushed[a].1.inputs[j].prev
                != #[trigger] pushed[b].1.inputs[k].prev by {
                if a < n && b < n {
                    assert(pushed[a] == r.1[a] && pushed[b] == r.1[b]);
                } else if a < n {
                    assert(pushed[a] == r.1[a] && pushed[b].1 == t);
                    assert(ps[k] == t.inputs[k].prev);
                    assert(!references(r.1[a].1, ps[k]));
                } else {
                    assert(pushed[b] == r.1[b] && pushed[a].1 == t);
                    assert(ps[j] == t.inputs[j].prev);
                    assert(!references(r.1[b].1, ps[j]));
                }
            }
            lemma_sort_keeps_pool(u, u2, pushed);
        }
    }
}

/// A mempool whose entries are entries of `m`, at the increasing positions `idx`, keeps
/// the two rules of the mempool that `m` keeps.
proof fn lemma_subpool_keeps_pool(u: UtxoMap, m: Pool, m2: Pool, idx: Seq<int>)
    requires
        pool_marked(u, m),
        pool_disjoint(m),
        idx.len() == m2.len(),
        forall|a: int| 0 <= a < idx.len() ==> 0 <= #[trigger] idx[a] < m.len() && m2[a] == m[idx[a]],
        forall|a: int, b: int| 0 <= a < b < idx.len() ==> #[trigger] idx[a] < #[trigger] idx[b],
    ensures
        pool_marked(u, m2),
        pool_disjoint(m2),
{
    assert forall|a: int, j: int|
        0 <= a < m2.len() && 0 <= j < m2[a].1.inputs.len() implies u.contains_key(
        #[trigger] m2[a].1.inputs[j].prev,
    ) && u[m2[a].1.inputs[j].prev].0 by {
        assert(m2[a] == m[idx[a]]);
    }
    assert forall|a: int, b: int, j: int, k: int|
        0 <= a < m2.len() && 0 <= b < m2.len() && a != b && 0 <= j < m2[a].1.inputs.len() && 0
            <= k < m2[b].1.inputs.len() implies #[trigger] m2[a].1.inputs[j].prev
        != #[trigger] m2[b].1.inputs[k].prev by {
        assert(m2[a] == m[idx[a]] && m2[b] == m[idx[b]]);
        if a < b {
            assert(idx[a] < idx[b]);
        } else {
            assert(idx[b] < idx[a]);
        }
    }
}

/// The positions in `m` of the entries that `kept_entries` keeps.
proof fn lemma_kept_indices(m: Pool, now: Timestamp) -> (idx: Seq<int>)
    ensures
        idx.len() == kept_entries(m, now).len(),
        forall|a: int|
            0 <= a < idx.len() ==> 0 <= #[trigger] idx[a] < m.len() && kept_entries(m, now)[a]
                == m[idx[a]] && !expired(now, m[idx[a]].0),
        forall|a: int, b: int| 0 <= a < b < idx.len() ==> #[trigger] idx[a] < #[trigger] idx[b],
    decreases m.len(),
{
    if m.len() == 0 {
        Seq::empty()
    } else {
        let d = m.drop_last();
        let r = lemma_kept_indices(d, now);
        assert forall|a: int| 0 <= a < r.len() implies m[r[a]] == d[r[a]] by {}
        if expired(now, m.last().0) {
            r
        } else {
            let idx = r.push(m.len() - 1);
            assert forall|a: int| 0 <= a < idx.len() implies 0 <= #[trigger] idx[a] < m.len()
                && kept_entries(m, now)[a] == m[idx[a]] && !expired(now, m[idx[a]].0) by {
                if a < r.len() {
                    assert(idx[a] == r[a]);
                }
            }
            idx
        }
    }
}

/// An output the expired entries spend is spent by one of them.
proof fn lemma_expired_prevs_from(m: Pool, now: Timestamp, q: Seq<u8>)
    requires
        expired_prevs(m, now).contains(q),
    ensures
        exists|b: int, j: int|
            0 <= b < m.len() && expired(now, m[b].0) && 0 <= j < m[b].1.inputs.len() && #[trigger] m[b].1.inputs[j].prev == q,
    decreases m.len(),
{
    let d = m.drop_last();
    let r = expired_prevs(d, now);
    let l = m.len() - 1;
    if r.contains(q) {
        lemma_expired_prevs_from(d, now, q);
        let (b, j) = choose|b: int, j: int|
            0 <= b < d.len() && expired(now, d[b].0) && 0 <= j < d[b].1.inputs.len() && #[trigger] d[b].1.inputs[j].prev == q;
        assert(m[b] == d[b]);
        assert(m[b].1.inputs[j].prev == q);
    } else {
        assert(expired(now, m.last().0));
        let s = r + input_prevs(m.last().1);
        let i = choose|i: int| 0 <= i < s.len() && s[i] == q;
        if i < r.len() {
            assert(r[i] == q);
        } else {
            assert(input_prevs(m.last().1)[i - r.len()] == q);
            assert(m[l].1.inputs[i - r.len()].prev == q);
        }
    }
}

proof fn lemma_expired_inputs_listed(m: Pool, now: Timestamp, b: int, j: int)
    requires
        0 <= b < m.len(),
        expired(now, m[b].0),
        0 <= j < m[b].1.inputs.len(),
    ensures
        expired_prevs(m, now).contains(m[b].1.inputs[j].prev),
    decreases m.len(),
{
    let d = m.drop_last();
    let r = expired_prevs(d, now);
    let q = m[b].1.inputs[j].prev;
    if b < m.len() - 1 {
        assert(d[b] == m[b]);
        lemma_expired_inputs_listed(d, now, b, j);
        let i = choose|i: int| 0 <= i < r.len() && r[i] == q;
        if expired(now, m.last().0) {
            assert((r + input_prevs(m.last().1))[i] == q);
        }
    } else {
        let ps = input_prevs(m.last().1);
        assert(ps[j] == q);
        assert((r + ps)[r.len() + j] == q);
    }
}

/// Cleaning the mempool frees every output an expired entry spent: after it, each input
/// of each expired entry names an output that is known and unmarked, if it was known.
pub proof fn lemma_cleanup_unmarks_expired_inputs(u: UtxoMap, m: Pool, now: Timestamp)
    ensures
        forall|b: int, j: int|
            0 <= b < m.len() && expired(now, m[b].0) && 0 <= j < m[b].1.inputs.len()
                && u.contains_key(#[trigger] m[b].1.inputs[j].prev) ==> set_marks(
                u,
                expired_prevs(m, now),
                false,
            ).contains_key(m[b].1.inputs[j].prev) && !set_marks(u, expired_prevs(m, now), false)[m[b].1.inputs[j].prev].0,
{
    let ev = expired_prevs(m, now);
    assert forall|b: int, j: int|
        0 <= b < m.len() && expired(now, m[b].0) && 0 <= j < m[b].1.inputs.len()
            && u.contains_key(#[trigger] m[b].1.inputs[j].prev) implies set_marks(
        u,
        ev,
        false,
    ).contains_key(m[b].1.inputs[j].prev) && !set_marks(u, ev, false)[m[b].1.inputs[j].prev].0 by {
        lemma_expired_inputs_listed(m, now, b, j);
        let i = choose|i: int| 0 <= i < ev.len() && ev[i] == m[b].1.inputs[j].prev;
        lemma_set_marks_marks(u, ev, false, i);
    }
}

/// Cleaning the mempool keeps its two rules: the entries left still have their outputs
/// marked, since no expired entry spent one of them, and no output is spent twice.
pub proof fn lemma_cleanup_keeps_pool(u: UtxoMap, m: Pool, now: Timestamp)
    requires
        pool_marked(u, m),
        pool_disjoint(m),
    ensures
        pool_marked(set_marks(u, expired_prevs(m, now), false), kept_entries(m, now)),
        pool_disjoint(kept_entries(m, now)),
{
    let k = kept_entries(m, now);
    let idx = lemma_kept_indices(m, now);
    lemma_subpool_keeps_pool(u, m, k, idx);
    let ev = expired_prevs(m, now);
    let u2 = set_marks(u, ev, false);
    assert forall|a: int, j: int|
        0 <= a < k.len() && 0 <= j < k[a].1.inputs.len() implies u2.contains_key(
        #[trigger] k[a].1.inputs[j].prev,
    ) && u2[k[a].1.inputs[j].prev].0 by {
        let q = k[a].1.inputs[j].prev;
        assert(k[a] == m[idx[a]]);
        if ev.contains(q) {
            lemma_expired_prevs_from(m, now, q);
            let (b, jb) = choose|b: int, jb: int|
                0 <= b < m.len() && expired(now, m[b].0) && 0 <= jb < m[b].1.inputs.len() && #[trigger] m[b].1.inputs[jb].prev == q;
            assert(m[idx[a]].1.inputs[j].prev == q);
            assert(b != idx[a]);
            assert(false);
        }
        lemma_set_marks_other(u, ev, false, q);
    }
}

/// The positions in `m` of the entries that `pool_without` keeps.
proof fn lemma_pool_without_indices(m: Pool, hs: Seq<Seq<u8>>) -> (idx: Seq<int>)
    ensures
        idx.len() == pool_without(m, hs).len(),
        forall|a: int|
            0 <= a < idx.len() ==> 0 <= #[trigger] idx[a] < m.len() && pool_without(m, hs)[a]
                == m[idx[a]],
        forall|a: int, b: int| 0 <= a < b < idx.len() ==> #[trigger] idx[a] < #[trigger] idx[b],
    decreases m.len(),
{
    if m.len() == 0 {
        Seq::empty()
    } else {
        let d = m.drop_last();
        let r = lemma_pool_without_indices(d, hs);
        assert forall|a: int| 0 <= a < r.len() implies m[r[a]] == d[r[a]] by {}
        if hs.contains(transaction_hash(m.last().1)) {
            r
        } else {
            let idx = r.push(m.len() - 1);
            assert forall|a: int| 0 <= a < idx.len() implies 0 <= #[trigger] idx[a] < m.len()
                && pool_without(m, hs)[a] == m[idx[a]] by {
                if a < r.len() {
                    assert(idx[a] == r[a]);
                }
            }
            idx
        }
    }
}

/// An entry `pool_without` leaves has a hash outside `hs`.
proof fn lemma_pool_without_excludes(m: Pool, hs: Seq<Seq<u8>>, i: int)
    requires
        0 <= i < pool_without(m, hs).len(),
    ensures
        !hs.contains(transaction_hash(pool_without(m, hs)[i].1)),
    decreases m.len(),
{
    let d = m.drop_last();
    let r = pool_without(d, hs);
    if i < r.len() {
        lemma_pool_without_excludes(d, hs, i);
        assert(pool_without(m, hs)[i] == r[i]);
    }
}

/// An entry of `m` whose hash is outside `hs` is left by `pool_without`.
proof fn lemma_pool_without_keeps(m: Pool, hs: Seq<Seq<u8>>, j: int)
    requires
        0 <= j < m.len(),
        !hs.contains(transaction_hash(m[j].1)),
    ensures
        exists|i: int| 0 <= i < pool_without(m, hs).len() && pool_without(m, hs)[i] == m[j],
    decreases m.len(),
{
    let d = m.drop_last();
    let r = pool_without(d, hs);
    let p = pool_without(m, hs);
    if j < m.len() - 1 {
        assert(d[j] == m[j]);
        lemma_pool_without_keeps(d, hs, j);
        let i = choose|i: int| 0 <= i < r.len() && r[i] == d[j];
        assert(p[i] == r[i]);
    } else {
        assert(p[p.len() - 1] == m[j]);
    }
}

/// After a block is accepted, no mempool entry has the hash of one of the block's
/// transactions; every entry whose hash differs from all of them stays, nothing else joins
/// the mempool, and the entries left keep their order.
pub proof fn lemma_block_transactions_leave_mempool(c: ChainView, b: BlockView)
    ensures
        forall|i: int, k: int|
            0 <= i < pool_without(c.mempool, block_tx_hashes(b)).len() && 0 <= k
                < b.transactions.len() ==> transaction_hash(
                #[trigger] pool_without(c.mempool, block_tx_hashes(b))[i].1,
            ) != transaction_hash(#[trigger] b.transactions[k]),
        forall|j: int|
            0 <= j < c.mempool.len() && (forall|k: int|
                0 <= k < b.transactions.len() ==> transaction_hash(#[trigger] b.transactions[k])
                    != transaction_hash(c.mempool[j].1)) ==> exists|i: int|
                0 <= i < pool_without(c.mempool, block_tx_hashes(b)).len() && pool_without(
                    c.mempool,
                    block_tx_hashes(b),
                )[i] == #[trigger] c.mempool[j],
        forall|i: int|
            0 <= i < pool_without(c.mempool, block_tx_hashes(b)).len() ==> exists|j: int|
                0 <= j < c.mempool.len() && c.mempool[j] == #[trigger] pool_without(
                    c.mempool,
                    block_tx_hashes(b),
                )[i],
        exists|idx: Seq<int>|
            #![trigger idx.len()]
            idx.len() == pool_without(c.mempool, block_tx_hashes(b)).len() && (forall|a: int|
                0 <= a < idx.len() ==> 0 <= #[trigger] idx[a] < c.mempool.len() && pool_without(
                    c.mempool,
                    block_tx_hashes(b),
                )[a] == c.mempool[idx[a]]) && (forall|a: int, a2: int|
                0 <= a < a2 < idx.len() ==> #[trigger] idx[a] < #[trigger] idx[a2]),
{
    let hs = block_tx_hashes(b);
    let p = pool_without(c.mempool, hs);
    assert forall|i: int, k: int|
        0 <= i < p.len() && 0 <= k < b.transactions.len() implies transaction_hash(
        #[trigger] p[i].1,
    ) != transaction_hash(#[trigger] b.transactions[k]) by {
        lemma_pool_without_excludes(c.mempool, hs, i);
        assert(hs[k] == transaction_hash(b.transactions[k]));
    }
    assert forall|j: int|
        0 <= j < c.mempool.len() && (forall|k: int|
            0 <= k < b.transactions.len() ==> transaction_hash(#[trigger] b.transactions[k])
                != transaction_hash(c.mempool[j].1)) implies exists|i: int|
        0 <= i < p.len() && p[i] == #[trigger] c.mempool[j] by {
        if hs.contains(transaction_hash(c.mempool[j].1)) {
            let k = choose|k: int| 0 <= k < hs.len() && hs[k] == transaction_hash(c.mempool[j].1);
            assert(hs[k] == transaction_hash(b.transactions[k]));
        }
        lemma_pool_without_keeps(c.mempool, hs, j);
    }
    let idx = lemma_pool_without_indices(c.mempool, hs);
    assert forall|i: int| 0 <= i < p.len() implies exists|j: int|
        0 <= j < c.mempool.len() && c.mempool[j] == #[trigger] p[i] by {
        assert(c.mempool[idx[i]] == p[i]);
    }
    assert(idx.len() == p.len());
}

/// Accepting a block keeps the two rules of the mempool: its transactions leave the
/// mempool, and the marks of the unspent outputs stay as they were.
pub proof fn lemma_add_block_keeps_pool(c: ChainView, b: BlockView)
    requires
        pool_marked(c.utxos, c.mempool),
        pool_disjoint(c.mempool),
    ensures
        pool_marked(c.utxos, pool_without(c.mempool, block_tx_hashes(b))),
        pool_disjoint(pool_without(c.mempool, block_tx_hashes(b))),
{
    let idx = lemma_pool_without_indices(c.mempool, block_tx_hashes(b));
    lemma_subpool_keeps_pool(c.utxos, c.mempool, pool_without(c.mempool, block_tx_hashes(b)), idx);
}

/// What the library reads of the blockchain.
pub struct ChainView {
    pub utxos: Map<Seq<u8>, (bool, OutputView)>,
    pub target: nat,
    pub blocks: Seq<BlockView>,
    pub mempool: Seq<(Timestamp, TransactionView)>,
}

/// The views of the mempool's entries.
pub open spec fn pool_view(s: Seq<(Timestamp, Transaction)>) -> Seq<(Timestamp, TransactionView)> {
    s.map_values(|e: (Timestamp, Transaction)| (e.0, e.1@))
}

/// The blockchain: its blocks, the outputs they leave unspent, the difficulty target and
/// the transactions waiting for a block.
#[derive(Debug)]
pub struct Blockchain {
    utxos: UtxoSet,
    target: U256,
    blocks: Vec<Block>,
    mempool: Vec<(Timestamp, Transaction)>,
}

impl View for Blockchain {
    type V = ChainView;

    closed spec fn view(&self) -> ChainView {
        ChainView {
            utxos: self.utxos@,
            target: self.target.value(),
            blocks: blocks_view(self.blocks@),
            mempool: pool_view(self.mempool@),
        }
    }
}

impl Blockchain {
    /// The unspent-output set stores no key twice.
    pub closed spec fn wf(&self) -> bool {
        self.utxos.wf()
    }

    /// The stored entries of the unspent-output set, in order.
    pub closed spec fn utxo_entries(&self) -> Seq<UtxoEntryView> {
        self.utxos.entries_view()
    }

    /// An empty chain with the easiest target.
    pub fn new() -> (r: Blockchain)
        ensures
            r.wf(),
            r@.utxos == Map::<Seq<u8>, (bool, OutputView)>::empty(),
            r@.target == min_target_value(),
            r@.blocks.len() == 0,
            r@.mempool.len() == 0,
    {
        let r = Blockchain {
            utxos: UtxoSet::new(),
            target: min_target(),
            blocks: Vec::new(),
            mempool: Vec::new(),
        };
        assert(r@.blocks =~= Seq::<BlockView>::empty());
        assert(r@.mempool =~= Seq::<(Timestamp, TransactionView)>::empty());
        r
    }

    /// The unspent outputs.
    pub fn utxos(&self) -> (r: &UtxoSet)
        ensures
            r@ == self@.utxos,
            r.entries_view() == self.utxo_entries(),
            self.wf() ==> r.wf(),
    {
        &self.utxos
    }

    /// The difficulty target.
    pub fn target(&self) -> (r: &U256)
        ensures
            r.value() == self@.target,
    {
        &self.target
    }

    /// The blocks, oldest first.
    pub fn blocks(&self) -> (r: &Vec<Block>)
        ensures
            blocks_view(r@) == self@.blocks,
    {
        &self.blocks
    }

    /// The transactions waiting for a block, with the time each arrived.
    pub fn mempool(&self) -> (r: &Vec<(Timestamp, Transaction)>)
        ensures
            pool_view(r@) == self@.mempool,
    {
        &self.mempool
    }

    /// How many blocks the chain holds.
    pub fn block_height(&self) -> (r: u64)
        ensures
            r == self@.blocks.len(),
    {
        self.blocks.len() as u64
    }

    /// Adjusts the target when the chain has just completed a span of blocks: it is scaled
    /// by how long the span took against how long it should take, kept within a factor of
    /// four of the current target and never made easier than the easiest target. Nothing
    /// else changes.
    pub fn try_adjust_target(&mut self)
        requires
            old(self).wf(),
        ensures
            final(self).wf(),
            final(self)@.target == target_after_adjust(old(self)@.blocks, old(self)@.target),
            final(self)@.blocks == old(self)@.blocks,
            final(self)@.utxos == old(self)@.utxos,
            final(self)@.mempool == old(self)@.mempool,
            final(self).utxo_entries() == old(self).utxo_entries(),
    {
        let n = self.blocks.len();
        if n == 0 {
            return ;
        }
        if n % (DIFFICULTY_UPDATE_INTERVAL as usize) != 0 {
            return ;
        }
        let ghost bs = self@.blocks;
        let start = self.blocks[n - DIFFICULTY_UPDATE_INTERVAL as usize].header.timestamp;
        let end = self.blocks[n - 1].header.timestamp;
        assert(bs[n - DIFFICULTY_UPDATE_INTERVAL as int].header.timestamp == start);
        assert(bs.last().header.timestamp == end);
        let seconds = end.seconds_since(&start);
        let target_seconds: u64 = IDEAL_BLOCK_TIME * DIFFICULTY_UPDATE_INTERVAL;
        let digits = self.target.to_decimal();
        proof {
            crate::u256::lemma_dec_digits_value(self.target.value());
        }
        match scale_decimal(digits.as_slice(), seconds, target_seconds) {
            None => {},
            Some(text) => {
                match retarget(self.target, text.as_slice()) {
                    None => {},
                    Some(t) => {
                        self.target = t;
                    },
                }
            },
        }
    }

    #[verifier::rlimit(60)]
    fn release_spent(&mut self, p: &crate::sha256::Hash)
        requires
            old(self).wf(),
        ensures
            final(self).wf(),
            (final(self)@.utxos, final(self)@.mempool) == release_one(
                old(self)@.utxos,
                old(self)@.mempool,
                p@,
            ),
            final(self)@.blocks == old(self)@.blocks,
            final(self)@.target == old(self)@.target,
    {
        let marked = match self.utxos.get(p) {
            Some((m, _)) => m,
            None => false,
        };
        if marked {
            match find_referencing(&self.mempool, p) {
                Some(idx) => {
                    assert(pool_view(self.mempool@)[idx as int].1 == self.mempool@[idx as int].1@);
                    set_marks_of(&mut self.utxos, &self.mempool[idx].1, false);
                    let ghost before = self.mempool@;
                    self.mempool.remove(idx);
                    assert(pool_view(self.mempool@) =~= pool_view(before).remove(idx as int));
                },
                None => {
                    self.utxos.set_mark(p, false);
                },
            }
        }
    }

    /// Adds `transaction` to the mempool as arrived at `now`, with the outcome
    /// `mempool_add` describes: a transaction spending an unknown output or one output
    /// twice is refused; outputs it spends that waiting transactions already spend are
    /// freed, evicting those transactions; a transaction paying out more than it brings in
    /// is then refused; otherwise its outputs are marked as spent, it joins the mempool, and
    /// the mempool is sorted by decreasing fee.
    pub fn add_to_mempool_at(&mut self, transaction: Transaction, now: Timestamp) -> (r: Result<
        (),
        BtcError,
    >)
        requires
            old(self).wf(),
            !mempool_add_overflows(old(self)@.utxos, old(self)@.mempool, transaction@),
        ensures
            final(self).wf(),
            (r, final(self)@.utxos, final(self)@.mempool) == mempool_add(
                old(self)@.utxos,
                old(self)@.mempool,
                transaction@,
                now,
            ),
            final(self)@.blocks == old(self)@.blocks,
            final(self)@.target == old(self)@.target,
    {
        let ghost t = transaction@;
        let ghost u0 = self@.utxos;
        let ghost m0 = self@.mempool;
        let ghost ps = input_prevs(t);
        if !inputs_acceptable_exec(&self.utxos, &transaction) {
            return Err(BtcError::InvalidTransection);
        }
        assert(inputs_acceptable(u0, t));
        let mut j: usize = 0;
        while j < transaction.inputs.len()
            invariant
                self.wf(),
                t == transaction@,
                ps == input_prevs(t),
                j <= ps.len(),
                (self@.utxos, self@.mempool) == release(u0, m0, ps.take(j as int)),
                self@.blocks == old(self)@.blocks,
                self@.target == old(self)@.target,
            decreases ps.len() - j,
        {
            assert(ps[j as int] == transaction.inputs@[j as int].prev_transaction_output_hash@);
            self.release_spent(&transaction.inputs[j].prev_transaction_output_hash);
            assert(ps.take(j + 1).drop_last() =~= ps.take(j as int));
            j += 1;
        }
        assert(ps.take(ps.len() as int) =~= ps);
        let ghost r1 = release(u0, m0, ps);
        proof {
            lemma_release_same(u0, m0, ps);
            assert forall|i: int| 0 <= i < t.inputs.len() implies self@.utxos.contains_key(
                #[trigger] t.inputs[i].prev,
            ) by {
                assert(u0.contains_key(t.inputs[i].prev));
            }
            lemma_fee_same(self@.utxos, u0, t);
        }
        assert(same_entries(self.utxos@, u0));
        let all_input = sum_input_values(&self.utxos, &transaction, Ghost(u0));
        let all_output = sum_output_values(&transaction);
        if all_input < all_output {
            return Err(BtcError::InvalidTransection);
        }
        set_marks_of(&mut self.utxos, &transaction, true);
        proof {
            lemma_set_marks_same(r1.0, ps, true);
            lemma_same_entries_trans(self.utxos@, r1.0, u0);
        }
        let ghost before = self.mempool@;
        self.mempool.push((now, transaction));
        assert(pool_view(self.mempool@) =~= r1.1.push((now, t)));
        assert forall|i: int|
            0 <= i < self.mempool@.len() implies fee_computable(
            u0,
            #[trigger] pool_view(self.mempool@)[i].1,
        ) by {
            if i < r1.1.len() {
                assert(pool_view(self.mempool@)[i] == r1.1[i]);
            } else {
                assert(pool_view(self.mempool@)[i].1 == t);
            }
        }
        sort_by_fee_in_place(&mut self.mempool, &self.utxos, Ghost(u0));
        Ok(())
    }

    /// Adds `transaction` to the mempool as arriving now; the outcome is the one
    /// `add_to_mempool_at` gives for the time the clock read.
    pub fn add_to_mempool(&mut self, transaction: Transaction) -> (r: Result<(), BtcError>)
        requires
            old(self).wf(),
            !mempool_add_overflows(old(self)@.utxos, old(self)@.mempool, transaction@),
        ensures
            final(self).wf(),
            exists|now: Timestamp|
                (r, final(self)@.utxos, final(self)@.mempool) == mempool_add(
                    old(self)@.utxos,
                    old(self)@.mempool,
                    transaction@,
                    now,
                ),
            final(self)@.blocks == old(self)@.blocks,
            final(self)@.target == old(self)@.target,
    {
        let now = crate::time::now();
        self.add_to_mempool_at(transaction, now)
    }

    /// Drops the entries older than the maximum age at `now`, keeping the others in order,
    /// and unmarks the outputs the dropped transactions spent.
    pub fn cleanup_mempool_at(&mut self, now: Timestamp)
        requires
            old(self).wf(),
        ensures
            final(self).wf(),
            final(self)@.mempool == kept_entries(old(self)@.mempool, now),
            final(self)@.utxos == set_marks(
                old(self)@.utxos,
                expired_prevs(old(self)@.mempool, now),
                false,
            ),
            forall|b: int, j: int|
                0 <= b < old(self)@.mempool.len() && expired(now, old(self)@.mempool[b].0) && 0
                    <= j < old(self)@.mempool[b].1.inputs.len() && old(self)@.utxos.contains_key(
                    #[trigger] old(self)@.mempool[b].1.inputs[j].prev,
                ) ==> final(self)@.utxos.contains_key(old(self)@.mempool[b].1.inputs[j].prev)
                    && !final(self)@.utxos[old(self)@.mempool[b].1.inputs[j].prev].0,
            final(self)@.blocks == old(self)@.blocks,
            final(self)@.target == old(self)@.target,
    {
        let ghost m0 = self@.mempool;
        let ghost u0 = self@.utxos;
        let mut pending: Vec<(Timestamp, Transaction)> = Vec::new();
        std::mem::swap(&mut pending, &mut self.mempool);
        let mut to_unmark: Vec<crate::sha256::Hash> = Vec::new();
        let ghost mut k: int = 0;
        assert(m0.take(0) =~= Seq::<(Timestamp, TransactionView)>::empty());
        assert(pool_view(self.mempool@) =~= Seq::<(Timestamp, TransactionView)>::empty());
        assert(crate::types::prevs_of(to_unmark@) =~= Seq::<Seq<u8>>::empty());
        assert(pool_view(pending@) =~= m0.skip(0));
        assert(pending@.len() == m0.len());
        while pending.len() > 0
            invariant
                self.wf(),
                self@.utxos == u0,
                self@.blocks == old(self)@.blocks,
                self@.target == old(self)@.target,
                0 <= k <= m0.len(),
                pending@.len() + k == m0.len(),
                pool_view(pending@) == m0.skip(k),
                pool_view(self.mempool@) == kept_entries(m0.take(k), now),
                crate::types::prevs_of(to_unmark@) == expired_prevs(m0.take(k), now),
            decreases pending@.len(),
        {
            let ghost pv = pool_view(pending@);
            let ghost old_p = pending@;
            let (ts, tx) = pending.remove(0);
            assert(pv[0] == (ts, tx@));
            assert(m0.skip(k)[0] == m0[k]);
            assert(m0[k] == pv[0]);
            assert(m0.take(k + 1).drop_last() =~= m0.take(k));
            assert(m0.take(k + 1).last() == m0[k]);
            assert forall|x: int| 0 <= x < pool_view(pending@).len() implies pool_view(pending@)[x]
                == m0.skip(k + 1)[x] by {
                assert(pending@[x] == old_p[x + 1]);
                assert(pv[x + 1] == m0.skip(k)[x + 1]);
            }
            assert(pool_view(pending@) =~= m0.skip(k + 1));
            let age = now.nanos_since(&ts);
            if age > (MAXIMUM_MEMPOOL_TRANSACTION_AGE as i128) * 1_000_000_000 {
                let ghost before = crate::types::prevs_of(to_unmark@);
                let ghost ps = input_prevs(tx@);
                let mut q: usize = 0;
                assert(ps.take(0) =~= Seq::<Seq<u8>>::empty());
                assert(before + ps.take(0) =~= before);
                while q < tx.inputs.len()
                    invariant
                        ps == input_prevs(tx@),
                        ps.len() == tx.inputs@.len(),
                        q <= ps.len(),
                        crate::types::prevs_of(to_unmark@) == before + ps.take(q as int),
                    decreases ps.len() - q,
                {
                    assert(ps[q as int] == tx.inputs@[q as int].prev_transaction_output_hash@);
                    let ghost tu = to_unmark@;
                    to_unmark.push(tx.inputs[q].prev_transaction_output_hash);
                    proof {
                        crate::types::lemma_prevs_of_push(tu, tx.inputs@[q as int].prev_transaction_output_hash);
                    }
                    assert(crate::types::prevs_of(to_unmark@) =~= before + ps.take(q + 1));
                    q += 1;
                }
                assert(ps.take(ps.len() as int) =~= ps);
            } else {
                let ghost before = self.mempool@;
                self.mempool.push((ts, tx));
                assert(pool_view(self.mempool@) =~= pool_view(before).push(m0[k]));
            }
            proof {
                k = k + 1;
            }
        }
        assert(m0.skip(k).len() == 0);
        assert(m0.take(k) =~= m0);
        let ghost ps = crate::types::prevs_of(to_unmark@);
        let mut q: usize = 0;
        assert(ps.take(0) =~= Seq::<Seq<u8>>::empty());
        while q < to_unmark.len()
            invariant
                self.wf(),
                ps == crate::types::prevs_of(to_unmark@),
                q <= ps.len(),
                self@.utxos == set_marks(u0, ps.take(q as int), false),
                pool_view(self.mempool@) == kept_entries(m0, now),
                self@.blocks == old(self)@.blocks,
                self@.target == old(self)@.target,
            decreases ps.len() - q,
        {
            self.utxos.set_mark(&to_unmark[q], false);
            assert(ps.take(q + 1).drop_last() =~= ps.take(q as int));
            q += 1;
        }
        assert(ps.take(ps.len() as int) =~= ps);
        proof {
            lemma_cleanup_unmarks_expired_inputs(u0, m0, now);
        }
    }

    /// Drops the mempool entries older than the maximum age, as of now; the outcome is the
    /// one `cleanup_mempool_at` gives for the time the clock read.
    pub fn cleanup_mempool(&mut self)
        requires
            old(self).wf(),
        ensures
            final(self).wf(),
            exists|now: Timestamp|
                final(self)@.mempool == kept_entries(old(self)@.mempool, now)
                    && final(self)@.utxos == set_marks(
                    old(self)@.utxos,
                    expired_prevs(old(self)@.mempool, now),
                    false,
                ),
            final(self)@.blocks == old(self)@.blocks,
            final(self)@.target == old(self)@.target,
    {
        let now = crate::time::now();
        self.cleanup_mempool_at(now);
    }

    /// Appends `block` when it links to the last block (or, as the first block, to the zero
    /// hash), comes later than it, meets its own target, carries the Merkle root of its
    /// transactions, and its transactions pass `Block::verify_transactions`. Then the
    /// block's transactions leave the mempool and the target is adjusted. A refused block
    /// changes nothing.
    pub fn add_block(&mut self, block: Block) -> (r: Result<(), BtcError>)
        requires
            old(self).wf(),
            !block_overflows(old(self)@, block@),
        ensures
            final(self).wf(),
            match block_outcome(old(self)@, block@) {
                Some(e) => r == Err::<(), BtcError>(e) && final(self)@ == old(self)@,
                None => {
                    &&& r is Ok
                    &&& final(self)@.blocks == old(self)@.blocks.push(block@)
                    &&& final(self)@.mempool == pool_without(
                        old(self)@.mempool,
                        block_tx_hashes(block@),
                    )
                    &&& forall|i: int, k: int|
                        0 <= i < final(self)@.mempool.len() && 0 <= k < block@.transactions.len()
                            ==> transaction_hash(#[trigger] final(self)@.mempool[i].1)
                            != transaction_hash(#[trigger] block@.transactions[k])
                    &&& final(self)@.utxos == old(self)@.utxos
                    &&& final(self)@.target == target_after_adjust(
                        final(self)@.blocks,
                        old(self)@.target,
                    )
                },
            },
    {
        match check_header(&self.blocks, &block) {
            Some(e) => {
                return Err(e);
            },
            None => {},
        }
        match block.verify_transactions(&self.utxos) {
            Err(e) => {
                return Err(e);
            },
            Ok(()) => {},
        }
        let ghost b = block@;
        let mut hashes: Vec<crate::sha256::Hash> = Vec::new();
        let mut i: usize = 0;
        while i < block.transactions.len()
            invariant
                b == block@,
                i <= b.transactions.len(),
                block_tx_hashes(b).len() == b.transactions.len(),
                b.transactions.len() == block.transactions@.len(),
                crate::types::prevs_of(hashes@) == block_tx_hashes(b).take(i as int),
            decreases b.transactions.len() - i,
        {
            let h = block.transactions[i].hash();
            assert(block_tx_hashes(b)[i as int] == transaction_hash(b.transactions[i as int]));
            let ghost before = crate::types::prevs_of(hashes@);
            let ghost hv = hashes@;
            hashes.push(h);
            proof {
                crate::types::lemma_prevs_of_push(hv, h);
            }
            i += 1;
            assert(crate::types::prevs_of(hashes@) =~= block_tx_hashes(b).take(i as int));
        }
        assert(block_tx_hashes(b).take(i as int) =~= block_tx_hashes(b));
        let ghost hs = block_tx_hashes(b);
        let ghost m0 = self@.mempool;
        let mut pending: Vec<(Timestamp, Transaction)> = Vec::new();
        std::mem::swap(&mut pending, &mut self.mempool);
        let ghost mut k: int = 0;
        assert(m0.take(0) =~= Seq::<(Timestamp, TransactionView)>::empty());
        assert(pool_view(self.mempool@) =~= Seq::<(Timestamp, TransactionView)>::empty());
        assert(pool_view(pending@) =~= m0.skip(0));
        assert(pending@.len() == m0.len());
        while pending.len() > 0
            invariant
                self.wf(),
                self@.utxos == old(self)@.utxos,
                self@.blocks == old(self)@.blocks,
                self@.target == old(self)@.target,
                crate::types::prevs_of(hashes@) == hs,
                0 <= k <= m0.len(),
                pending@.len() + k == m0.len(),
                pool_view(pending@) == m0.skip(k),
                pool_view(self.mempool@) == pool_without(m0.take(k), hs),
            decreases pending@.len(),
        {
            let ghost pv = pool_view(pending@);
            let ghost old_p = pending@;
            let (ts, tx) = pending.remove(0);
            assert(pv[0] == (ts, tx@));
            assert(m0.skip(k)[0] == m0[k]);
            assert(m0[k] == pv[0]);
            assert(m0.take(k + 1).drop_last() =~= m0.take(k));
            assert(m0.take(k + 1).last() == m0[k]);
            assert forall|x: int| 0 <= x < pool_view(pending@).len() implies pool_view(pending@)[x]
                == m0.skip(k + 1)[x] by {
                assert(pending@[x] == old_p[x + 1]);
                assert(pv[x + 1] == m0.skip(k)[x + 1]);
            }
            assert(pool_view(pending@) =~= m0.skip(k + 1));
            let h = tx.hash();
            if !crate::types::contains_hash(&hashes, &h) {
                let ghost before = self.mempool@;
                self.mempool.push((ts, tx));
                assert(pool_view(self.mempool@) =~= pool_view(before).push(m0[k]));
            }
            proof {
                k = k + 1;
            }
        }
        assert(m0.skip(k).len() == 0);
        assert(m0.take(k) =~= m0);
        let ghost bs = self.blocks@;
        self.blocks.push(block);
        assert(blocks_view(self.blocks@) =~= blocks_view(bs).push(b));
        self.try_adjust_target();
        proof {
            lemma_block_transactions_leave_mempool(old(self)@, b);
        }
        Ok(())
    }

    /// Replays every block onto the unspent outputs: each input's output leaves, and each
    /// transaction's outputs are stored, unmarked, under the transaction's hash.
    pub fn rebuild_utoxs(&mut self)
        requires
            old(self).wf(),
        ensures
            final(self).wf(),
            final(self)@.utxos == rebuild_blocks(old(self)@.utxos, old(self)@.blocks),
            final(self)@.blocks == old(self)@.blocks,
            final(self)@.target == old(self)@.target,
            final(self)@.mempool == old(self)@.mempool,
    {
        replay_blocks(&mut self.utxos, &self.blocks);
    }

    /// A chain rebuilt from stored parts, with an empty mempool.
    pub fn restore(
        utxo_entries: Vec<(crate::sha256::Hash, bool, TransactionOutput)>,
        target: U256,
        blocks: Vec<Block>,
    ) -> (c: Blockchain)
        ensures
            c.wf(),
            c@.utxos == crate::utxo::entries_map(
                utxo_entries@.map_values(
                    |e: (crate::sha256::Hash, bool, TransactionOutput)| crate::utxo::entry_view(e),
                ),
            ),
            c@.target == target.value(),
            c@.blocks == blocks_view(blocks@),
            c@.mempool.len() == 0,
    {
        let c = Blockchain {
            utxos: UtxoSet::from_entries(utxo_entries),
            target,
            blocks,
            mempool: Vec::new(),
        };
        assert(c@.mempool =~= Seq::<(Timestamp, TransactionView)>::empty());
        c
    }

    /// The unspent outputs locked to `key`, each with its mark.
    pub fn utxos_for_key(&self, key: &PublicKey) -> (r: Vec<(TransactionOutput, bool)>)
        requires
            self.wf(),
        ensures
            r@.map_values(|e: (TransactionOutput, bool)| (e.0@, e.1)) == outputs_for_key(
                self.utxo_entries(),
                key@,
            ),
            forall|i: int|
                0 <= i < r.len() ==> (#[trigger] r@[i]).0@.pubkey == key@ && exists|k: Seq<u8>|
                    self@.utxos.contains_key(k) && self@.utxos[k] == (r@[i].1, r@[i].0@),
            forall|k: Seq<u8>|
                #[trigger] self@.utxos.contains_key(k) && self@.utxos[k].1.pubkey == key@
                    ==> exists|i: int|
                    0 <= i < r.len() && r@[i].1 == self@.utxos[k].0 && r@[i].0@ == self@.utxos[k].1,
    {
        let ghost es = self.utxo_entries();
        let mut r: Vec<(TransactionOutput, bool)> = Vec::new();
        let mut i: usize = 0;
        let n = self.utxos.len();
        assert(es.take(0) =~= Seq::<UtxoEntryView>::empty());
        assert(r@.map_values(|e: (TransactionOutput, bool)| (e.0@, e.1)) =~= Seq::<
            (OutputView, bool),
        >::empty());
        while i < n
            invariant
                es == self.utxo_entries(),
                n == es.len(),
                i <= n,
                r@.map_values(|e: (TransactionOutput, bool)| (e.0@, e.1)) == outputs_for_key(
                    es.take(i as int),
                    key@,
                ),
            decreases n - i,
        {
            let (_, marked, out) = self.utxos.entry_at(i);
            assert(es.take(i + 1).drop_last() =~= es.take(i as int));
            assert(es.take(i + 1).last() == es[i as int]);
            if out.pubkey.equals(key) {
                let ghost before = r@;
                r.push((out.duplicate(), marked));
                assert(r@.map_values(|e: (TransactionOutput, bool)| (e.0@, e.1)) =~= before.map_values(
                    |e: (TransactionOutput, bool)| (e.0@, e.1),
                ).push((out@, marked)));
            }
            i += 1;
        }
        assert(es.take(n as int) =~= es);
        proof {
            let o = outputs_for_key(es, key@);
            let mv = r@.map_values(|e: (TransactionOutput, bool)| (e.0@, e.1));
            lemma_outputs_for_key_marks(es, key@);
            assert(self@.utxos == crate::utxo::entries_map(es));
            assert forall|i: int| 0 <= i < r.len() implies (#[trigger] r@[i]).0@.pubkey == key@
                && exists|k: Seq<u8>|
                self@.utxos.contains_key(k) && self@.utxos[k] == (r@[i].1, r@[i].0@) by {
                assert(mv[i] == o[i]);
                assert(o[i].0.pubkey == key@);
                let k = choose|k: Seq<u8>|
                    crate::utxo::entries_map(es).contains_key(k) && crate::utxo::entries_map(es)[k]
                        == (o[i].1, o[i].0);
                assert(self@.utxos.contains_key(k) && self@.utxos[k] == (r@[i].1, r@[i].0@));
            }
            assert forall|k: Seq<u8>|
                #[trigger] self@.utxos.contains_key(k) && self@.utxos[k].1.pubkey == key@ implies exists|
                i: int,
            | 0 <= i < r.len() && r@[i].1 == self@.utxos[k].0 && r@[i].0@ == self@.utxos[k].1 by {
                let i = choose|i: int|
                    0 <= i < o.len() && o[i] == (self@.utxos[k].1, self@.utxos[k].0);
                assert(mv[i] == o[i]);
            }
        }
        r
    }

    /// How many blocks this chain holds beyond `height`, as the protocol's `i32`.
    pub fn height_difference(&self, height: u32) -> (r: i32)
        requires
            i32::MIN <= (self@.blocks.len() as u64 as i32) - (height as i32) <= i32::MAX,
        ensures
            r == (self@.blocks.len() as u64 as i32) - (height as i32),
    {
        let a = #[verifier::truncate] (self.block_height() as i32);
        let b = #[verifier::truncate] (height as i32);
        a - b
    }

    /// The hash a new block must link to.
    pub fn tip_hash(&self) -> (r: crate::sha256::Hash)
        ensures
            r@ == tip(self@.blocks),
    {
        let n = self.blocks.len();
        if n > 0 {
            assert(self@.blocks.last() == self.blocks@[n - 1]@);
            self.blocks[n - 1].hash()
        } else {
            crate::sha256::Hash::zero()
        }
    }

    /// Whether a template still links to the end of the chain.
    pub fn template_is_current(&self, template: &Block) -> (r: bool)
        ensures
            r == (template@.header.previous_hash == tip(self@.blocks)),
    {
        self.tip_hash().equals(&template.header.previous_hash)
    }

    /// The miner fee of a block template: the sum of the fees of the mempool
    /// transactions it takes; `None` when that cannot be computed in `u64`.
    pub fn template_fee(&self) -> (r: Option<u64>)
        requires
            self.wf(),
        ensures
            r is Some <==> fees_computable(self@.utxos, template_picks(self@.mempool)),
            r matches Some(f) ==> f == fees_total(self@.utxos, template_picks(self@.mempool)),
    {
        let ghost u = self@.utxos;
        let ghost picks = template_picks(self@.mempool);
        let n = if self.mempool.len() < BLOCK_TRANSACTION_CAP {
            self.mempool.len()
        } else {
            BLOCK_TRANSACTION_CAP
        };
        assert(picks.len() == n);
        let mut total: u64 = 0;
        let mut i: usize = 0;
        assert(picks.take(0) =~= Seq::<TransactionView>::empty());
        while i < n
            invariant
                self.wf(),
                u == self@.utxos,
                picks == template_picks(self@.mempool),
                n == picks.len(),
                n <= self.mempool@.len(),
                i <= n,
                total == fees_total(u, picks.take(i as int)),
                forall|k: int| 0 <= k < i ==> fee_computable(u, #[trigger] picks[k]),
            decreases n - i,
        {
            let tx = &self.mempool[i].1;
            assert(picks[i as int] == tx@);
            assert(picks.take(i + 1).drop_last() =~= picks.take(i as int));
            match fee_checked(&self.utxos, tx) {
                None => {
                    return None;
                },
                Some(f) => {
                    match total.checked_add(f) {
                        None => {
                            proof {
                                if forall|k: int|
                                    0 <= k < picks.len() ==> fee_computable(u, #[trigger] picks[k]) {
                                    lemma_fees_total_prefix(u, picks, i + 1);
                                }
                            }
                            return None;
                        },
                        Some(t) => {
                            total = t;
                        },
                    }
                },
            }
            i += 1;
        }
        assert(picks.take(n as int) =~= picks);
        Some(total)
    }

    /// A block template for a miner: a coinbase to `pubkey` with id `unique_id` paying
    /// `reward` plus the miner fee, then the first mempool transactions; the header carries
    /// `now`, nonce zero, the hash of the last block, the Merkle root and the current target.
    /// `None` when the miner fee cannot be computed (see `template_fee`).
    pub fn block_template(
        &self,
        pubkey: &PublicKey,
        now: Timestamp,
        unique_id: u128,
        reward: u64,
    ) -> (r: Option<Block>)
        requires
            self.wf(),
            fees_computable(self@.utxos, template_picks(self@.mempool)) ==> reward + fees_total(
                self@.utxos,
                template_picks(self@.mempool),
            ) <= u64::MAX,
        ensures
            r is Some <==> fees_computable(self@.utxos, template_picks(self@.mempool)),
            r matches Some(b) ==> {
                &&& b@.transactions == template_transactions(
                    self@.mempool,
                    pubkey@,
                    unique_id,
                    (reward + fees_total(self@.utxos, template_picks(self@.mempool))) as u64,
                )
                &&& b@.header.timestamp == now
                &&& b@.header.nonce == 0
                &&& b@.header.previous_hash == tip(self@.blocks)
                &&& b@.header.merkle_root == merkle_root(b@.transactions)
                &&& b.header.target.value() == self@.target
            },
    {
        let fees = match self.template_fee() {
            None => {
                return None;
            },
            Some(f) => f,
        };
        let value = reward + fees;
        let ghost m = self@.mempool;
        let coinbase_tx = Transaction {
            inputs: Vec::new(),
            outputs: vec![
                TransactionOutput {
                    value,
                    unique_id,
                    pubkey: pubkey.duplicate(),
                },
            ],
        };
        assert(coinbase_tx@ =~= coinbase(pubkey@, unique_id, value)) by {
            assert(coinbase_tx@.inputs =~= Seq::<crate::types::InputView>::empty());
            assert(coinbase_tx@.outputs =~= seq![OutputView { value, unique_id, pubkey: pubkey@ }]);
        }
        let mut transactions: Vec<Transaction> = Vec::new();
        transactions.push(coinbase_tx);
        let n = if self.mempool.len() < BLOCK_TRANSACTION_CAP {
            self.mempool.len()
        } else {
            BLOCK_TRANSACTION_CAP
        };
        let ghost picked = m.take(n as int).map_values(|e: (Timestamp, TransactionView)| e.1);
        let mut i: usize = 0;
        while i < n
            invariant
                m == pool_view(self.mempool@),
                n <= self.mempool@.len(),
                i <= n,
                picked == m.take(n as int).map_values(|e: (Timestamp, TransactionView)| e.1),
                transactions@.map_values(|t: Transaction| t@) == seq![coinbase(pubkey@, unique_id, value)]
                    + picked.take(i as int),
            decreases n - i,
        {
            let tx = self.mempool[i].1.duplicate();
            assert(picked[i as int] == m[i as int].1);
            assert(m[i as int].1 == self.mempool@[i as int].1@);
            let ghost before = transactions@;
            let ghost tv = tx@;
            assert(tv == picked[i as int]);
            assert(picked.len() == n);
            transactions.push(tx);
            assert(transactions@.map_values(|t: Transaction| t@) =~= before.map_values(
                |t: Transaction| t@,
            ).push(tv));
            assert(picked.take(i + 1) =~= picked.take(i as int).push(tv));
            i += 1;
            assert(transactions@.map_values(|t: Transaction| t@) =~= seq![coinbase(pubkey@, unique_id, value)]
                + picked.take(i as int));
        }
        assert(picked.take(n as int) =~= picked);
        let merkle_root = MerkleRoot::calculate(&transactions);
        let header = BlockHeader {
            timestamp: now,
            nonce: 0,
            previous_hash: self.tip_hash(),
            merkle_root,
            target: self.target,
        };
        Some(Block { header, transactions })
    }

    /// Whether checking `block` against this chain would leave the range of `u64`: the case
    /// `add_block` leaves out.
    pub fn block_overflows_at(&self, block: &Block) -> (r: bool)
        requires
            self.wf(),
        ensures
            r == block_overflows(self@, block@),
    {
        match check_header(&self.blocks, block) {
            Some(_) => false,
            None => block.check_transactions(&self.utxos) == crate::types::CheckResult::Overflow,
        }
    }

    /// Whether adding `transaction` to the mempool would leave the range of `u64`: the case
    /// `add_to_mempool` leaves out.
    pub fn mempool_add_overflows_at(&self, transaction: &Transaction) -> (r: bool)
        requires
            self.wf(),
        ensures
            r == mempool_add_overflows(self@.utxos, self@.mempool, transaction@),
    {
        let ghost t = transaction@;
        let ghost u0 = self@.utxos;
        let ghost m0 = self@.mempool;
        let ghost ps = input_prevs(t);
        if !inputs_acceptable_exec(&self.utxos, transaction) {
            return false;
        }
        let ins = checked_input_sum(&self.utxos, transaction);
        let outs = checked_output_sum(transaction);
        match (ins, outs) {
            (Some(a), Some(b)) => {
                if a < b {
                    return false;
                }
            },
            _ => {
                return true;
            },
        }
        let mut copy = Blockchain {
            utxos: self.utxos.duplicate(),
            target: self.target,
            blocks: Vec::new(),
            mempool: Vec::new(),
        };
        let mut i: usize = 0;
        while i < self.mempool.len()
            invariant
                self.wf(),
                copy.utxos.wf(),
                copy.utxos@ == self.utxos@,
                copy.target == self.target,
                i <= self.mempool@.len(),
                copy.mempool@.len() == i,
                forall|j: int|
                    0 <= j < i ==> (#[trigger] copy.mempool@[j]).0 == self.mempool@[j].0
                        && copy.mempool@[j].1@ == self.mempool@[j].1@,
            decreases self.mempool@.len() - i,
        {
            let e = &self.mempool[i];
            let d = e.1.duplicate();
            let ghost before = copy.mempool@;
            copy.mempool.push((e.0, d));
            i += 1;
        }
        assert(pool_view(copy.mempool@) =~= m0);
        assert(copy.wf());
        let mut j: usize = 0;
        assert(ps.take(0) =~= Seq::<Seq<u8>>::empty());
        while j < transaction.inputs.len()
            invariant
                copy.wf(),
                t == transaction@,
                ps == input_prevs(t),
                j <= ps.len(),
                (copy@.utxos, copy@.mempool) == release(u0, m0, ps.take(j as int)),
            decreases ps.len() - j,
        {
            assert(ps[j as int] == transaction.inputs@[j as int].prev_transaction_output_hash@);
            copy.release_spent(&transaction.inputs[j].prev_transaction_output_hash);
            assert(ps.take(j + 1).drop_last() =~= ps.take(j as int));
            j += 1;
        }
        assert(ps.take(ps.len() as int) =~= ps);
        let ghost rest = copy@.mempool;
        assert(rest == release(u0, m0, ps).1);
        let mut k: usize = 0;
        while k < copy.mempool.len()
            invariant
                self.wf(),
                u0 == self@.utxos,
                m0 == self@.mempool,
                t == transaction@,
                ps == input_prevs(t),
                inputs_acceptable(u0, t),
                input_sum(u0, ps) >= output_sum(t.outputs),
                input_sum(u0, ps) <= u64::MAX,
                output_sum(t.outputs) <= u64::MAX,
                rest == release(u0, m0, ps).1,
                rest == pool_view(copy.mempool@),
                k <= rest.len(),
                forall|x: int| 0 <= x < k ==> fee_computable(u0, #[trigger] rest[x].1),
            decreases rest.len() - k,
        {
            assert(rest[k as int].1 == copy.mempool@[k as int].1@);
            if fee_checked(&self.utxos, &copy.mempool[k].1).is_none() {
                assert(!fee_computable(u0, release(u0, m0, ps).1[k as int].1));
                return true;
            }
            k += 1;
        }
        false
    }
}

} // verus!
