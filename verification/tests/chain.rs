use btclib::crypto::{PublicKey, Signature};
use btclib::error::BtcError;
use btclib::network::Message;
use btclib::node::{handle_message, message_overflows, Action};
use btclib::time::Timestamp;
use btclib::types::blockchain::{retarget, Blockchain};
use btclib::types::{
    Block, BlockHeader, Transaction, TransactionInput, TransactionOutput,
};
use btclib::u256::U256;
use btclib::util::MerkleRoot;
use k256::ecdsa::signature::Signer;
use k256::ecdsa::SigningKey;

fn key(seed: u8) -> SigningKey {
    SigningKey::from_bytes(&[seed; 32].into()).unwrap()
}

fn public(k: &SigningKey) -> PublicKey {
    PublicKey { bytes: k.verifying_key().to_sec1_bytes().to_vec() }
}

fn sign(k: &SigningKey, h: &btclib::sha256::Hash) -> Signature {
    let sig: k256::ecdsa::Signature = k.sign(h.as_bytes());
    Signature { bytes: sig.to_bytes().to_vec() }
}

fn at(secs: i64) -> Timestamp {
    Timestamp { secs, nanos: 0 }
}

fn easy() -> U256 {
    U256::from_be_bytes([0xff; 32])
}

fn coinbase(value: u64, id: u128, k: &SigningKey) -> Transaction {
    Transaction::new(vec![], vec![TransactionOutput { value, unique_id: id, pubkey: public(k) }])
}

fn block_on(prev: btclib::sha256::Hash, secs: i64, txs: Vec<Transaction>) -> Block {
    let root = MerkleRoot::calculate(&txs);
    Block::new(BlockHeader::new(at(secs), 0, prev, root, easy()), txs)
}

fn spend(prev: btclib::sha256::Hash, owner: &SigningKey, outs: Vec<(u64, u128, &SigningKey)>) -> Transaction {
    let input = TransactionInput { prev_transaction_output_hash: prev, signature: sign(owner, &prev) };
    let outputs = outs
        .into_iter()
        .map(|(v, id, k)| TransactionOutput { value: v, unique_id: id, pubkey: public(k) })
        .collect();
    Transaction::new(vec![input], outputs)
}

/// A chain holding one genesis block whose coinbase pays `alice` nothing; the UTXO set is
/// rebuilt so that the coinbase output sits under the coinbase's hash.
fn genesis_chain(alice: &SigningKey) -> (Blockchain, btclib::sha256::Hash) {
    let mut chain = Blockchain::new();
    let cb = coinbase(0, 1, alice);
    let cb_hash = cb.hash();
    let genesis = block_on(btclib::sha256::Hash::zero(), 10, vec![cb]);
    assert_eq!(chain.add_block(genesis), Ok(()));
    chain.rebuild_utoxs();
    (chain, cb_hash)
}

#[test]
fn new_chain_is_empty_with_easiest_target() {
    let chain = Blockchain::new();
    assert_eq!(chain.block_height(), 0);
    assert_eq!(chain.mempool().len(), 0);
    assert_eq!(chain.utxos().len(), 0);
    assert!(chain.target().equals(&btclib::min_target()));
    assert!(chain.tip_hash().equals(&btclib::sha256::Hash::zero()));
}

#[test]
fn genesis_must_link_to_zero_hash() {
    let alice = key(1);
    let mut chain = Blockchain::new();
    let b = block_on(btclib::sha256::Hash(U256::from_be_bytes([1; 32])), 10, vec![coinbase(0, 1, &alice)]);
    assert_eq!(chain.add_block(b), Err(BtcError::InvalidBlock));
    assert_eq!(chain.block_height(), 0);
}

#[test]
fn block_refused_for_wrong_merkle_root_or_hash() {
    let alice = key(1);
    let mut chain = Blockchain::new();
    let txs = vec![coinbase(0, 1, &alice)];
    let wrong_root = MerkleRoot(btclib::sha256::Hash(U256::from_be_bytes([7; 32])));
    let b = Block::new(BlockHeader::new(at(10), 0, btclib::sha256::Hash::zero(), wrong_root, easy()), txs);
    assert_eq!(chain.add_block(b), Err(BtcError::InvalidMerkeleRoot));
    let txs = vec![coinbase(0, 1, &alice)];
    let root = MerkleRoot::calculate(&txs);
    let b = Block::new(BlockHeader::new(at(10), 0, btclib::sha256::Hash::zero(), root, U256::zero()), txs);
    assert_eq!(chain.add_block(b), Err(BtcError::InvalidHash));
    assert_eq!(chain.block_height(), 0);
}

#[test]
fn empty_block_and_overpaying_coinbase_are_refused() {
    let alice = key(1);
    let mut chain = Blockchain::new();
    assert_eq!(chain.add_block(block_on(btclib::sha256::Hash::zero(), 10, vec![])), Err(BtcError::InvalidTransection));
    let b = block_on(btclib::sha256::Hash::zero(), 10, vec![coinbase(50, 1, &alice)]);
    assert_eq!(chain.add_block(b), Err(BtcError::InvalidTransection));
    assert_eq!(chain.block_height(), 0);
}

#[test]
fn blocks_link_by_hash_and_time() {
    let alice = key(1);
    let (mut chain, _) = genesis_chain(&alice);
    let tip = chain.tip_hash();
    assert!(tip.equals(&chain.blocks()[0].hash()));
    let late = block_on(tip, 10, vec![coinbase(0, 2, &alice)]);
    assert_eq!(chain.add_block(late), Err(BtcError::InvalidBlock));
    let unlinked = block_on(btclib::sha256::Hash::zero(), 20, vec![coinbase(0, 2, &alice)]);
    assert_eq!(chain.add_block(unlinked), Err(BtcError::InvalidBlock));
    let good = block_on(tip, 20, vec![coinbase(0, 2, &alice)]);
    assert_eq!(chain.add_block(good), Ok(()));
    assert_eq!(chain.block_height(), 2);
    assert_eq!(chain.height_difference(0), 2);
    assert_eq!(chain.height_difference(5), -3);
}

#[test]
fn rebuild_puts_coinbase_output_under_transaction_hash() {
    let alice = key(1);
    let (chain, cb_hash) = genesis_chain(&alice);
    assert_eq!(chain.utxos().len(), 1);
    let (marked, out) = chain.utxos().get(&cb_hash).unwrap();
    assert!(!marked);
    assert_eq!(out.value, 0);
    let mine = chain.utxos_for_key(&public(&alice));
    assert_eq!(mine.len(), 1);
    assert_eq!(mine[0].0.unique_id, 1);
    assert!(!mine[0].1);
    assert_eq!(chain.utxos_for_key(&public(&key(2))).len(), 0);
}

#[test]
fn rebuilding_twice_gives_what_rebuilding_once_gave() {
    let alice = key(1);
    let bob = key(2);
    let (mut chain, cb_hash) = genesis_chain(&alice);
    let tip = chain.blocks()[0].hash();
    let cb2 = coinbase(0, 2, &bob);
    let cb2_hash = cb2.hash();
    let pay = spend(cb_hash, &alice, vec![(0, 7, &bob)]);
    let pay_hash = pay.hash();
    assert_eq!(chain.add_block(block_on(tip, 20, vec![cb2, pay])), Ok(()));
    chain.rebuild_utoxs();
    let once: Vec<_> = [cb_hash, cb2_hash, pay_hash].iter().map(|h| chain.utxos().get(h).map(|(m, o)| (m, o.unique_id))).collect();
    assert_eq!(once, vec![None, Some((false, 2)), Some((false, 7))]);
    assert_eq!(chain.utxos().len(), 2);
    chain.rebuild_utoxs();
    let twice: Vec<_> = [cb_hash, cb2_hash, pay_hash].iter().map(|h| chain.utxos().get(h).map(|(m, o)| (m, o.unique_id))).collect();
    assert_eq!(twice, once);
    assert_eq!(chain.utxos().len(), 2);
}

#[test]
fn mempool_accepts_valid_spend_and_marks_output() {
    let alice = key(1);
    let bob = key(2);
    let (mut chain, cb_hash) = genesis_chain(&alice);
    let tx = spend(cb_hash, &alice, vec![(0, 10, &bob)]);
    assert_eq!(chain.add_to_mempool_at(tx, at(100)), Ok(()));
    assert_eq!(chain.mempool().len(), 1);
    assert_eq!(chain.mempool()[0].0.secs, 100);
    assert!(chain.utxos().get(&cb_hash).unwrap().0);
}

#[test]
fn mempool_refuses_unknown_or_repeated_inputs() {
    let alice = key(1);
    let (mut chain, cb_hash) = genesis_chain(&alice);
    let unknown = spend(btclib::sha256::Hash(U256::from_be_bytes([3; 32])), &alice, vec![]);
    assert_eq!(chain.add_to_mempool_at(unknown, at(100)), Err(BtcError::InvalidTransection));
    let input = |h: btclib::sha256::Hash| TransactionInput { prev_transaction_output_hash: h, signature: sign(&alice, &h) };
    let twice = Transaction::new(vec![input(cb_hash), input(cb_hash)], vec![]);
    assert_eq!(chain.add_to_mempool_at(twice, at(100)), Err(BtcError::InvalidTransection));
    assert_eq!(chain.mempool().len(), 0);
    assert!(!chain.utxos().get(&cb_hash).unwrap().0);
}

#[test]
fn mempool_refuses_spending_more_than_inputs() {
    let alice = key(1);
    let bob = key(2);
    let (mut chain, cb_hash) = genesis_chain(&alice);
    let tx = spend(cb_hash, &alice, vec![(1, 10, &bob)]);
    assert_eq!(chain.add_to_mempool_at(tx, at(100)), Err(BtcError::InvalidTransection));
    assert_eq!(chain.mempool().len(), 0);
    assert!(!chain.utxos().get(&cb_hash).unwrap().0);
}

#[test]
fn mempool_second_spend_evicts_first_spender() {
    let alice = key(1);
    let bob = key(2);
    let (mut chain, cb_hash) = genesis_chain(&alice);
    let first = spend(cb_hash, &alice, vec![(0, 10, &bob)]);
    let second = spend(cb_hash, &alice, vec![(0, 11, &bob)]);
    assert_eq!(chain.add_to_mempool_at(first, at(100)), Ok(()));
    assert_eq!(chain.add_to_mempool_at(second, at(200)), Ok(()));
    assert_eq!(chain.mempool().len(), 1);
    assert_eq!(chain.mempool()[0].0.secs, 200);
    assert_eq!(chain.mempool()[0].1.outputs[0].unique_id, 11);
    assert!(chain.utxos().get(&cb_hash).unwrap().0);
}

#[test]
fn mempool_eviction_unmarks_other_inputs_of_evicted_spender() {
    let alice = key(1);
    let bob = key(2);
    let h = |x: u8| btclib::sha256::Hash(U256::from_be_bytes([x; 32]));
    let out = |id: u128| TransactionOutput { value: 5, unique_id: id, pubkey: public(&alice) };
    let entries = vec![(h(1), false, out(1)), (h(2), false, out(2)), (h(3), false, out(3))];
    let mut chain = Blockchain::restore(entries, btclib::min_target(), vec![]);
    let input = |x: u8| TransactionInput { prev_transaction_output_hash: h(x), signature: sign(&alice, &h(x)) };
    let out_bob = |id: u128| TransactionOutput { value: 1, unique_id: id, pubkey: public(&bob) };
    let t1 = Transaction::new(vec![input(1), input(2)], vec![out_bob(10)]);
    let t2 = Transaction::new(vec![input(2), input(3)], vec![out_bob(11)]);
    assert_eq!(chain.add_to_mempool_at(t1, at(100)), Ok(()));
    assert!(chain.utxos().get(&h(1)).unwrap().0);
    assert_eq!(chain.add_to_mempool_at(t2, at(200)), Ok(()));
    assert_eq!(chain.mempool().len(), 1);
    assert_eq!(chain.mempool()[0].1.outputs[0].unique_id, 11);
    assert!(!chain.utxos().get(&h(1)).unwrap().0);
    assert!(chain.utxos().get(&h(2)).unwrap().0);
    assert!(chain.utxos().get(&h(3)).unwrap().0);
}

#[test]
fn mempool_sorted_by_decreasing_fee() {
    let alice = key(1);
    let bob = key(2);
    let mut entries = Vec::new();
    let h1 = btclib::sha256::Hash(U256::from_be_bytes([1; 32]));
    let h2 = btclib::sha256::Hash(U256::from_be_bytes([2; 32]));
    entries.push((h1, false, TransactionOutput { value: 10, unique_id: 1, pubkey: public(&alice) }));
    entries.push((h2, false, TransactionOutput { value: 10, unique_id: 2, pubkey: public(&alice) }));
    let mut chain = Blockchain::restore(entries, btclib::min_target(), vec![]);
    chain.add_to_mempool_at(spend(h1, &alice, vec![(9, 3, &bob)]), at(1)).unwrap();
    chain.add_to_mempool_at(spend(h2, &alice, vec![(4, 4, &bob)]), at(2)).unwrap();
    assert_eq!(chain.mempool()[0].0.secs, 2);
    assert_eq!(chain.mempool()[1].0.secs, 1);
}

#[test]
fn cleanup_drops_old_entries_and_unmarks() {
    let alice = key(1);
    let bob = key(2);
    let (mut chain, cb_hash) = genesis_chain(&alice);
    chain.add_to_mempool_at(spend(cb_hash, &alice, vec![(0, 10, &bob)]), at(100)).unwrap();
    chain.cleanup_mempool_at(at(700));
    assert_eq!(chain.mempool().len(), 1);
    assert!(chain.utxos().get(&cb_hash).unwrap().0);
    chain.cleanup_mempool_at(Timestamp { secs: 700, nanos: 1 });
    assert_eq!(chain.mempool().len(), 0);
    assert!(!chain.utxos().get(&cb_hash).unwrap().0);
}

#[test]
fn block_with_bad_signature_is_refused() {
    let alice = key(1);
    let bob = key(2);
    let (mut chain, cb_hash) = genesis_chain(&alice);
    let forged = spend(cb_hash, &bob, vec![(0, 10, &bob)]);
    let b = block_on(chain.tip_hash(), 20, vec![forged]);
    assert_eq!(chain.add_block(b), Err(BtcError::InvalidSignature));
    let honest = spend(cb_hash, &alice, vec![(0, 10, &bob)]);
    let b = block_on(chain.tip_hash(), 20, vec![honest]);
    assert_eq!(chain.add_block(b), Ok(()));
}

#[test]
fn block_refuses_double_spend_inside_block() {
    let alice = key(1);
    let bob = key(2);
    let (mut chain, cb_hash) = genesis_chain(&alice);
    let a = spend(cb_hash, &alice, vec![(0, 10, &bob)]);
    let b = spend(cb_hash, &alice, vec![(0, 11, &bob)]);
    let blk = block_on(chain.tip_hash(), 20, vec![a, b]);
    assert_eq!(chain.add_block(blk), Err(BtcError::InvalidTransection));
}

#[test]
fn added_block_takes_its_transactions_out_of_mempool() {
    let alice = key(1);
    let bob = key(2);
    let (mut chain, cb_hash) = genesis_chain(&alice);
    let tx = spend(cb_hash, &alice, vec![(0, 10, &bob)]);
    chain.add_to_mempool_at(tx.duplicate(), at(100)).unwrap();
    assert!(!chain.template_is_current(&block_on(btclib::sha256::Hash::zero(), 20, vec![])));
    let template = chain.block_template(&public(&bob), at(20), 77, 0).unwrap();
    assert!(chain.template_is_current(&template));
    assert_eq!(template.transactions.len(), 2);
    assert_eq!(template.transactions[0].outputs[0].unique_id, 77);
    assert_eq!(template.transactions[0].outputs[0].value, 0);
    assert!(template.transactions[1].hash().equals(&tx.hash()));
    assert!(template.header.merkle_root.0.equals(&MerkleRoot::calculate(&template.transactions).0));
    let blk = block_on(chain.tip_hash(), 20, vec![tx]);
    assert_eq!(chain.add_block(blk), Ok(()));
    assert_eq!(chain.mempool().len(), 0);
}

fn chain_of(n: i64, step: i64) -> Blockchain {
    let alice = key(1);
    let mut chain = Blockchain::new();
    for i in 0..n {
        let b = block_on(chain.tip_hash(), 1000 + i * step, vec![coinbase(0, i as u128, &alice)]);
        chain.add_block(b).unwrap();
    }
    chain
}

#[test]
fn target_adjusts_after_fifty_blocks() {
    let min = btclib::min_target();
    let chain = chain_of(49, 5);
    assert!(chain.target().equals(&min));
    // 50 blocks, 49 gaps of 5 s: 245 s against 500 s, so the target nearly halves.
    let chain = chain_of(50, 5);
    let (expected, _) = min.checked_mul_add_small(49, 0).unwrap().div_rem_small(100);
    assert!(chain.target().equals(&expected));
}

#[test]
fn target_adjustment_is_clamped() {
    let min = btclib::min_target();
    let (quarter, _) = min.div_rem_small(4);
    let fast = chain_of(50, 1);
    assert!(fast.target().equals(&quarter));
    let slow = chain_of(50, 100);
    assert!(slow.target().equals(&min));
}

#[test]
fn restore_keeps_any_target() {
    let easiest = Blockchain::restore(vec![], U256::from_be_bytes([0xff; 32]), vec![]);
    assert!(easiest.target().equals(&U256::from_be_bytes([0xff; 32])));
    let min = Blockchain::restore(vec![], btclib::min_target(), vec![]);
    assert!(min.target().equals(&btclib::min_target()));
    assert_eq!(min.mempool().len(), 0);
}

#[test]
fn retarget_from_huge_target_stays_in_range() {
    let cur = U256::from_be_bytes([0xff; 32]);
    assert!(retarget(cur, b"5").unwrap().equals(&btclib::min_target()));
    assert!(retarget(cur, &cur.to_decimal()).unwrap().equals(&btclib::min_target()));
}

#[test]
fn legacy_chain_links_blocks_and_rebuilds() {
    let alice = key(1);
    let mut chain = btclib::types::Blockchain::new();
    let cb = coinbase(5, 1, &alice);
    let cb_hash = cb.hash();
    assert_eq!(chain.add_block(block_on(btclib::sha256::Hash::zero(), 10, vec![cb])), Ok(()));
    let tip = chain.blocks[0].hash();
    assert_eq!(chain.add_block(block_on(btclib::sha256::Hash::zero(), 20, vec![])), Err(BtcError::InvalidBlock));
    assert_eq!(chain.add_block(block_on(tip, 20, vec![])), Ok(()));
    chain.rebuild_utoxs();
    assert_eq!(chain.utxos.get(&cb_hash).unwrap().1.value, 5);
}

#[test]
fn handler_answers_questions_and_closes_on_foreign_answers() {
    let alice = key(1);
    let (mut chain, _) = genesis_chain(&alice);
    let nodes = vec![String::from("a:1")];
    match handle_message(&mut chain, Message::DiscoverNodes, nodes.clone(), at(50), 1, 0) {
        Action::Reply(Message::NodesList(n)) => assert_eq!(n, nodes),
        other => panic!("unexpected {:?}", other),
    }
    match handle_message(&mut chain, Message::AskDifference(3), vec![], at(50), 1, 0) {
        Action::Reply(Message::Difference(d)) => assert_eq!(d, -2),
        other => panic!("unexpected {:?}", other),
    }
    match handle_message(&mut chain, Message::FetchBlock(0), vec![], at(50), 1, 0) {
        Action::Reply(Message::NewBlock(b)) => assert!(b.hash().equals(&chain.blocks()[0].hash())),
        other => panic!("unexpected {:?}", other),
    }
    assert!(matches!(handle_message(&mut chain, Message::FetchBlock(1), vec![], at(50), 1, 0), Action::Close));
    assert!(matches!(handle_message(&mut chain, Message::Difference(4), vec![], at(50), 1, 0), Action::Close));
    match handle_message(&mut chain, Message::FetchTemplate(public(&alice)), vec![], at(70), 9, 0) {
        Action::Reply(Message::Template(t)) => {
            assert_eq!(t.header.timestamp.secs, 70);
            assert_eq!(t.transactions[0].outputs[0].unique_id, 9);
            assert!(t.header.previous_hash.equals(&chain.blocks()[0].hash()));
        }
        other => panic!("unexpected {:?}", other),
    }
    assert_eq!(chain.block_height(), 1);
}

#[test]
fn handler_broadcasts_submitted_transaction_and_closes_on_refusal() {
    let alice = key(1);
    let bob = key(2);
    let (mut chain, cb_hash) = genesis_chain(&alice);
    let tx = spend(cb_hash, &alice, vec![(0, 10, &bob)]);
    let msg = Message::SubmitTransaction(tx.duplicate());
    assert!(!message_overflows(&chain, &msg, 0));
    match handle_message(&mut chain, msg, vec![], at(100), 1, 0) {
        Action::Broadcast(Message::NewTrasaction(t)) => assert!(t.hash().equals(&tx.hash())),
        other => panic!("unexpected {:?}", other),
    }
    assert_eq!(chain.mempool().len(), 1);
    let greedy = spend(cb_hash, &alice, vec![(1, 11, &bob)]);
    assert!(matches!(
        handle_message(&mut chain, Message::NewTrasaction(greedy), vec![], at(110), 1, 0),
        Action::Close
    ));
}

#[test]
fn handler_adds_submitted_block_rebuilds_and_broadcasts() {
    let alice = key(1);
    let (mut chain, _) = genesis_chain(&alice);
    let tip = chain.blocks()[0].hash();
    let cb = coinbase(0, 2, &alice);
    let cb_hash = cb.hash();
    let block = block_on(tip, 20, vec![cb]);
    match handle_message(&mut chain, Message::SubmitTemplate(block), vec![], at(30), 1, 0) {
        Action::Broadcast(Message::NewBlock(b)) => assert!(b.header.previous_hash.equals(&tip)),
        other => panic!("unexpected {:?}", other),
    }
    assert_eq!(chain.block_height(), 2);
    assert!(chain.utxos().get(&cb_hash).is_some());
    let stale = block_on(tip, 40, vec![coinbase(0, 3, &alice)]);
    assert!(matches!(handle_message(&mut chain, Message::NewBlock(stale), vec![], at(50), 1, 0), Action::Close));
    assert_eq!(chain.block_height(), 2);
}

fn valued_chain(alice: &SigningKey) -> Blockchain {
    let h = |x: u8| btclib::sha256::Hash(U256::from_be_bytes([x; 32]));
    let out = |id: u128| TransactionOutput { value: 5, unique_id: id, pubkey: public(alice) };
    Blockchain::restore(vec![(h(1), false, out(1)), (h(2), false, out(2))], btclib::min_target(), vec![])
}

#[test]
fn template_coinbase_pays_reward_plus_miner_fee() {
    let alice = key(1);
    let bob = key(2);
    let mut chain = valued_chain(&alice);
    let h1 = btclib::sha256::Hash(U256::from_be_bytes([1; 32]));
    let h2 = btclib::sha256::Hash(U256::from_be_bytes([2; 32]));
    assert_eq!(chain.add_to_mempool_at(spend(h1, &alice, vec![(1, 10, &bob)]), at(100)), Ok(()));
    assert_eq!(chain.add_to_mempool_at(spend(h2, &alice, vec![(3, 11, &bob)]), at(100)), Ok(()));
    assert_eq!(chain.template_fee(), Some(6));
    let template = chain.block_template(&public(&bob), at(120), 5, 10).unwrap();
    assert_eq!(template.transactions.len(), 3);
    assert_eq!(template.transactions[0].outputs[0].value, 16);
    match handle_message(&mut chain, Message::FetchTemplate(public(&bob)), vec![], at(130), 6, 50) {
        Action::Reply(Message::Template(t)) => assert_eq!(t.transactions[0].outputs[0].value, 56),
        other => panic!("unexpected {:?}", other),
    }
    assert!(message_overflows(&chain, &Message::FetchTemplate(public(&bob)), u64::MAX));
}

#[test]
fn template_refused_when_a_pending_input_is_gone() {
    let alice = key(1);
    let bob = key(2);
    let mut chain = valued_chain(&alice);
    let h1 = btclib::sha256::Hash(U256::from_be_bytes([1; 32]));
    assert_eq!(chain.add_to_mempool_at(spend(h1, &alice, vec![(1, 10, &bob)]), at(100)), Ok(()));
    let other = spend(h1, &alice, vec![(2, 12, &bob)]);
    let block = block_on(btclib::sha256::Hash::zero(), 20, vec![coinbase(0, 3, &alice), other]);
    assert_eq!(chain.add_block(block), Ok(()));
    chain.rebuild_utoxs();
    assert_eq!(chain.mempool().len(), 1);
    assert_eq!(chain.template_fee(), None);
    assert!(chain.block_template(&public(&bob), at(120), 5, 0).is_none());
    assert!(matches!(
        handle_message(&mut chain, Message::FetchTemplate(public(&bob)), vec![], at(130), 6, 0),
        Action::Close
    ));
}
