use btclib::crypto::{PublicKey, Signature};
use btclib::error::BtcError;
use btclib::network::Message;
use btclib::node::LongestChain;
use btclib::time::Timestamp;
use btclib::types::{Transaction, TransactionInput, TransactionOutput};
use btclib::types::blockchain::retarget;
use btclib::u256::U256;
use btclib::util::MerkleRoot;
use btclib::utxo::UtxoSet;

fn u256_of(x: u128) -> U256 {
    let mut b = [0u8; 32];
    b[16..].copy_from_slice(&x.to_be_bytes());
    U256::from_be_bytes(b)
}

fn hash_of_byte(x: u8) -> btclib::sha256::Hash {
    btclib::sha256::Hash(U256::from_be_bytes([x; 32]))
}

fn output(value: u64, id: u128, key: &[u8]) -> TransactionOutput {
    TransactionOutput { value, unique_id: id, pubkey: PublicKey { bytes: key.to_vec() } }
}

#[test]
fn u256_division_by_small_divisor() {
    let (q, r) = u256_of(1_000_003).div_rem_small(10);
    assert!(q.equals(&u256_of(100_000)));
    assert_eq!(r, 3);
    let (q, r) = u256_of(7).div_rem_small(4);
    assert!(q.equals(&u256_of(1)));
    assert_eq!(r, 3);
}

#[test]
fn u256_multiply_add_and_overflow() {
    let v = u256_of(12).checked_mul_add_small(10, 5).unwrap();
    assert!(v.equals(&u256_of(125)));
    let max = U256::from_be_bytes([0xff; 32]);
    assert!(max.checked_mul_add_small(1, 1).is_none());
    assert!(max.checked_mul_add_small(4, 0).is_none());
    assert!(max.checked_mul_add_small(1, 0).unwrap().equals(&max));
}

#[test]
fn u256_decimal_roundtrip() {
    let v = u256_of(9_876_543_210_123);
    let digits = v.to_decimal();
    assert_eq!(digits, b"9876543210123".to_vec());
    assert!(U256::from_decimal(&digits).unwrap().equals(&v));
    assert_eq!(U256::zero().to_decimal(), b"0".to_vec());
    let max = U256::from_be_bytes([0xff; 32]);
    let text = max.to_decimal();
    assert_eq!(
        text,
        b"115792089237316195423570985008687907853269984665640564039457584007913129639935".to_vec()
    );
    assert!(U256::from_decimal(&text).unwrap().equals(&max));
}

#[test]
fn u256_decimal_parse_rejects() {
    assert!(U256::from_decimal(b"").is_none());
    assert!(U256::from_decimal(b"12a").is_none());
    assert!(U256::from_decimal(b"-1").is_none());
    assert!(U256::from_decimal(
        b"115792089237316195423570985008687907853269984665640564039457584007913129639936"
    )
    .is_none());
}

#[test]
fn u256_comparisons() {
    let a = u256_of(5);
    let b = u256_of(300);
    assert!(a.lt(&b));
    assert!(!b.lt(&a));
    assert!(a.le(&a));
    assert!(a.min(b).equals(&a));
    assert!(b.min(a).equals(&a));
    assert!(U256::zero().is_zero());
    assert!(!a.is_zero());
}

#[test]
fn min_target_value_is_two_zero_bytes_then_ones() {
    let t = btclib::min_target();
    let mut expected = [0xffu8; 32];
    expected[0] = 0;
    expected[1] = 0;
    assert!(t.equals(&U256::from_be_bytes(expected)));
}

#[test]
fn sha256_digest_of_abc() {
    let h = btclib::sha256::Hash::digest(b"abc");
    let expected: [u8; 32] = [
        0xba, 0x78, 0x16, 0xbf, 0x8f, 0x01, 0xcf, 0xea, 0x41, 0x41, 0x40, 0xde, 0x5d, 0xae, 0x22,
        0x23, 0xb0, 0x03, 0x61, 0xa3, 0x96, 0x17, 0x7a, 0x9c, 0xb4, 0x10, 0xff, 0x61, 0xf2, 0x00,
        0x15, 0xad,
    ];
    assert_eq!(h.as_bytes(), &expected);
}

#[test]
fn hash_matches_target() {
    let h = hash_of_byte(0x10);
    assert!(h.matches_target(U256::from_be_bytes([0x10; 32])));
    assert!(h.matches_target(U256::from_be_bytes([0xff; 32])));
    assert!(!h.matches_target(U256::from_be_bytes([0x0f; 32])));
    assert!(btclib::sha256::Hash::zero().matches_target(U256::zero()));
}

#[test]
fn merkle_root_of_one_transaction_is_its_hash() {
    let tx = Transaction::new(vec![], vec![output(3, 1, b"key")]);
    let root = MerkleRoot::calculate(&vec![tx.duplicate()]);
    assert!(root.0.equals(&tx.hash()));
}

#[test]
fn merkle_root_pairs_and_duplicates_last() {
    let t1 = Transaction::new(vec![], vec![output(1, 1, b"a")]);
    let t2 = Transaction::new(vec![], vec![output(2, 2, b"b")]);
    let t3 = Transaction::new(vec![], vec![output(3, 3, b"c")]);
    let pair = |a: &btclib::sha256::Hash, b: &btclib::sha256::Hash| {
        let mut v = a.as_bytes().to_vec();
        v.extend_from_slice(b.as_bytes());
        btclib::sha256::Hash::digest(&v)
    };
    let (h1, h2, h3) = (t1.hash(), t2.hash(), t3.hash());
    let two = MerkleRoot::calculate(&vec![t1.duplicate(), t2.duplicate()]);
    assert!(two.0.equals(&pair(&h1, &h2)));
    let three = MerkleRoot::calculate(&vec![t1, t2, t3]);
    let expected = pair(&pair(&h1, &h2), &pair(&h3, &h3));
    assert!(three.0.equals(&expected));
    assert!(MerkleRoot::calculate(&vec![]).0.equals(&btclib::sha256::Hash::zero()));
}

#[test]
fn transaction_hash_depends_on_content() {
    let a = Transaction::new(vec![], vec![output(1, 1, b"a")]);
    let b = Transaction::new(vec![], vec![output(2, 1, b"a")]);
    assert!(!a.hash().equals(&b.hash()));
    assert!(a.hash().equals(&a.duplicate().hash()));
    let o = output(1, 1, b"a");
    assert!(!o.hash().equals(&a.hash()));
}

#[test]
fn utxo_set_insert_get_mark_remove() {
    let mut set = UtxoSet::new();
    let k1 = hash_of_byte(1);
    let k2 = hash_of_byte(2);
    set.insert(k1, false, output(10, 1, b"a"));
    set.insert(k2, true, output(20, 2, b"b"));
    assert_eq!(set.len(), 2);
    assert!(set.contains_key(&k1));
    let (m, o) = set.get(&k2).unwrap();
    assert!(m);
    assert_eq!(o.value, 20);
    set.insert(k1, false, output(11, 3, b"c"));
    assert_eq!(set.len(), 2);
    assert_eq!(set.get(&k1).unwrap().1.value, 11);
    set.set_mark(&k1, true);
    assert!(set.get(&k1).unwrap().0);
    set.set_mark(&hash_of_byte(9), true);
    assert_eq!(set.len(), 2);
    set.remove(&k2);
    assert!(!set.contains_key(&k2));
    assert!(set.get(&k2).is_none());
    assert_eq!(set.len(), 1);
}

#[test]
fn utxo_set_from_entries_keeps_last_entry_per_key() {
    let k = hash_of_byte(4);
    let set = UtxoSet::from_entries(vec![
        (k, false, output(1, 1, b"a")),
        (hash_of_byte(5), true, output(2, 2, b"b")),
        (k, true, output(3, 3, b"c")),
    ]);
    assert_eq!(set.len(), 2);
    let (m, o) = set.get(&k).unwrap();
    assert!(m);
    assert_eq!(o.value, 3);
}

#[test]
fn frame_prefixes_length() {
    let f = Message::frame(b"hello");
    assert_eq!(f, vec![0, 0, 0, 0, 0, 0, 0, 5, b'h', b'e', b'l', b'l', b'o']);
    let mut head = [0u8; 8];
    head.copy_from_slice(&f[..8]);
    assert_eq!(Message::frame_length(&head), 5);
    assert_eq!(Message::frame_length(&[0, 0, 0, 0, 0, 1, 0, 2]), 65538);
}

#[test]
fn error_texts() {
    assert_eq!(BtcError::InvalidTransection.to_string(), "Invalid Transection");
    assert_eq!(BtcError::InvalidBlock.to_string(), "Invalid Block");
    assert_eq!(BtcError::InvalidBlockHeader.to_string(), "Invalid Block header");
    assert_eq!(BtcError::InvalidInputTransection.to_string(), "Invalid input transection");
    assert_eq!(BtcError::InvalidOutputTransection.to_string(), "Invalid output transection");
    assert_eq!(BtcError::InvalidMerkeleRoot.to_string(), "Invalid merkele root");
    assert_eq!(BtcError::InvalidHash.to_string(), "Invalid hash");
    assert_eq!(BtcError::InvalidSignature.to_string(), "Invalid signature");
    assert_eq!(BtcError::InvalidPublicKey.to_string(), "Invalid public key");
    assert_eq!(BtcError::InvalidPrivateKey.to_string(), "Invalid private key");
}

#[test]
fn retarget_takes_integer_part_and_clamps() {
    let cur = u256_of(1000);
    assert!(retarget(cur, b"2000.75").unwrap().equals(&u256_of(2000)));
    assert!(retarget(cur, b"1000").unwrap().equals(&u256_of(1000)));
    assert!(retarget(cur, b"5000.1").unwrap().equals(&u256_of(4000)));
    assert!(retarget(cur, b"100").unwrap().equals(&u256_of(250)));
    assert!(retarget(cur, b"abc").is_none());
    assert!(retarget(cur, b"-5").is_none());
    assert!(retarget(cur, b"1.5E+3").unwrap().equals(&u256_of(250)));
    assert!(retarget(cur, b".5").is_none());
}

#[test]
fn retarget_keeps_order_of_proposals() {
    let cur = u256_of(1000);
    let texts: [&[u8]; 6] = [b"10", b"300", b"999.9", b"2500", b"4000", b"90000"];
    for w in texts.windows(2) {
        let a = retarget(cur, w[0]).unwrap();
        let b = retarget(cur, w[1]).unwrap();
        assert!(a.le(&b));
    }
}

#[test]
fn retarget_never_easier_than_min_target() {
    let min = btclib::min_target();
    let (quarter, _) = min.div_rem_small(4);
    let digits = min.to_decimal();
    let mut doubled = min.checked_mul_add_small(2, 0).unwrap().to_decimal();
    doubled.extend_from_slice(b".0");
    assert!(retarget(min, &doubled).unwrap().equals(&min));
    assert!(retarget(min, &digits).unwrap().equals(&min));
    assert!(retarget(min, b"0").unwrap().equals(&quarter));
}

#[test]
fn timestamps_order_and_seconds() {
    let a = Timestamp { secs: 100, nanos: 500_000_000 };
    let b = Timestamp { secs: 102, nanos: 100_000_000 };
    assert!(a.before(&b));
    assert!(!b.before(&a));
    assert!(!a.before(&a));
    assert_eq!(b.nanos_since(&a), 1_600_000_000);
    assert_eq!(b.seconds_since(&a), 1);
    assert_eq!(a.seconds_since(&b), -1);
}

#[test]
fn longest_chain_keeps_strictly_longer() {
    let mut l = LongestChain::new();
    l.observe("a".to_string(), 3);
    l.observe("b".to_string(), 3);
    l.observe("c".to_string(), 1);
    assert_eq!(l.result(), ("a".to_string(), 3));
    l.observe("d".to_string(), 7);
    assert_eq!(l.result(), ("d".to_string(), 7));
    assert_eq!(LongestChain::new().result(), (String::new(), 0));
}

#[test]
fn public_key_equality_and_signature_copy() {
    let k = PublicKey { bytes: vec![1, 2, 3] };
    assert!(k.equals(&k.duplicate()));
    assert!(!k.equals(&PublicKey { bytes: vec![1, 2] }));
    let s = Signature { bytes: vec![9; 64] };
    assert_eq!(s.duplicate().bytes, s.bytes);
    let input = TransactionInput { prev_transaction_output_hash: hash_of_byte(3), signature: s };
    assert!(!input.signature.verify(&hash_of_byte(3), &k));
}
