use kudzu_bft::block::{genesis, timeout_block, Block, BlockHash, Tag};
use kudzu_bft::bytes::{push_u64_le, push_usize_le, read_u64_le};
use kudzu_bft::types::{leader_for_slot, Slot};
use sha2::{Digest, Sha256};

fn manual_leader(slot: u64, n: usize) -> usize {
    let mut h = Sha256::new();
    h.update(b"KUDZU_LEADER");
    h.update(slot.to_le_bytes());
    let hash = h.finalize();
    let mut first = [0u8; 8];
    first.copy_from_slice(&hash[0..8]);
    (u64::from_le_bytes(first) as usize) % n
}

fn manual_block_hash(b: &Block) -> [u8; 32] {
    let mut h = Sha256::new();
    h.update(b.slot.0.to_le_bytes());
    h.update(b.tag.len.to_le_bytes());
    h.update(b.tag.root);
    h.update(b.parent_hash.0);
    h.finalize().into()
}

#[test]
fn slot_new_and_next() {
    let s = Slot::new(41);
    assert_eq!(s.0, 41);
    assert_eq!(s.next().0, 42);
    assert_eq!(Slot::new(0).next(), Slot(1));
}

#[test]
fn little_endian_round_trip() {
    let mut v: Vec<u8> = Vec::new();
    push_u64_le(&mut v, 0x0102030405060708);
    assert_eq!(v, vec![8, 7, 6, 5, 4, 3, 2, 1]);
    assert_eq!(read_u64_le(&v), 0x0102030405060708);
    let mut w: Vec<u8> = vec![0xff];
    push_u64_le(&mut w, u64::MAX);
    assert_eq!(w.len(), 9);
    assert_eq!(read_u64_le(&w[1..]), u64::MAX);
}

#[test]
fn leader_matches_sha256_of_tag_and_slot() {
    for slot in 0..40u64 {
        for n in 1..10usize {
            let l = leader_for_slot(Slot(slot), n);
            assert!(l < n);
            assert_eq!(l, manual_leader(slot, n));
        }
    }
    assert_eq!(leader_for_slot(Slot(7), 1), 0);
}

#[test]
fn leader_is_deterministic() {
    assert_eq!(leader_for_slot(Slot(12345), 7), leader_for_slot(Slot(12345), 7));
}

#[test]
fn block_hash_is_sha256_of_fields() {
    let b = Block::new(Slot(3), Tag { len: 17, root: [9u8; 32] }, BlockHash::from_bytes([4u8; 32]));
    assert_eq!(b.hash().0, manual_block_hash(&b));
    let g = genesis();
    assert_eq!(g.hash().0, manual_block_hash(&g));
}

#[test]
fn different_blocks_have_different_hashes() {
    let a = Block::new(Slot(3), Tag { len: 17, root: [9u8; 32] }, BlockHash::zero());
    let b = Block::new(Slot(4), Tag { len: 17, root: [9u8; 32] }, BlockHash::zero());
    assert!(!a.hash().same(&b.hash()));
    assert!(a.hash().same(&a.hash()));
}

#[test]
fn timeout_and_genesis_blocks() {
    let t = timeout_block(Slot(5));
    assert!(t.is_timeout());
    assert_eq!(t.slot, Slot(5));
    assert_eq!(t.tag.len, 0);
    let g = genesis();
    assert!(g.is_timeout());
    assert_eq!(g.slot, Slot(0));
    assert_eq!(g.hash(), timeout_block(Slot(0)).hash());
    let b = Block::new(Slot(5), Tag { len: 0, root: [0u8; 32] }, BlockHash::from_bytes([1u8; 32]));
    assert!(!b.is_timeout());
    let c = Block::new(Slot(5), Tag { len: 1, root: [0u8; 32] }, BlockHash::zero());
    assert!(!c.is_timeout());
}

#[test]
fn zero_hash_and_display() {
    let z = BlockHash::zero();
    assert!(z.is_zero());
    assert_eq!(z.to_string(), "0000000000000000");
    let mut bytes = [0u8; 32];
    bytes[0] = 0xab;
    bytes[1] = 0x01;
    bytes[7] = 0xff;
    bytes[8] = 0xee;
    let h = BlockHash::from_bytes(bytes);
    assert!(!h.is_zero());
    assert_eq!(h.to_string(), "ab010000000000ff");
    assert_eq!(h.to_string(), hex::encode(&bytes[..8]));
}

#[test]
fn usize_encoding_has_native_width() {
    let mut out = vec![7u8];
    push_usize_le(&mut out, 0x0102_0304usize);
    let mut expected = vec![7u8];
    expected.extend_from_slice(&0x0102_0304usize.to_le_bytes());
    assert_eq!(out, expected);
    assert_eq!(out.len(), 1 + std::mem::size_of::<usize>());
}
