use kudzu_bft::block::{timeout_block, Block, BlockHash, Tag};
use kudzu_bft::crypto::{Fragment, Proof};
use kudzu_bft::types::Slot;
use kudzu_bft::voting::{
    BlockMap, Cert, CertPool, FinalVote, FinalVoteTracker, FirstVote, FirstVoteTracker, FragmentStore, NotarVote,
    NotarVoteTracker,
};

fn h(b: u8) -> BlockHash {
    BlockHash::from_bytes([b; 32])
}

fn mk_proof(i: usize) -> Proof {
    Proof { hashes: vec![[i as u8; 32]], idx: i, leaves: 4 }
}

#[test]
fn first_vote_tracker_counts_one_vote_per_replica() {
    let mut t = FirstVoteTracker::new();
    assert!(t.add(0, h(1)));
    assert!(t.add(1, h(1)));
    assert!(t.add(2, h(2)));
    assert!(!t.add(1, h(2)));
    assert!(t.has_voted(1));
    assert!(!t.has_voted(3));
    assert_eq!(t.count(&h(1)), 2);
    assert_eq!(t.count(&h(2)), 1);
    assert_eq!(t.count(&h(3)), 0);
    assert_eq!(t.all_votes(), 3);
    assert_eq!(t.max_votes(), 2);
}

#[test]
fn first_vote_tracker_many_votes() {
    let mut t = FirstVoteTracker::new();
    assert_eq!(t.max_votes(), 0);
    assert!(t.many_votes(0).is_empty());
    t.add(0, h(1));
    t.add(1, h(2));
    t.add(2, h(1));
    t.add(3, h(3));
    assert_eq!(t.many_votes(2), vec![h(1)]);
    assert_eq!(t.many_votes(1).len(), 3);
    assert!(t.many_votes(3).is_empty());
    let all = t.many_votes(0);
    assert_eq!(all.len(), 3);
    assert!(all.contains(&h(1)) && all.contains(&h(2)) && all.contains(&h(3)));
}

#[test]
fn final_vote_tracker_is_idempotent() {
    let mut t = FinalVoteTracker::new();
    assert!(t.add(h(1), 0));
    assert!(!t.add(h(1), 0));
    assert!(t.add(h(1), 1));
    assert!(t.add(h(2), 0));
    assert_eq!(t.count(&h(1)), 2);
    assert_eq!(t.count(&h(2)), 1);
    assert_eq!(t.count(&h(9)), 0);
}

#[test]
fn notar_vote_tracker_bounds_equivocation() {
    let mut t = NotarVoteTracker::new();
    assert!(t.add(5, h(1)));
    assert!(t.add(5, h(2)));
    assert!(!t.add(5, h(2)));
    assert!(t.add(5, h(3)));
    assert_eq!(t.count_from(5), 3);
    assert!(!t.add(5, h(4)));
    assert!(!t.add(5, h(1)));
    assert_eq!(t.count_from(5), 3);
    assert!(t.add(6, h(4)));
    assert_eq!(t.count_from(6), 1);
    assert_eq!(t.count_from(7), 0);
}

#[test]
fn fragment_store_replaces_per_replica() {
    let mut s = FragmentStore::new();
    assert!(s.get(&h(1)).is_none());
    assert_eq!(s.count(&h(1)), 0);
    s.add(h(1), 0, Fragment(vec![1]), mk_proof(0));
    s.add(h(1), 1, Fragment(vec![2]), mk_proof(1));
    s.add(h(2), 0, Fragment(vec![3]), mk_proof(0));
    s.add(h(1), 0, Fragment(vec![4]), mk_proof(2));
    assert_eq!(s.count(&h(1)), 2);
    assert_eq!(s.count(&h(2)), 1);
    let got = s.get(&h(1)).unwrap();
    assert_eq!(got.len(), 2);
    let mine = got.iter().find(|e| e.0 == 0).unwrap();
    assert_eq!(mine.1 .0, vec![4]);
    assert_eq!(mine.2.idx, 2);
    let theirs = got.iter().find(|e| e.0 == 1).unwrap();
    assert_eq!(theirs.1 .0, vec![2]);
}

#[test]
fn cert_pool_issues_each_certificate_once() {
    let mut c = CertPool::new();
    assert!(!c.has_timeout() && !c.has_final() && !c.has_fast_final());
    assert!(c.add_timeout(Slot(3)));
    assert!(!c.add_timeout(Slot(4)));
    assert_eq!(c.timeout_cert, Some(Slot(3)));
    assert!(c.add_final(h(1)));
    assert!(!c.add_final(h(2)));
    assert_eq!(c.final_cert, Some(h(1)));
    assert!(c.add_fast_final(h(2)));
    assert!(!c.add_fast_final(h(1)));
    assert_eq!(c.fast_final_cert, Some(h(2)));
    assert!(c.has_timeout() && c.has_final() && c.has_fast_final());
}

#[test]
fn cert_pool_keeps_at_most_five_notarizations() {
    let mut c = CertPool::new();
    for i in 0..5u8 {
        assert!(c.add_notar(h(i)));
    }
    assert!(!c.add_notar(h(2)));
    assert!(!c.add_notar(h(9)));
    assert_eq!(c.notar_certs.len(), 5);
    assert!(c.has_notar(&h(4)));
    assert!(!c.has_notar(&h(9)));
}

#[test]
fn block_map_insert_get() {
    let mut m = BlockMap::new();
    let b1 = Block::new(Slot(1), Tag { len: 1, root: [1; 32] }, h(0));
    let b2 = Block::new(Slot(2), Tag { len: 2, root: [2; 32] }, h(0));
    m.insert(h(1), b1);
    m.insert(h(2), b2);
    assert_eq!(m.len(), 2);
    assert!(m.contains_key(&h(1)));
    assert!(!m.contains_key(&h(3)));
    assert_eq!(m.get(&h(2)).unwrap().slot, Slot(2));
    m.insert(h(1), b2);
    assert_eq!(m.len(), 2);
    assert_eq!(m.get(&h(1)).unwrap().slot, Slot(2));
    m.insert_if_absent(h(1), b1);
    assert_eq!(m.get(&h(1)).unwrap().slot, Slot(2));
    m.insert_if_absent(h(3), b1);
    assert_eq!(m.get(&h(3)).unwrap().slot, Slot(1));
    assert_eq!(m.values().len(), 3);
}

#[test]
fn votes_and_their_blocks() {
    let b = Block::new(Slot(4), Tag { len: 3, root: [7; 32] }, h(0));
    let v = NotarVote::new(&b, Fragment(vec![1, 2]), mk_proof(1), 2);
    assert!(!v.is_timeout());
    assert_eq!(v.slot(), Slot(4));
    assert_eq!(v.block_hash(), b.hash());
    let fv = FirstVote::new(v.clone());
    assert_eq!(fv.from(), 2);
    assert_eq!(fv.block().slot, Slot(4));
    assert_eq!(fv.block_hash(), b.hash());
    let t = NotarVote::timeout(Slot(4), 1);
    assert!(t.is_timeout());
    assert!(t.frag.is_none() && t.proof.is_none());
    assert_eq!(t.block_hash(), timeout_block(Slot(4)).hash());
    assert!(FirstVote::new(t).is_timeout());
    let f = FinalVote::new(&b, 3);
    assert_eq!(f.block_hash, b.hash());
    assert_eq!(f.slot, Slot(4));
    assert_eq!(f.from, 3);
    match Cert::Timeout(Slot(1)) {
        Cert::Timeout(s) => assert_eq!(s, Slot(1)),
        _ => unreachable!(),
    }
}
