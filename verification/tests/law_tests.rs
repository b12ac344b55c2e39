use kudzu_bft::block::{genesis, Block, BlockHash, Tag};
use kudzu_bft::crypto::{Fragment, Proof};
use kudzu_bft::metrics::{Metrics, SlotTimer};
use kudzu_bft::protocol::{Action, Replica};
use kudzu_bft::types::{leader_for_slot, Slot};
use kudzu_bft::voting::{FirstVote, FirstVoteTracker, NotarVote};

#[test]
fn thresholds_are_ordered_and_quorums_intersect() {
    for f in 0..4usize {
        for p in 0..3usize {
            let n = 3 * f + 2 * p + 1;
            let r = Replica::new(0, n, f, p);
            assert!(1 <= r.k() && r.k() <= r.quorum());
            assert!(r.quorum() <= r.fast_quorum() && r.fast_quorum() <= n);
            assert!(2 * r.quorum() >= n + f + 1);
            assert!(r.quorum() + r.fast_quorum() >= n + f + 1);
        }
    }
}

#[test]
fn one_first_vote_per_slot() {
    let mut rs: Vec<Replica> = (0..4).map(|i| Replica::new(i, 4, 1, 0)).collect();
    let leader = leader_for_slot(Slot(1), 4);
    let other = (leader + 1) % 4;
    assert_eq!(rs[other].on_timeout().len(), 1);
    let acts = rs[leader].propose(b"payload").unwrap();
    for a in acts {
        if let Action::Send(i, p) = a {
            if i == other {
                assert!(rs[other].on_proposal(p, leader).is_empty());
            }
        }
    }
    assert!(rs[other].tick(1_000_000).is_empty());
    assert!(rs[other].on_timeout().is_empty());
}

#[test]
fn at_most_one_block_gathers_a_quorum() {
    let a = BlockHash::from_bytes([1; 32]);
    let b = BlockHash::from_bytes([2; 32]);
    let mut t = FirstVoteTracker::new();
    t.add(0, a);
    t.add(1, a);
    t.add(2, b);
    t.add(3, b);
    t.add(0, b);
    assert_eq!(t.count(&a), 2);
    assert_eq!(t.count(&b), 2);
    assert!(t.many_votes(3).is_empty());
    assert!(t.count(&a) <= t.max_votes() && t.max_votes() <= t.all_votes());
}

#[test]
fn notarization_votes_are_not_repeated() {
    let mut r = Replica::new(0, 4, 1, 0);
    r.on_timeout();
    let b = Block::new(Slot(1), Tag { len: 1, root: [1; 32] }, BlockHash::from_bytes([9; 32]));
    let mut total = 0;
    for i in 1..4 {
        let b2 = Block::new(Slot(1), Tag { len: i, root: [i as u8; 32] }, BlockHash::from_bytes([9; 32]));
        let v = FirstVote::new(NotarVote::new(&b2, Fragment(vec![1]), Proof { hashes: vec![], idx: 0, leaves: 1 }, i));
        total += r.on_first_vote(&v, i).len();
    }
    assert_eq!(total, 0);
    assert_eq!(r.state.notarized.len(), 1);
    let again = r.try_reconstruct_and_notarize(&b.hash());
    assert!(again.is_empty());
    assert_eq!(r.state.notarized.len(), 1);
}

#[test]
fn finalization_keeps_history_without_duplicates() {
    let mut r = Replica::new(0, 4, 1, 0);
    let g = genesis();
    let b1 = Block::new(Slot(1), Tag { len: 1, root: [1; 32] }, g.hash());
    let b2 = Block::new(Slot(2), Tag { len: 1, root: [2; 32] }, b1.hash());
    r.block_tree.insert(b1.hash(), b1);
    r.block_tree.insert(b2.hash(), b2);
    r.finalize_with_predecessors(&b1.hash());
    let before: Vec<BlockHash> = r.finalized_blocks.iter().map(|b| b.hash()).collect();
    r.finalize_with_predecessors(&b2.hash());
    r.finalize_with_predecessors(&b1.hash());
    let after: Vec<BlockHash> = r.finalized_blocks.iter().map(|b| b.hash()).collect();
    assert_eq!(after[..before.len()].to_vec(), before);
    for i in 0..after.len() {
        for j in 0..i {
            assert_ne!(after[i], after[j]);
        }
    }
    assert_eq!(after, vec![g.hash(), b1.hash(), b2.hash()]);
}

#[test]
fn metrics_count_and_wrap() {
    let mut m = Metrics::new();
    m.add_sent(10);
    m.add_sent(5);
    m.add_recv(7);
    m.record_final(true);
    m.record_final(false);
    m.record_final(true);
    assert_eq!(m.bytes_sent, 15);
    assert_eq!(m.msgs_sent, 2);
    assert_eq!(m.bytes_recv, 7);
    assert_eq!(m.msgs_recv, 1);
    assert_eq!(m.slots_finalized, 3);
    assert_eq!(m.fast_finals, 2);
    assert_eq!(m.slow_finals, 1);
    m.bytes_sent = u64::MAX;
    m.add_sent(2);
    assert_eq!(m.bytes_sent, 1);
}

#[test]
fn slot_timer_records() {
    let mut t = SlotTimer::new();
    assert!(t.fin_latencies.is_empty() && t.slot_durations.is_empty());
    t.record_finalization();
    t.record_slot_exit();
    t.reset();
    t.record_slot_exit();
    assert_eq!(t.fin_latencies.len(), 1);
    assert_eq!(t.slot_durations.len(), 2);
}

#[test]
fn replicas_agree_despite_an_equivocating_voter() {
    // n = 4, f = 1: quorum 3. Voter 3 tells the two replicas different things.
    let a = BlockHash::from_bytes([1; 32]);
    let b = BlockHash::from_bytes([2; 32]);
    let mut left = FirstVoteTracker::new();
    let mut right = FirstVoteTracker::new();
    for (from, h) in [(0, a), (1, a), (3, a)] {
        left.add(from, h);
    }
    for (from, h) in [(3, b), (2, a), (0, a), (1, a)] {
        right.add(from, h);
    }
    assert_eq!(left.many_votes(3), vec![a]);
    assert_eq!(right.many_votes(3), vec![a]);
    assert!(right.many_votes(3).iter().all(|h| *h != b));
}

#[test]
fn defaults_start_empty() {
    let m = Metrics::default();
    assert_eq!((m.bytes_sent, m.msgs_sent, m.slots_finalized), (0, 0, 0));
    let t = SlotTimer::default();
    assert!(t.fin_latencies.is_empty() && t.slot_durations.is_empty());
}

#[test]
fn vote_accounting_adds_up() {
    let a = BlockHash::from_bytes([1; 32]);
    let b = BlockHash::from_bytes([2; 32]);
    let c = BlockHash::from_bytes([3; 32]);
    let mut t = FirstVoteTracker::new();
    for (from, h) in [(0, a), (1, b), (2, a), (0, c), (3, c), (1, a)] {
        t.add(from, h);
    }
    assert_eq!(t.all_votes(), 4);
    assert_eq!(t.count(&a) + t.count(&b) + t.count(&c), t.all_votes());
    assert_eq!((t.count(&a), t.count(&b), t.count(&c)), (2, 1, 1));
    assert!((0..4).all(|r| t.has_voted(r)));
    assert!(t.max_votes() <= t.all_votes());
}

#[test]
fn finalizing_twice_changes_nothing() {
    let mut r = Replica::new(0, 4, 1, 0);
    let g = genesis();
    let b1 = Block::new(Slot(1), Tag { len: 1, root: [1; 32] }, g.hash());
    r.block_tree.insert(b1.hash(), b1);
    assert_eq!(r.finalize_with_predecessors(&b1.hash()).len(), 2);
    let before: Vec<BlockHash> = r.finalized_blocks.iter().map(|b| b.hash()).collect();
    assert!(r.finalize_with_predecessors(&b1.hash()).is_empty());
    let after: Vec<BlockHash> = r.finalized_blocks.iter().map(|b| b.hash()).collect();
    assert_eq!(before, after);
}
