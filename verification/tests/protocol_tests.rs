use kudzu_bft::block::{genesis, timeout_block, Block, BlockHash, Tag};
use kudzu_bft::crypto::Fragment;
use kudzu_bft::net::{handle_msg, Msg};
use kudzu_bft::protocol::{Action, Replica, SlotState, DELTA_TIMEOUT};
use kudzu_bft::types::{leader_for_slot, Slot};
use kudzu_bft::voting::{BlockProp, Cert, FinalVote, FirstVote, NotarVote};

fn replicas(n: usize, f: usize, p: usize) -> Vec<Replica> {
    (0..n).map(|i| Replica::new(i, n, f, p)).collect()
}

/// Runs the proposal phase of the current slot: returns the proposed block
/// and every first vote cast.
fn propose_round(rs: &mut Vec<Replica>, payload: &[u8]) -> (Block, Vec<FirstVote>) {
    let n = rs.len();
    let slot = rs[0].slot;
    let leader = leader_for_slot(slot, n);
    let acts = rs[leader].propose(payload).unwrap();
    assert_eq!(acts.len(), n + 1);
    let mut props: Vec<Option<BlockProp>> = (0..n).map(|_| None).collect();
    let mut votes = Vec::new();
    let mut block = None;
    for a in acts {
        match a {
            Action::Send(i, p) => {
                block = Some(p.block);
                props[i] = Some(p);
            }
            Action::BcastFirst(v) => votes.push(v),
            _ => panic!("unexpected action"),
        }
    }
    for i in 0..n {
        if i == leader {
            continue;
        }
        let acts = rs[i].on_proposal(props[i].take().unwrap(), leader);
        assert_eq!(acts.len(), 1);
        for a in acts {
            match a {
                Action::BcastFirst(v) => votes.push(v),
                _ => panic!("unexpected action"),
            }
        }
    }
    (block.unwrap(), votes)
}

fn deliver(rs: &mut Vec<Replica>, votes: &Vec<FirstVote>) -> Vec<Action> {
    let mut out = Vec::new();
    for v in votes {
        for i in 0..rs.len() {
            if i != v.from() {
                out.extend(rs[i].on_first_vote(v, v.from()));
            }
        }
    }
    out
}

#[test]
fn new_replica_thresholds() {
    let r = Replica::new(2, 7, 2, 0);
    assert_eq!(r.quorum(), 5);
    assert_eq!(r.fast_quorum(), 7);
    assert_eq!(r.k(), 3);
    assert_eq!(r.slot, Slot(1));
    assert_eq!(r.parent_block, genesis().hash());
    assert!(r.block_tree.contains_key(&genesis().hash()));
    assert!(r.finalized_blocks.is_empty());
    let q = Replica::new(0, 10, 2, 1);
    assert_eq!(q.quorum(), 7);
    assert_eq!(q.fast_quorum(), 9);
    assert_eq!(q.k(), 4);
}

#[test]
fn leader_and_is_leader() {
    let rs = replicas(4, 1, 0);
    let l = leader_for_slot(Slot(1), 4);
    for r in &rs {
        assert_eq!(r.leader(Slot(1)), l);
        assert_eq!(r.is_leader(), r.id == l);
    }
}

#[test]
fn full_slot_finalizes_on_the_fast_path() {
    let mut rs = replicas(4, 1, 0);
    let payload = b"block_1_payload".to_vec();
    let (block, votes) = propose_round(&mut rs, &payload);
    assert_eq!(votes.len(), 4);
    assert_eq!(block.tag.len, payload.len());
    assert_eq!(block.parent_hash, genesis().hash());
    let notars = deliver(&mut rs, &votes);
    for a in &notars {
        match a {
            Action::BcastNotar(v) => assert_eq!(v.block_hash(), block.hash()),
            _ => panic!("unexpected action"),
        }
    }
    let h = block.hash();
    for r in rs.iter_mut() {
        assert_eq!(r.state.first_votes.count(&h), 4);
        assert!(r.block_tree.contains_key(&h));
        match r.check_fast_final(&h) {
            Some(Cert::FastFinal(x, s)) => {
                assert_eq!(x, h);
                assert_eq!(s, Slot(1));
            }
            _ => panic!("expected a fast-final certificate"),
        }
        assert!(r.check_fast_final(&h).is_none());
        assert!(r.state.cert_pool.has_notar(&h));
        assert!(r.check_notar_cert(&h).is_none());
        let (fh, cnt, chain) = r.finalize_if_voted(r.fast_quorum()).unwrap();
        assert_eq!(fh, h);
        assert_eq!(cnt, 4);
        assert_eq!(chain.len(), 2);
        assert_eq!(chain[0].hash(), genesis().hash());
        assert_eq!(chain[1].hash(), h);
        assert!(r.state.done);
        assert!(r.finalize_if_voted(1).is_none());
        assert_eq!(r.finalized_blocks.len(), 2);
    }
}

#[test]
fn reconstruction_gives_notarization_votes_with_own_fragment() {
    let mut rs = replicas(4, 1, 0);
    let leader = leader_for_slot(Slot(1), 4);
    let other = (leader + 1) % 4;
    rs[other].on_timeout();
    let acts = rs[leader].propose(b"some payload bytes").unwrap();
    let mut props = Vec::new();
    let mut votes = Vec::new();
    for a in acts {
        match a {
            Action::Send(i, p) => props.push((i, p)),
            Action::BcastFirst(v) => votes.push(v),
            _ => {}
        }
    }
    for (i, p) in props {
        if i != leader && i != other {
            for a in rs[i].on_proposal(p, leader) {
                if let Action::BcastFirst(v) = a {
                    votes.push(v);
                }
            }
        }
    }
    let h = votes[0].block_hash();
    let mut out = Vec::new();
    for v in &votes {
        out.extend(rs[other].on_first_vote(v, v.from()));
    }
    assert_eq!(out.len(), 1);
    match &out[0] {
        Action::BcastNotar(v) => {
            assert_eq!(v.block_hash(), h);
            assert_eq!(v.from, other);
            let proof = v.proof.as_ref().unwrap();
            assert_eq!(proof.idx, other);
            let frag = v.frag.as_ref().unwrap();
            assert!(kudzu_bft::crypto::verify_proof(&v.block.tag.root, frag, proof));
        }
        _ => panic!("expected a notarization vote"),
    }
    assert!(rs[other].state.notarized.contains(&h));
    assert!(rs[other].state.second_look.contains(&h));
    assert!(rs[other].state.cert_pool.has_notar(&h));
    assert!(rs[other].block_tree.contains_key(&h));
    assert!(rs[other].try_reconstruct_and_notarize(&h).is_empty());
}

#[test]
fn reconstruction_of_unknown_block_votes_timeout() {
    let mut r = Replica::new(0, 4, 1, 0);
    let acts = r.try_reconstruct_and_notarize(&BlockHash::from_bytes([3; 32]));
    assert_eq!(acts.len(), 1);
    match &acts[0] {
        Action::BcastNotar(v) => assert!(v.is_timeout()),
        _ => panic!("expected a timeout notarization vote"),
    }
    assert!(r.try_reconstruct_and_notarize(&BlockHash::from_bytes([3; 32])).is_empty());
}

#[test]
fn propose_errors() {
    let mut rs = replicas(4, 1, 0);
    let leader = leader_for_slot(Slot(1), 4);
    let other = (leader + 1) % 4;
    assert_eq!(rs[other].propose(b"x").err().unwrap(), "not leader");
    assert!(!rs[other].state.proposed);
    assert!(rs[leader].propose(b"x").is_ok());
    assert_eq!(rs[leader].propose(b"y").err().unwrap(), "already proposed");
    let mut solo = Replica::new(0, 1, 0, 0);
    assert_eq!(solo.propose(b"x").err().unwrap(), "TooFewParityShards");
    assert!(solo.state.proposed && solo.state.first_voted);
    let mut rs2 = replicas(4, 1, 0);
    assert_eq!(rs2[leader].propose(b"").err().unwrap(), "EmptyShard");
}

#[test]
fn proposals_are_checked() {
    let mut rs = replicas(4, 1, 0);
    let leader = leader_for_slot(Slot(1), 4);
    let acts = rs[leader].propose(b"hello").unwrap();
    let other = (leader + 1) % 4;
    let mut prop = None;
    for a in acts {
        if let Action::Send(i, p) = a {
            if i == other {
                prop = Some(p);
            }
        }
    }
    let prop = prop.unwrap();
    let wrong_sender = (leader + 2) % 4;
    assert!(rs[other].on_proposal(prop.clone(), wrong_sender).is_empty());
    let mut tampered = prop.clone();
    tampered.frag = Fragment(vec![0; tampered.frag.0.len()]);
    assert!(rs[other].on_proposal(tampered, leader).is_empty());
    assert!(!rs[other].state.first_voted);
    assert_eq!(rs[other].on_proposal(prop.clone(), leader).len(), 1);
    assert!(rs[other].state.first_voted);
    assert!(rs[other].on_proposal(prop, leader).is_empty());
}

#[test]
fn notarization_certificate_from_first_votes() {
    let mut r = Replica::new(0, 4, 1, 0);
    let b = Block::new(Slot(1), Tag { len: 1, root: [1; 32] }, BlockHash::from_bytes([8; 32]));
    let h = b.hash();
    assert!(r.check_notar_cert(&h).is_none());
    for i in 1..4 {
        let v = FirstVote::new(NotarVote::new(&b, Fragment(vec![1]), kudzu_bft::crypto::Proof { hashes: vec![], idx: i, leaves: 4 }, i));
        r.on_first_vote(&v, i);
    }
    match r.check_notar_cert(&h) {
        Some(Cert::Notar(x, s)) => {
            assert_eq!(x, h);
            assert_eq!(s, Slot(1));
        }
        _ => panic!("expected a notarization certificate"),
    }
    assert!(r.check_notar_cert(&h).is_none());
    assert!(r.check_fast_final(&h).is_none());
}

#[test]
fn timeout_votes_once() {
    let mut r = Replica::new(0, 4, 1, 0);
    let acts = r.on_timeout();
    assert_eq!(acts.len(), 1);
    match &acts[0] {
        Action::BcastFirst(v) => assert!(v.is_timeout()),
        _ => panic!("expected a first vote"),
    }
    assert!(r.state.first_voted);
    assert!(r.state.notarized.contains(&timeout_block(Slot(1)).hash()));
    assert!(r.on_timeout().is_empty());
}

#[test]
fn tick_times_out_after_delta() {
    let mut r = Replica::new(0, 4, 1, 0);
    assert!(r.tick(DELTA_TIMEOUT).is_empty());
    assert_eq!(r.time, DELTA_TIMEOUT);
    assert_eq!(r.tick(DELTA_TIMEOUT + 1).len(), 1);
    assert_eq!(r.time, DELTA_TIMEOUT + 1);
    assert!(r.tick(DELTA_TIMEOUT + 2).is_empty());
}

#[test]
fn timeout_certificate_ends_slot_once() {
    let mut r = Replica::new(0, 4, 1, 0);
    assert!(r.on_timeout_cert().is_empty());
    assert!(r.state.done);
    assert_eq!(r.state.cert_pool.timeout_cert, Some(Slot(1)));
    let b = Block::new(Slot(1), Tag { len: 1, root: [1; 32] }, genesis().hash());
    assert!(r.on_block_in_block_tree(b).is_empty());
}

#[test]
fn timeout_certificate_from_votes() {
    let mut r = Replica::new(0, 4, 1, 0);
    assert!(r.check_timeout_cert().is_none());
    for i in 1..4 {
        let v = FirstVote::new(NotarVote::timeout(Slot(1), i));
        r.on_first_vote(&v, i);
    }
    match r.check_timeout_cert() {
        Some(Cert::Timeout(s)) => assert_eq!(s, Slot(1)),
        _ => panic!("expected a timeout certificate"),
    }
    assert!(r.check_timeout_cert().is_none());
}

#[test]
fn block_in_tree_sends_final_vote() {
    let mut r = Replica::new(1, 4, 1, 0);
    let b = Block::new(Slot(1), Tag { len: 1, root: [1; 32] }, genesis().hash());
    let other = Block::new(Slot(2), Tag { len: 1, root: [1; 32] }, genesis().hash());
    assert!(r.on_block_in_block_tree(other).is_empty());
    let acts = r.on_block_in_block_tree(b);
    assert_eq!(acts.len(), 2);
    match &acts[0] {
        Action::BcastFinal(v) => {
            assert_eq!(v.block_hash, b.hash());
            assert_eq!(v.from, 1);
        }
        _ => panic!("expected a final vote"),
    }
    match &acts[1] {
        Action::Done(h) => assert_eq!(*h, b.hash()),
        _ => panic!("expected done"),
    }
    assert_eq!(r.parent_block, b.hash());
    assert!(r.state.done);
    assert!(r.on_block_in_block_tree(b).is_empty());
}

#[test]
fn no_final_vote_after_notarizing_another_block() {
    let mut r = Replica::new(1, 4, 1, 0);
    r.on_timeout();
    let b = Block::new(Slot(1), Tag { len: 1, root: [1; 32] }, genesis().hash());
    let acts = r.on_block_in_block_tree(b);
    assert_eq!(acts.len(), 1);
    match &acts[0] {
        Action::Done(_) => {}
        _ => panic!("expected done only"),
    }
}

#[test]
fn final_votes_give_a_final_certificate_at_quorum() {
    let mut r = Replica::new(0, 4, 1, 0);
    let b = Block::new(Slot(1), Tag { len: 1, root: [1; 32] }, genesis().hash());
    assert!(r.on_final_vote(&FinalVote::new(&b, 0)).is_none());
    assert!(r.on_final_vote(&FinalVote::new(&b, 0)).is_none());
    assert!(r.on_final_vote(&FinalVote::new(&b, 1)).is_none());
    let wrong_slot = Block::new(Slot(2), Tag { len: 1, root: [1; 32] }, genesis().hash());
    assert!(r.on_final_vote(&FinalVote::new(&wrong_slot, 2)).is_none());
    match r.on_final_vote(&FinalVote::new(&b, 2)) {
        Some(Cert::Final(h, s)) => {
            assert_eq!(h, b.hash());
            assert_eq!(s, Slot(1));
        }
        _ => panic!("expected a final certificate"),
    }
    assert!(r.on_final_vote(&FinalVote::new(&b, 3)).is_none());
}

#[test]
fn spread_votes_lead_to_timeout_notarization() {
    let mut r = Replica::new(0, 4, 1, 0);
    r.on_timeout();
    let mut acts = Vec::new();
    for i in 1..4 {
        let b = Block::new(Slot(1), Tag { len: i, root: [i as u8; 32] }, BlockHash::from_bytes([9; 32]));
        let v = FirstVote::new(NotarVote::new(&b, Fragment(vec![1]), kudzu_bft::crypto::Proof { hashes: vec![], idx: 0, leaves: 1 }, i));
        acts.extend(r.on_first_vote(&v, i));
    }
    assert!(acts.is_empty());
    let mut r2 = Replica::new(0, 4, 1, 0);
    r2.state.first_voted = true;
    let mut acts2 = Vec::new();
    for i in 1..4 {
        let b = Block::new(Slot(1), Tag { len: i, root: [i as u8; 32] }, BlockHash::from_bytes([9; 32]));
        let v = FirstVote::new(NotarVote::new(&b, Fragment(vec![1]), kudzu_bft::crypto::Proof { hashes: vec![], idx: 0, leaves: 1 }, i));
        acts2.extend(r2.on_first_vote(&v, i));
    }
    assert_eq!(acts2.len(), 1);
    match &acts2[0] {
        Action::BcastNotar(v) => assert!(v.is_timeout()),
        _ => panic!("expected a timeout notarization vote"),
    }
}

#[test]
fn advance_slot_resets_state() {
    let mut r = Replica::new(0, 4, 1, 0);
    r.on_timeout();
    r.advance_slot(77);
    assert_eq!(r.slot, Slot(2));
    assert_eq!(r.time, 77);
    assert_eq!(r.state.t_start, 77);
    assert!(!r.state.first_voted && !r.state.done && !r.state.proposed);
    assert!(r.state.notarized.is_empty());
    let s = SlotState::new(5);
    assert_eq!(s.t_start, 5);
}

#[test]
fn finalize_walks_back_to_finalized_blocks() {
    let mut r = Replica::new(0, 4, 1, 0);
    let g = genesis();
    let b1 = Block::new(Slot(1), Tag { len: 1, root: [1; 32] }, g.hash());
    let b2 = Block::new(Slot(2), Tag { len: 1, root: [2; 32] }, b1.hash());
    let b3 = Block::new(Slot(3), Tag { len: 1, root: [3; 32] }, b2.hash());
    r.block_tree.insert(b1.hash(), b1);
    r.block_tree.insert(b2.hash(), b2);
    r.block_tree.insert(b3.hash(), b3);
    let chain = r.finalize_with_predecessors(&b2.hash());
    let hs: Vec<BlockHash> = chain.iter().map(|b| b.hash()).collect();
    assert_eq!(hs, vec![g.hash(), b1.hash(), b2.hash()]);
    let chain2 = r.finalize_with_predecessors(&b3.hash());
    assert_eq!(chain2.len(), 1);
    assert_eq!(chain2[0].hash(), b3.hash());
    assert_eq!(r.finalized_blocks.len(), 4);
    assert!(r.finalize_with_predecessors(&b3.hash()).is_empty());
    assert!(r.finalize_with_predecessors(&BlockHash::from_bytes([5; 32])).is_empty());
    assert_eq!(r.finalized_blocks.len(), 4);
}

#[test]
fn handle_msg_dispatches() {
    let mut rs = replicas(4, 1, 0);
    let leader = leader_for_slot(Slot(1), 4);
    let other = (leader + 1) % 4;
    let acts = rs[leader].propose(b"payload").unwrap();
    let mut prop = None;
    let mut first = None;
    for a in acts {
        match a {
            Action::Send(i, p) if i == other => prop = Some(p),
            Action::BcastFirst(v) => first = Some(v),
            _ => {}
        }
    }
    let out = handle_msg(&mut rs[other], Msg::Proposal(prop.unwrap()));
    assert_eq!(out.len(), 1);
    let out2 = handle_msg(&mut rs[other], Msg::First(first.clone().unwrap()));
    assert!(out2.is_empty());
    assert!(rs[other].state.cert_pool.has_notar(&first.clone().unwrap().block_hash()));
    assert!(rs[other].state.first_votes.has_voted(leader));
    let b = rs[leader].state.blocks.get(&first.unwrap().block_hash()).unwrap();
    assert!(handle_msg(&mut rs[other], Msg::Final(FinalVote::new(&b, 3))).is_empty());
    let third = (leader + 2) % 4;
    let out3 = handle_msg(&mut rs[other], Msg::Notar(NotarVote::timeout(Slot(1), third)));
    assert!(out3.is_empty());
    assert!(rs[other].state.first_votes.has_voted(third));
}

#[test]
fn vote_without_fragment_from_unknown_id_is_counted() {
    let mut r = Replica::new(0, 4, 1, 0);
    let v = FirstVote::new(NotarVote::timeout(Slot(1), 7));
    r.on_first_vote(&v, 7);
    assert!(r.state.first_votes.has_voted(7));
    assert_eq!(r.state.first_votes.all_votes(), 1);
}

#[test]
fn fragment_from_unknown_id_is_kept_but_not_used_to_rebuild() {
    let mut rs = replicas(4, 1, 0);
    let leader = leader_for_slot(Slot(1), 4);
    let other = (leader + 1) % 4;
    rs[other].on_timeout();
    let acts = rs[leader].propose(b"some payload bytes").unwrap();
    let mut props = Vec::new();
    let mut votes = Vec::new();
    for a in acts {
        match a {
            Action::Send(i, p) => props.push((i, p)),
            Action::BcastFirst(v) => votes.push(v),
            _ => {}
        }
    }
    for (i, p) in props {
        if i != leader && i != other {
            for a in rs[i].on_proposal(p, leader) {
                if let Action::BcastFirst(v) = a {
                    votes.push(v);
                }
            }
        }
    }
    let h = votes[0].block_hash();
    let forged = FirstVote::new(NotarVote {
        block: votes[0].notar.block,
        frag: votes[0].notar.frag.clone(),
        proof: votes[0].notar.proof.clone(),
        from: 9,
    });
    let mut out = rs[other].on_first_vote(&forged, 9);
    assert!(rs[other].state.first_votes.has_voted(9));
    assert_eq!(rs[other].state.fragments.count(&h), 1);
    for v in &votes {
        out.extend(rs[other].on_first_vote(v, v.from()));
    }
    assert_eq!(rs[other].state.first_votes.count(&h), 4);
    // the rebuild was tried once, with the forged copy left out: too few
    // fragments, so the replica does not vote to notarize the block
    assert!(rs[other].state.second_look.contains(&h));
    assert!(!out.iter().any(|a| matches!(a, Action::BcastNotar(v) if v.block_hash() == h)));
}

#[test]
fn message_decision_fast_then_slow() {
    let mut rs = replicas(4, 1, 0);
    let (block, votes) = propose_round(&mut rs, b"payload");
    let h = block.hash();
    // replica 0 sees three of the four first votes: a quorum, not a fast quorum
    let mut r = Replica::new(0, 4, 1, 0);
    for v in votes.iter().take(3) {
        r.on_first_vote(v, v.from());
    }
    assert_eq!(r.state.first_votes.count(&h), 3);
    assert!(r.finalize_on_message(true).is_none());
    assert!(!r.state.done);
    let (fh, cnt, _, fast) = r.finalize_on_message(false).unwrap();
    assert_eq!((fh, cnt, fast), (h, 3, false));
    assert!(r.state.done);
    assert!(r.finalize_on_message(false).is_none());
    // with all four, the fast quorum decides, even in the fast window
    let mut s = Replica::new(1, 4, 1, 0);
    for v in &votes {
        s.on_first_vote(v, v.from());
    }
    let (fh, cnt, _, fast) = s.finalize_on_message(true).unwrap();
    assert_eq!((fh, cnt, fast), (h, 4, true));
}
