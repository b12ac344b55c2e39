//! Properties of the protocol that span several operations.

use crate::block::{block_hash_of, Block, BlockHash};
use crate::protocol::{
    keyed_by_hash, spec_check_enough_votes, spec_check_notar_cert, spec_check_timeout_votes, spec_on_first_vote,
    spec_on_first_vote_recorded, spec_send_timeout_vote, spec_try_reconstruct_and_notarize,
    ancestor_walk, append_unfinalized, finalization_chain, finalized_has, spec_check_fast_final, spec_check_timeout_cert, spec_fast_quorum, spec_k,
    spec_on_block_in_block_tree, spec_on_final_vote, spec_on_proposal, spec_on_timeout, spec_on_timeout_cert,
    spec_propose, spec_quorum, spec_tick, spec_finalize_with_predecessors, timeout_hash, valid_params, ActionView,
    ReplicaView,
};
use crate::voting::{
    final_votes_for, has_vote_for, has_voter, lemma_votes_for_bound, Cert, spec_max_votes, votes_for, max_votes_upto, BlockPropView,
    FinalVote, NotarVoteView, voters_distinct,
};
use crate::types::ReplicaId;
use vstd::prelude::*;

verus! {

/// With `n >= 3f + 2p + 1`, the thresholds are ordered
/// `1 <= k <= quorum <= fast quorum <= n`, and any two quorums share at
/// least `f + 1` replicas, so at least one correct replica.
pub proof fn lemma_quorum_thresholds(v: ReplicaView)
    requires
        valid_params(v.n as int, v.f as int, v.p as int),
    ensures
        1 <= spec_k(v) <= spec_quorum(v) <= spec_fast_quorum(v) <= v.n,
        2 * spec_quorum(v) - v.n >= v.f + 1,
        spec_quorum(v) + spec_fast_quorum(v) - v.n >= v.f + 1,
{
}

proof fn lemma_no_vote_no_count(s: Seq<(ReplicaId, BlockHash)>, h: BlockHash)
    requires
        !has_vote_for(s, h),
    ensures
        votes_for(s, h) == 0,
    decreases s.len(),
{
    if s.len() > 0 {
        assert(s.last() == s[s.len() - 1]);
        assert(!has_vote_for(s.drop_last(), h)) by {
            if has_vote_for(s.drop_last(), h) {
                let i = choose|i: int| 0 <= i < s.drop_last().len() && (#[trigger] s.drop_last()[i]).1 == h;
                assert(s[i].1 == h);
            }
        }
        lemma_no_vote_no_count(s.drop_last(), h);
    }
}

proof fn lemma_max_upto_ge(s: Seq<(ReplicaId, BlockHash)>, m: int, i: int)
    requires
        0 <= i < m <= s.len(),
    ensures
        votes_for(s, s[i].1) <= max_votes_upto(s, m),
    decreases m,
{
    if i < m - 1 {
        lemma_max_upto_ge(s, m - 1, i);
    }
}

proof fn lemma_max_upto_attained(s: Seq<(ReplicaId, BlockHash)>, m: int)
    requires
        0 < m <= s.len(),
    ensures
        exists|i: int| 0 <= i < m && #[trigger] votes_for(s, s[i].1) == max_votes_upto(s, m),
    decreases m,
{
    if m > 1 {
        lemma_max_upto_attained(s, m - 1);
        let i = choose|i: int| 0 <= i < m - 1 && #[trigger] votes_for(s, s[i].1) == max_votes_upto(s, m - 1);
        if votes_for(s, s[m - 1].1) > max_votes_upto(s, m - 1) {
            assert(votes_for(s, s[m - 1].1) == max_votes_upto(s, m));
        } else {
            assert(votes_for(s, s[i].1) == max_votes_upto(s, m));
        }
    } else {
        reveal_with_fuel(max_votes_upto, 2);
        assert(votes_for(s, s[0].1) == max_votes_upto(s, 1));
    }
}

/// The largest vote count of the first-vote tracker bounds every block's
/// count, is some voted block's count, and is at most the number of votes.
pub proof fn lemma_max_votes(s: Seq<(ReplicaId, BlockHash)>, h: BlockHash)
    ensures
        votes_for(s, h) <= spec_max_votes(s),
        spec_max_votes(s) <= s.len(),
        s.len() > 0 ==> exists|i: int| 0 <= i < s.len() && #[trigger] votes_for(s, s[i].1) == spec_max_votes(s),
{
    if has_vote_for(s, h) {
        let i = choose|i: int| 0 <= i < s.len() && (#[trigger] s[i]).1 == h;
        lemma_max_upto_ge(s, s.len() as int, i);
    } else {
        lemma_no_vote_no_count(s, h);
    }
    if s.len() > 0 {
        lemma_max_upto_attained(s, s.len() as int);
        let i = choose|i: int| 0 <= i < s.len() && #[trigger] votes_for(s, s[i].1) == spec_max_votes(s);
        lemma_votes_for_bound(s, s[i].1);
    }
}

/// Whether a list of actions holds a first vote.
pub open spec fn has_first_vote(acts: Seq<ActionView>) -> bool {
    exists|i: int| 0 <= i < acts.len() && (#[trigger] acts[i]) is BcastFirst
}

/// A replica gives at most one first vote per slot: a proposal, the proposal
/// timer and the clock make the replica vote only when it has not voted, and
/// mark it as having voted. The leader's own proposal votes only once (it is
/// refused when the leader proposed already) and marks the leader as having voted.
pub proof fn lemma_one_first_vote_per_slot(v: ReplicaView, prop: BlockPropView, from: ReplicaId, t: u64, payload: Seq<u8>)
    ensures
        v.state.first_voted ==> !has_first_vote(spec_on_proposal(v, prop, from).1),
        has_first_vote(spec_on_proposal(v, prop, from).1) ==> spec_on_proposal(v, prop, from).0.state.first_voted,
        v.state.first_voted ==> !has_first_vote(spec_on_timeout(v).1),
        has_first_vote(spec_on_timeout(v).1) ==> spec_on_timeout(v).0.state.first_voted,
        v.state.first_voted ==> !has_first_vote(spec_tick(v, t).1),
        has_first_vote(spec_tick(v, t).1) ==> spec_tick(v, t).0.state.first_voted,
        v.state.proposed ==> spec_propose(v, payload).1 is Err,
        spec_propose(v, payload).1 is Ok ==> spec_propose(v, payload).0.state.proposed
            && spec_propose(v, payload).0.state.first_voted,
{
}

/// A certificate of each kind is issued at most once per slot, and only with
/// enough votes: a final certificate needs a quorum of final votes, a
/// fast-final one `n - p` first votes, a timeout one a quorum of first votes
/// for the timeout block.
pub proof fn lemma_certificates_once(v: ReplicaView, vote: FinalVote, h: BlockHash)
    ensures
        v.state.final_cert is Some ==> spec_on_final_vote(v, vote).1 is None,
        spec_on_final_vote(v, vote).1 is Some ==> {
            &&& spec_on_final_vote(v, vote).0.state.final_cert == Some(vote.block_hash)
            &&& final_votes_for(spec_on_final_vote(v, vote).0.state.final_votes, vote.block_hash) >= spec_quorum(v)
        },
        v.state.fast_final_cert is Some ==> spec_check_fast_final(v, h).1 is None,
        spec_check_fast_final(v, h).1 is Some ==> {
            &&& spec_check_fast_final(v, h).0.state.fast_final_cert == Some(h)
            &&& votes_for(v.state.first_votes, h) >= spec_fast_quorum(v)
        },
        v.state.timeout_cert is Some ==> spec_check_timeout_cert(v).1 is None,
        spec_check_timeout_cert(v).1 is Some ==> votes_for(v.state.first_votes, timeout_hash(v)) >= spec_quorum(v),
{
}

/// Once a slot is done, a block entering the tree and a timeout certificate
/// change nothing; each of them makes a slot done.
pub proof fn lemma_done_is_final(v: ReplicaView, block: Block)
    ensures
        v.state.done ==> spec_on_block_in_block_tree(v, block).0 == v && spec_on_block_in_block_tree(v, block).1.len() == 0,
        v.state.done ==> spec_on_timeout_cert(v) == v,
        block.slot.0 == v.slot.0 ==> spec_on_block_in_block_tree(v, block).0.state.done,
        spec_on_timeout_cert(v).state.done || v.state.timeout_cert is Some,
{
}

/// No two blocks with the same hash.
pub open spec fn distinct_hashes(fin: Seq<Block>) -> bool {
    forall|i: int, j: int| 0 <= i < j < fin.len() ==> block_hash_of(#[trigger] fin[i]) != block_hash_of(#[trigger] fin[j])
}

proof fn lemma_append_unfinalized(fin: Seq<Block>, bs: Seq<Block>)
    ensures
        distinct_hashes(fin) ==> distinct_hashes(append_unfinalized(fin, bs)),
        append_unfinalized(fin, bs).len() >= fin.len(),
        append_unfinalized(fin, bs).take(fin.len() as int) == fin,
    decreases bs.len(),
{
    if bs.len() > 0 {
        lemma_append_unfinalized(fin, bs.drop_last());
        let f2 = append_unfinalized(fin, bs.drop_last());
        let b = bs.last();
        if !finalized_has(f2, block_hash_of(b)) {
            let f3 = f2.push(b);
            assert(f3.take(fin.len() as int) =~= f2.take(fin.len() as int));
            if distinct_hashes(fin) {
                assert forall|i: int, j: int| 0 <= i < j < f3.len() implies block_hash_of(#[trigger] f3[i])
                    != block_hash_of(#[trigger] f3[j]) by {
                    if j == f2.len() {
                        assert(f3[i] == f2[i]);
                        if block_hash_of(f2[i]) == block_hash_of(b) {
                            assert(finalized_has(f2, block_hash_of(b)));
                        }
                    } else {
                        assert(f3[i] == f2[i] && f3[j] == f2[j]);
                    }
                }
            }
        }
    }
}

/// Finalizing keeps every block finalized before, in place, and never
/// finalizes two blocks with the same hash.
pub proof fn lemma_finalization_keeps_history(v: ReplicaView, h: BlockHash)
    ensures
        spec_finalize_with_predecessors(v, h).finalized_blocks.take(v.finalized_blocks.len() as int) == v.finalized_blocks,
        distinct_hashes(v.finalized_blocks) ==> distinct_hashes(spec_finalize_with_predecessors(v, h).finalized_blocks),
{
    lemma_append_unfinalized(v.finalized_blocks, crate::protocol::finalization_chain(v, h));
}

proof fn lemma_append_has(fin: Seq<Block>, bs: Seq<Block>, i: int)
    requires
        0 <= i < bs.len(),
    ensures
        finalized_has(append_unfinalized(fin, bs), block_hash_of(bs[i])),
    decreases bs.len(),
{
    let d = bs.drop_last();
    let f2 = append_unfinalized(fin, d);
    let f3 = append_unfinalized(fin, bs);
    if i < bs.len() - 1 {
        lemma_append_has(fin, d, i);
        assert(d[i] == bs[i]);
        let w = choose|w: int| 0 <= w < f2.len() && block_hash_of(#[trigger] f2[w]) == block_hash_of(bs[i]);
        if f3 != f2 {
            assert(f3 == f2.push(bs.last()));
            assert(f3[w] == f2[w]);
        }
    } else if !finalized_has(f2, block_hash_of(bs.last())) {
        assert(f3 == f2.push(bs.last()));
        assert(f3[f2.len() as int] == bs.last());
    }
}

/// Finalizing a block twice does nothing the second time: after the first
/// call the block is finalized, so the second finalizes no block and leaves
/// the replica as it was. A well-formed replica meets both premises: its
/// invariant keys the tree by hash, and `BlockMap::lemma_finite` gives the
/// finite domain.
pub proof fn lemma_finalize_twice(v: ReplicaView, h: BlockHash)
    requires
        keyed_by_hash(v.block_tree),
        v.block_tree.dom().finite(),
    ensures
        finalization_chain(spec_finalize_with_predecessors(v, h), h).len() == 0,
        spec_finalize_with_predecessors(spec_finalize_with_predecessors(v, h), h)
            == spec_finalize_with_predecessors(v, h),
{
    let w = spec_finalize_with_predecessors(v, h);
    let fuel = v.block_tree.dom().len();
    let walk = ancestor_walk(v.block_tree, v.finalized_blocks, h, fuel);
    let chain = finalization_chain(v, h);
    assert(w.block_tree == v.block_tree);
    if fuel == 0 || !v.block_tree.dom().contains(h) || finalized_has(v.finalized_blocks, h) {
        assert(walk.len() == 0);
        assert(chain =~= Seq::<Block>::empty());
        assert(w.finalized_blocks == v.finalized_blocks);
        assert(w =~= v);
    } else {
        let b = v.block_tree[h];
        assert(walk[0] == b);
        assert(chain.len() == walk.len());
        assert(chain[chain.len() - 1] == walk[0]);
        lemma_append_has(v.finalized_blocks, chain, chain.len() - 1);
        assert(block_hash_of(b) == h);
        assert(finalized_has(w.finalized_blocks, h));
    }
    let chain2 = finalization_chain(w, h);
    assert(ancestor_walk(w.block_tree, w.finalized_blocks, h, w.block_tree.dom().len()).len() == 0);
    assert(chain2 =~= Seq::<Block>::empty());
    assert(spec_finalize_with_predecessors(w, h) =~= w);
}

/// Each notarization vote in `acts` is for a block that `pre` had not voted
/// to notarize and that `post` records as voted, no two of them for the same
/// block, and `post` keeps the blocks that `pre` voted for.
pub open spec fn notar_votes_fresh(pre: ReplicaView, post: ReplicaView, acts: Seq<ActionView>) -> bool {
    &&& post.state.notarized.len() >= pre.state.notarized.len()
    &&& post.state.notarized.take(pre.state.notarized.len() as int) == pre.state.notarized
    &&& forall|i: int|
        0 <= i < acts.len() ==> ((#[trigger] acts[i]) matches ActionView::BcastNotar(nv) ==> !pre.state.notarized.contains(
            block_hash_of(nv.block),
        ) && post.state.notarized.contains(block_hash_of(nv.block)))
    &&& forall|i: int, j: int|
        0 <= i < j < acts.len() ==> ((#[trigger] acts[i]) matches ActionView::BcastNotar(a) ==> ((#[trigger] acts[j]) matches ActionView::BcastNotar(b) ==> block_hash_of(a.block) != block_hash_of(b.block)))
}

proof fn lemma_fresh_compose(a: ReplicaView, b: ReplicaView, c: ReplicaView, x: Seq<ActionView>, y: Seq<ActionView>)
    requires
        notar_votes_fresh(a, b, x),
        notar_votes_fresh(b, c, y),
    ensures
        notar_votes_fresh(a, c, x + y),
{
    let na = a.state.notarized;
    let nb = b.state.notarized;
    let nc = c.state.notarized;
    assert(nc.take(na.len() as int) =~= na) by {
        assert forall|i: int| 0 <= i < na.len() implies nc[i] == na[i] by {
            assert(nc.take(nb.len() as int)[i] == nb[i]);
            assert(nb.take(na.len() as int)[i] == na[i]);
        }
    }
    assert forall|h: BlockHash| nb.contains(h) implies nc.contains(h) by {
        let i = choose|i: int| 0 <= i < nb.len() && nb[i] == h;
        assert(nc.take(nb.len() as int)[i] == nb[i]);
    }
    assert forall|h: BlockHash| na.contains(h) implies nb.contains(h) by {
        let i = choose|i: int| 0 <= i < na.len() && na[i] == h;
        assert(nb.take(na.len() as int)[i] == na[i]);
    }
    let z = x + y;
    assert forall|i: int|
        0 <= i < z.len() implies ((#[trigger] z[i]) matches ActionView::BcastNotar(nv) ==> !na.contains(block_hash_of(nv.block))
            && nc.contains(block_hash_of(nv.block))) by {
        if i < x.len() {
            assert(z[i] == x[i]);
        } else {
            assert(z[i] == y[i - x.len()]);
        }
    }
    assert forall|i: int, j: int|
        0 <= i < j < z.len() implies ((#[trigger] z[i]) matches ActionView::BcastNotar(p) ==> ((#[trigger] z[j]) matches ActionView::BcastNotar(q) ==> block_hash_of(p.block) != block_hash_of(q.block))) by {
        if j < x.len() {
            assert(z[i] == x[i] && z[j] == x[j]);
        } else if i >= x.len() {
            assert(z[i] == y[i - x.len()] && z[j] == y[j - x.len()]);
        } else {
            assert(z[i] == x[i] && z[j] == y[j - x.len()]);
        }
    }
}

proof fn lemma_unchanged_fresh(pre: ReplicaView, post: ReplicaView)
    requires
        post.state.notarized == pre.state.notarized,
    ensures
        notar_votes_fresh(pre, post, Seq::empty()),
{
    assert(post.state.notarized.take(pre.state.notarized.len() as int) =~= pre.state.notarized);
}

proof fn lemma_push_fresh(pre: ReplicaView, post: ReplicaView, nv: NotarVoteView)
    requires
        !pre.state.notarized.contains(block_hash_of(nv.block)),
        post.state.notarized == pre.state.notarized.push(block_hash_of(nv.block)),
    ensures
        notar_votes_fresh(pre, post, seq![ActionView::BcastNotar(nv)]),
{
    assert(post.state.notarized.take(pre.state.notarized.len() as int) =~= pre.state.notarized);
    assert(post.state.notarized[pre.state.notarized.len() as int] == block_hash_of(nv.block));
}

proof fn lemma_send_timeout_fresh(v: ReplicaView)
    ensures
        notar_votes_fresh(v, spec_send_timeout_vote(v).0, spec_send_timeout_vote(v).1),
{
    if v.state.notarized.contains(timeout_hash(v)) {
        lemma_unchanged_fresh(v, v);
    } else {
        lemma_push_fresh(v, spec_send_timeout_vote(v).0, crate::protocol::timeout_vote(v));
    }
}

proof fn lemma_try_reconstruct_fresh(v: ReplicaView, h: BlockHash)
    requires
        keyed_by_hash(v.state.blocks),
    ensures
        notar_votes_fresh(v, spec_try_reconstruct_and_notarize(v, h).0, spec_try_reconstruct_and_notarize(v, h).1),
{
    match crate::protocol::spec_try_reconstruct(v, h) {
        None => {
            lemma_send_timeout_fresh(v);
        },
        Some(payload) => {
            let r = spec_try_reconstruct_and_notarize(v, h);
            let block = v.state.blocks[h];
            if v.state.notarized.contains(h) {
                lemma_unchanged_fresh(v, r.0);
            } else {
                match crate::protocol::own_fragment(v, h, payload) {
                    None => {
                        let v1 = ReplicaView {
                            state: crate::protocol::SlotStateView {
                                notar_certs: r.0.state.notar_certs,
                                ..v.state
                            },
                            block_tree: v.block_tree.insert(h, block),
                            ..v
                        };
                        lemma_send_timeout_fresh(v1);
                        assert(timeout_hash(v1) == timeout_hash(v));
                    },
                    Some(mine) => {
                        assert(block_hash_of(block) == h);
                        let nv = NotarVoteView { block, frag: Some(mine.0), proof: Some(mine.1), from: v.id };
                        lemma_push_fresh(v, r.0, nv);
                    },
                }
            }
        },
    }
}

proof fn lemma_check_enough_fresh(v: ReplicaView, h: BlockHash)
    requires
        keyed_by_hash(v.state.blocks),
    ensures
        notar_votes_fresh(v, spec_check_enough_votes(v, h).0, spec_check_enough_votes(v, h).1),
{
    if !v.state.first_voted || v.state.second_look.contains(h) || votes_for(v.state.first_votes, h) < spec_k(v)
        || !(v.state.blocks.dom().contains(h) && v.block_tree.dom().contains(v.state.blocks[h].parent_hash)) {
        lemma_unchanged_fresh(v, v);
    } else {
        let v1 = crate::protocol::with_state(
            v,
            crate::protocol::SlotStateView { second_look: v.state.second_look.push(h), ..v.state },
        );
        lemma_try_reconstruct_fresh(v1, h);
    }
}

/// A replica votes to notarize each block at most once per slot: every
/// notarization vote that a first vote from another replica, or an attempt to
/// reconstruct a block, makes it cast is for a block it had not voted for,
/// and is recorded; the blocks voted for before stay recorded.
pub proof fn lemma_notarization_votes_unique(v: ReplicaView, vote: NotarVoteView, from: ReplicaId, h: BlockHash)
    requires
        keyed_by_hash(v.state.blocks),
    ensures
        notar_votes_fresh(v, spec_try_reconstruct_and_notarize(v, h).0, spec_try_reconstruct_and_notarize(v, h).1),
        notar_votes_fresh(v, spec_on_first_vote(v, vote, from).0, spec_on_first_vote(v, vote, from).1),
{
    lemma_try_reconstruct_fresh(v, h);
    let hv = block_hash_of(vote.block);
    let is_to = crate::block::spec_is_timeout(vote.block);
    if vote.block.slot.0 != v.slot.0 || crate::voting::has_voter(v.state.first_votes, from) || (!is_to
        && (v.state.notar_votes.contains((from, hv)) || crate::voting::votes_from(v.state.notar_votes, from) >= 3)) {
        lemma_unchanged_fresh(v, v);
    } else {
        let v1 = spec_on_first_vote_recorded(v, vote, from);
        assert(keyed_by_hash(v1.state.blocks));
        let (v2, a1) = spec_check_enough_votes(v1, hv);
        lemma_check_enough_fresh(v1, hv);
        let (v3, a2) = spec_check_timeout_votes(v2);
        if !v2.state.first_voted || crate::protocol::saturating_sub(
            v2.state.first_votes.len() as int,
            spec_max_votes(v2.state.first_votes) as int,
        ) < spec_k(v2) {
            lemma_unchanged_fresh(v2, v3);
        } else {
            lemma_send_timeout_fresh(v2);
        }
        lemma_fresh_compose(v1, v2, v3, a1, a2);
        assert(v1.state.notarized == v.state.notarized);
        assert(spec_on_first_vote(v, vote, from) == (v3, a1 + a2));
    }
}

proof fn lemma_two_blocks_votes(s: Seq<(ReplicaId, BlockHash)>, h1: BlockHash, h2: BlockHash)
    requires
        h1 != h2,
    ensures
        votes_for(s, h1) + votes_for(s, h2) <= s.len(),
    decreases s.len(),
{
    if s.len() > 0 {
        lemma_two_blocks_votes(s.drop_last(), h1, h2);
    }
}

proof fn lemma_voters_bound(s: Seq<(ReplicaId, BlockHash)>, n: usize)
    requires
        voters_distinct(s),
        forall|i: int| 0 <= i < s.len() ==> (#[trigger] s[i]).0 < n,
    ensures
        s.len() <= n,
{
    let ids = Seq::new(s.len(), |i: int| s[i].0 as int);
    assert(ids.no_duplicates()) by {
        assert forall|i: int, j: int| 0 <= i < ids.len() && 0 <= j < ids.len() && i != j implies ids[i] != ids[j] by {
            if i < j {
                assert(s[i].0 != s[j].0);
            } else {
                assert(s[j].0 != s[i].0);
            }
        }
    }
    ids.unique_seq_to_set();
    vstd::set_lib::lemma_int_range(0, n as int);
    assert(ids.to_set().subset_of(vstd::set_lib::set_int_range(0, n as int))) by {
        assert forall|x: int| ids.to_set().contains(x) implies vstd::set_lib::set_int_range(0, n as int).contains(x) by {
            let i = choose|i: int| 0 <= i < ids.len() && ids[i] == x;
            assert(s[i].0 < n);
        }
    }
    vstd::set_lib::lemma_len_subset(ids.to_set(), vstd::set_lib::set_int_range(0, n as int));
}

/// At most one block gathers a quorum of first votes in a slot (and so at
/// most one a fast quorum): each replica's first vote counts once, only the
/// `n` replicas vote, and two quorums together exceed `n`.
pub proof fn lemma_quorum_block_unique(v: ReplicaView, h1: BlockHash, h2: BlockHash)
    requires
        valid_params(v.n as int, v.f as int, v.p as int),
        voters_distinct(v.state.first_votes),
        forall|i: int| 0 <= i < v.state.first_votes.len() ==> (#[trigger] v.state.first_votes[i]).0 < v.n,
        votes_for(v.state.first_votes, h1) >= spec_quorum(v),
        votes_for(v.state.first_votes, h2) >= spec_quorum(v),
    ensures
        h1 == h2,
{
    lemma_voters_bound(v.state.first_votes, v.n);
    if h1 != h2 {
        lemma_two_blocks_votes(v.state.first_votes, h1, h2);
    }
}

/// The replicas that voted for `h` in `s`.
pub open spec fn voters_for(s: Seq<(ReplicaId, BlockHash)>, h: BlockHash) -> Set<ReplicaId> {
    Set::new(|r: ReplicaId| exists|i: int| 0 <= i < s.len() && (#[trigger] s[i]).0 == r && s[i].1 == h)
}

/// Every replica outside `byz` that voted in both `s1` and `s2` gave both the same vote.
pub open spec fn same_votes_outside(
    s1: Seq<(ReplicaId, BlockHash)>,
    s2: Seq<(ReplicaId, BlockHash)>,
    byz: Set<ReplicaId>,
) -> bool {
    forall|i: int, j: int|
        #![trigger s1[i], s2[j]]
        0 <= i < s1.len() && 0 <= j < s2.len() && s1[i].0 == s2[j].0 && !byz.contains(s1[i].0) ==> s1[i].1
            == s2[j].1
}

proof fn lemma_voters_for_len(s: Seq<(ReplicaId, BlockHash)>, h: BlockHash)
    requires
        voters_distinct(s),
    ensures
        voters_for(s, h).finite(),
        voters_for(s, h).len() == votes_for(s, h),
    decreases s.len(),
{
    if s.len() == 0 {
        assert(voters_for(s, h) =~= Set::empty());
    } else {
        let d = s.drop_last();
        let e = s.last();
        assert(voters_distinct(d)) by {
            assert forall|i: int, j: int| 0 <= i < j < d.len() implies (#[trigger] d[i]).0 != (#[trigger] d[j]).0 by {
                assert(d[i] == s[i] && d[j] == s[j]);
            }
        }
        lemma_voters_for_len(d, h);
        if e.1 == h {
            assert(voters_for(s, h) =~= voters_for(d, h).insert(e.0)) by {
                assert(s[s.len() - 1] == e);
                assert forall|r: ReplicaId| voters_for(d, h).contains(r) implies voters_for(s, h).contains(r) by {
                    let i = choose|i: int| 0 <= i < d.len() && (#[trigger] d[i]).0 == r && d[i].1 == h;
                    assert(s[i] == d[i]);
                }
                assert forall|r: ReplicaId| voters_for(s, h).contains(r) && r != e.0 implies voters_for(d, h).contains(
                    r,
                ) by {
                    let i = choose|i: int| 0 <= i < s.len() && (#[trigger] s[i]).0 == r && s[i].1 == h;
                    assert(i != s.len() - 1);
                    assert(d[i] == s[i]);
                }
            }
            assert(!voters_for(d, h).contains(e.0)) by {
                if voters_for(d, h).contains(e.0) {
                    let i = choose|i: int| 0 <= i < d.len() && (#[trigger] d[i]).0 == e.0 && d[i].1 == h;
                    assert(s[i].0 != s[s.len() - 1].0);
                }
            }
        } else {
            assert(voters_for(s, h) =~= voters_for(d, h)) by {
                assert forall|r: ReplicaId| voters_for(d, h).contains(r) implies voters_for(s, h).contains(r) by {
                    let i = choose|i: int| 0 <= i < d.len() && (#[trigger] d[i]).0 == r && d[i].1 == h;
                    assert(s[i] == d[i]);
                }
                assert forall|r: ReplicaId| voters_for(s, h).contains(r) implies voters_for(d, h).contains(r) by {
                    let i = choose|i: int| 0 <= i < s.len() && (#[trigger] s[i]).0 == r && s[i].1 == h;
                    assert(i != s.len() - 1);
                    assert(d[i] == s[i]);
                }
            }
        }
    }
}

/// Agreement between replicas: two replicas with the same parameters cannot
/// see quorums of first votes for two different blocks in a slot in which at
/// most `f` voters (those in `byz`) told them different things. Two quorums
/// of the `n` replicas share at least `f + 1` voters, so one outside `byz`,
/// whose single vote both replicas saw.
pub proof fn lemma_quorums_agree(v1: ReplicaView, v2: ReplicaView, byz: Set<ReplicaId>, h1: BlockHash, h2: BlockHash)
    requires
        v1.n == v2.n,
        v1.f == v2.f,
        v1.p == v2.p,
        valid_params(v1.n as int, v1.f as int, v1.p as int),
        voters_distinct(v1.state.first_votes),
        voters_distinct(v2.state.first_votes),
        forall|i: int| 0 <= i < v1.state.first_votes.len() ==> (#[trigger] v1.state.first_votes[i]).0 < v1.n,
        forall|i: int| 0 <= i < v2.state.first_votes.len() ==> (#[trigger] v2.state.first_votes[i]).0 < v2.n,
        byz.finite(),
        byz.len() <= v1.f,
        same_votes_outside(v1.state.first_votes, v2.state.first_votes, byz),
        votes_for(v1.state.first_votes, h1) >= spec_quorum(v1),
        votes_for(v2.state.first_votes, h2) >= spec_quorum(v2),
    ensures
        h1 == h2,
{
    let s1 = v1.state.first_votes;
    let s2 = v2.state.first_votes;
    let a = voters_for(s1, h1);
    let b = voters_for(s2, h2);
    lemma_voters_for_len(s1, h1);
    lemma_voters_for_len(s2, h2);
    let all = Set::<ReplicaId>::range(0, v1.n);
    vstd::set_lib::range_set_properties::<ReplicaId>(0, v1.n);
    assert((a + b).subset_of(all)) by {
        assert forall|r: ReplicaId| (a + b).contains(r) implies all.contains(r) by {
            if a.contains(r) {
                let i = choose|i: int| 0 <= i < s1.len() && (#[trigger] s1[i]).0 == r && s1[i].1 == h1;
            } else {
                let j = choose|j: int| 0 <= j < s2.len() && (#[trigger] s2[j]).0 == r && s2[j].1 == h2;
            }
        }
    }
    vstd::set_lib::lemma_len_subset(a + b, all);
    vstd::set_lib::lemma_set_intersect_union_lens(a, b);
    let both = a.intersect(b);
    assert(both.len() >= v1.f + 1);
    vstd::set_lib::lemma_len_intersect(both, byz);
    vstd::set_lib::lemma_len_intersect(byz, both);
    assert(byz.intersect(both) =~= both.intersect(byz));
    vstd::set_lib::lemma_set_difference_len(both, byz);
    let rest = both.difference(byz);
    assert(rest.len() >= 1);
    vstd::set_lib::lemma_set_empty_equivalency_len(rest);
    let r = rest.choose();
    assert(rest.contains(r));
    let i = choose|i: int| 0 <= i < s1.len() && (#[trigger] s1[i]).0 == r && s1[i].1 == h1;
    let j = choose|j: int| 0 <= j < s2.len() && (#[trigger] s2[j]).0 == r && s2[j].1 == h2;
    assert(s1[i].1 == s2[j].1);
}

/// The replicas that cast a vote in `s`.
pub open spec fn voter_set(s: Seq<(ReplicaId, BlockHash)>) -> Set<ReplicaId> {
    Set::new(|r: ReplicaId| has_voter(s, r))
}

/// The votes in `s` for the blocks of `hs`, added up.
pub open spec fn count_sum(s: Seq<(ReplicaId, BlockHash)>, hs: Seq<BlockHash>) -> nat
    decreases hs.len(),
{
    if hs.len() == 0 {
        0
    } else {
        count_sum(s, hs.drop_last()) + votes_for(s, hs.last())
    }
}

/// How often `x` occurs in `hs`.
pub open spec fn occurrences(hs: Seq<BlockHash>, x: BlockHash) -> nat
    decreases hs.len(),
{
    if hs.len() == 0 {
        0
    } else {
        occurrences(hs.drop_last(), x) + if hs.last() == x { 1nat } else { 0nat }
    }
}

proof fn lemma_count_sum_empty(s: Seq<(ReplicaId, BlockHash)>, hs: Seq<BlockHash>)
    requires
        s.len() == 0,
    ensures
        count_sum(s, hs) == 0,
    decreases hs.len(),
{
    if hs.len() > 0 {
        lemma_count_sum_empty(s, hs.drop_last());
    }
}

proof fn lemma_count_sum_step(s: Seq<(ReplicaId, BlockHash)>, hs: Seq<BlockHash>)
    requires
        s.len() > 0,
    ensures
        count_sum(s, hs) == count_sum(s.drop_last(), hs) + occurrences(hs, s.last().1),
    decreases hs.len(),
{
    if hs.len() > 0 {
        lemma_count_sum_step(s, hs.drop_last());
    }
}

proof fn lemma_occurrences(hs: Seq<BlockHash>, x: BlockHash)
    requires
        hs.no_duplicates(),
    ensures
        occurrences(hs, x) == if hs.contains(x) { 1nat } else { 0nat },
    decreases hs.len(),
{
    if hs.len() > 0 {
        let d = hs.drop_last();
        assert(d.no_duplicates()) by {
            assert forall|i: int, j: int| 0 <= i < d.len() && 0 <= j < d.len() && i != j implies d[i] != d[j] by {
                assert(d[i] == hs[i] && d[j] == hs[j]);
            }
        }
        lemma_occurrences(d, x);
        if hs.last() == x {
            if d.contains(x) {
                let i = choose|i: int| 0 <= i < d.len() && d[i] == x;
                assert(hs[i] == hs[hs.len() - 1]);
            }
        } else if hs.contains(x) {
            let i = choose|i: int| 0 <= i < hs.len() && hs[i] == x;
            assert(d[i] == x);
        } else if d.contains(x) {
            let i = choose|i: int| 0 <= i < d.len() && d[i] == x;
            assert(hs[i] == x);
        }
    }
}

proof fn lemma_count_sum(s: Seq<(ReplicaId, BlockHash)>, hs: Seq<BlockHash>)
    requires
        hs.no_duplicates(),
        forall|i: int| 0 <= i < s.len() ==> hs.contains(#[trigger] s[i].1),
    ensures
        count_sum(s, hs) == s.len(),
    decreases s.len(),
{
    if s.len() == 0 {
        lemma_count_sum_empty(s, hs);
    } else {
        let d = s.drop_last();
        assert forall|i: int| 0 <= i < d.len() implies hs.contains(#[trigger] d[i].1) by {
            assert(d[i] == s[i]);
        }
        lemma_count_sum(d, hs);
        lemma_count_sum_step(s, hs);
        assert(hs.contains(s[s.len() - 1].1));
        lemma_occurrences(hs, s.last().1);
    }
}

proof fn lemma_voter_set_len(s: Seq<(ReplicaId, BlockHash)>)
    requires
        voters_distinct(s),
    ensures
        voter_set(s).finite(),
        voter_set(s).len() == s.len(),
    decreases s.len(),
{
    if s.len() == 0 {
        assert(voter_set(s) =~= Set::empty());
    } else {
        let d = s.drop_last();
        let e = s.last();
        assert(voters_distinct(d)) by {
            assert forall|i: int, j: int| 0 <= i < j < d.len() implies (#[trigger] d[i]).0 != (#[trigger] d[j]).0 by {
                assert(d[i] == s[i] && d[j] == s[j]);
            }
        }
        lemma_voter_set_len(d);
        assert(voter_set(s) =~= voter_set(d).insert(e.0)) by {
            assert(s[s.len() - 1] == e);
            assert forall|r: ReplicaId| voter_set(d).contains(r) implies voter_set(s).contains(r) by {
                let i = choose|i: int| 0 <= i < d.len() && (#[trigger] d[i]).0 == r;
                assert(s[i] == d[i]);
            }
            assert forall|r: ReplicaId| voter_set(s).contains(r) && r != e.0 implies voter_set(d).contains(r) by {
                let i = choose|i: int| 0 <= i < s.len() && (#[trigger] s[i]).0 == r;
                assert(i != s.len() - 1);
                assert(d[i] == s[i]);
            }
        }
        assert(!voter_set(d).contains(e.0)) by {
            if voter_set(d).contains(e.0) {
                let i = choose|i: int| 0 <= i < d.len() && (#[trigger] d[i]).0 == e.0;
                assert(s[i].0 != s[s.len() - 1].0);
            }
        }
    }
}

/// Vote accounting of the first-vote tracker: the number of votes is the
/// number of distinct voters and the sum of the counts over the blocks voted
/// for (each listed once); each voter is counted under exactly one block.
pub proof fn lemma_vote_accounting(s: Seq<(ReplicaId, BlockHash)>, hs: Seq<BlockHash>)
    requires
        voters_distinct(s),
        hs.no_duplicates(),
        forall|h: BlockHash| #[trigger] hs.contains(h) <==> has_vote_for(s, h),
    ensures
        voter_set(s).finite(),
        voter_set(s).len() == s.len(),
        count_sum(s, hs) == s.len(),
        forall|r: ReplicaId, h1: BlockHash, h2: BlockHash|
            #[trigger] voters_for(s, h1).contains(r) && #[trigger] voters_for(s, h2).contains(r) ==> h1 == h2,
{
    lemma_voter_set_len(s);
    assert forall|i: int| 0 <= i < s.len() implies hs.contains(#[trigger] s[i].1) by {
        assert(has_vote_for(s, s[i].1));
    }
    lemma_count_sum(s, hs);
    assert forall|r: ReplicaId, h1: BlockHash, h2: BlockHash|
        #[trigger] voters_for(s, h1).contains(r) && #[trigger] voters_for(s, h2).contains(r) implies h1 == h2 by {
        let i = choose|i: int| 0 <= i < s.len() && (#[trigger] s[i]).0 == r && s[i].1 == h1;
        let j = choose|j: int| 0 <= j < s.len() && (#[trigger] s[j]).0 == r && s[j].1 == h2;
        if i < j {
            assert(s[i].0 != s[j].0);
        } else if j < i {
            assert(s[j].0 != s[i].0);
        }
    }
}

/// A proposal for a block of another slot than the replica's changes
/// nothing and gets no vote: a replica votes only in its current slot.
pub proof fn lemma_stale_proposal_ignored(v: ReplicaView, prop: BlockPropView, from: ReplicaId)
    requires
        prop.block.slot.0 != v.slot.0,
    ensures
        spec_on_proposal(v, prop, from).0 == v,
        spec_on_proposal(v, prop, from).1.len() == 0,
{
}

/// A notarization certificate names the block asked about and the replica's
/// slot, and comes only when at least `n - f - p` replicas gave that block
/// their first vote; a fast-final one needs `n - p` of them, a timeout one
/// `n - f - p` first votes for the timeout block.
pub proof fn lemma_first_vote_certificates_need_quorum(v: ReplicaView, h: BlockHash)
    ensures
        spec_check_notar_cert(v, h).1 matches Some(c) ==> c == Cert::Notar(h, v.slot)
            && votes_for(v.state.first_votes, h) + v.f + v.p >= v.n,
        spec_check_fast_final(v, h).1 matches Some(c) ==> c == Cert::FastFinal(h, v.slot)
            && votes_for(v.state.first_votes, h) + v.p >= v.n,
        spec_check_timeout_cert(v).1 matches Some(c) ==> c == Cert::Timeout(v.slot)
            && votes_for(v.state.first_votes, timeout_hash(v)) + v.f + v.p >= v.n,
{
}

/// A final vote of another slot changes nothing and gives no certificate; a
/// final certificate names the replica's own slot and the voted block, and
/// comes only when at least `n - f - p` replicas gave that block a final vote.
pub proof fn lemma_final_vote_of_own_slot(v: ReplicaView, vote: FinalVote)
    ensures
        vote.slot.0 != v.slot.0 ==> spec_on_final_vote(v, vote) == (v, None::<Cert>),
        spec_on_final_vote(v, vote).1 matches Some(c) ==> c == Cert::Final(vote.block_hash, v.slot)
            && final_votes_for(spec_on_final_vote(v, vote).0.state.final_votes, vote.block_hash) + v.f + v.p >= v.n,
{
}

/// A replica sends a final vote for a block entering its tree only when every
/// block it voted to notarize in the slot is that block.
pub proof fn lemma_final_vote_only_for_sole_notarized(v: ReplicaView, block: Block)
    ensures
        forall|i: int|
            0 <= i < spec_on_block_in_block_tree(v, block).1.len()
                && (#[trigger] spec_on_block_in_block_tree(v, block).1[i]) is BcastFinal ==> forall|j: int|
                0 <= j < v.state.notarized.len() ==> #[trigger] v.state.notarized[j] == block_hash_of(block),
{
    let (post, acts) = spec_on_block_in_block_tree(v, block);
    let h = block_hash_of(block);
    if !(block.slot.0 != v.slot.0 || v.state.done) && v.state.notarized.len() == 1 && v.state.notarized.contains(h) {
        assert forall|j: int| 0 <= j < v.state.notarized.len() implies #[trigger] v.state.notarized[j] == h by {
            let k = choose|k: int| 0 <= k < v.state.notarized.len() && v.state.notarized[k] == h;
            assert(k == 0 && j == 0);
        }
    }
}

/// Every block that `post` adds to the tree `pre`, or puts under a key
/// anew, has its parent in `pre`.
pub open spec fn added_with_known_parent(pre: Map<BlockHash, Block>, post: Map<BlockHash, Block>) -> bool {
    forall|h: BlockHash|
        #[trigger] post.dom().contains(h) && (!pre.dom().contains(h) || post[h] != pre[h]) ==> pre.dom().contains(
            post[h].parent_hash,
        )
}

/// Every vote to notarize a block other than a timeout block, among `acts`,
/// is for a block whose parent is in `tree`.
pub open spec fn notarizes_known_parents(tree: Map<BlockHash, Block>, acts: Seq<ActionView>) -> bool {
    forall|i: int|
        0 <= i < acts.len() ==> ((#[trigger] acts[i]) matches ActionView::BcastNotar(nv) ==> crate::block::spec_is_timeout(
            nv.block,
        ) || tree.dom().contains(nv.block.parent_hash))
}

proof fn lemma_timeout_vote_is_timeout(v: ReplicaView)
    ensures
        spec_send_timeout_vote(v).0.block_tree == v.block_tree,
        forall|t: Map<BlockHash, Block>| notarizes_known_parents(t, spec_send_timeout_vote(v).1),
{
    let b = crate::block::spec_timeout_block(v.slot);
    assert(crate::block::all_zero(crate::block::zero32())) by {
        broadcast use vstd::array::axiom_spec_array_fill_for_copy_type;
    }
    assert(crate::block::spec_is_timeout(b));
}

proof fn lemma_reconstruct_known_parent(v: ReplicaView, h: BlockHash)
    requires
        v.state.blocks.dom().contains(h),
        v.block_tree.dom().contains(v.state.blocks[h].parent_hash),
    ensures
        added_with_known_parent(v.block_tree, spec_try_reconstruct_and_notarize(v, h).0.block_tree),
        notarizes_known_parents(v.block_tree, spec_try_reconstruct_and_notarize(v, h).1),
{
    let (post, acts) = spec_try_reconstruct_and_notarize(v, h);
    match crate::protocol::spec_try_reconstruct(v, h) {
        None => {
            lemma_timeout_vote_is_timeout(v);
        },
        Some(payload) => {
            let block = v.state.blocks[h];
            assert(added_with_known_parent(v.block_tree, v.block_tree.insert(h, block)));
            let v1 = ReplicaView { block_tree: v.block_tree.insert(h, block), ..v };
            lemma_timeout_vote_is_timeout(v1);
            assert(notarizes_known_parents(v.block_tree, spec_send_timeout_vote(v1).1));
        },
    }
}

/// Reconstruction is tried only for a block whose parent is in the block
/// tree: checking the votes for `h` adds to the tree only blocks with a known
/// parent, and votes to notarize only such blocks (or the timeout block).
pub proof fn lemma_enough_votes_known_parent(v: ReplicaView, h: BlockHash)
    ensures
        added_with_known_parent(v.block_tree, spec_check_enough_votes(v, h).0.block_tree),
        notarizes_known_parents(v.block_tree, spec_check_enough_votes(v, h).1),
{
    if !v.state.first_voted || v.state.second_look.contains(h) || votes_for(v.state.first_votes, h) < spec_k(v) {
    } else if !(v.state.blocks.dom().contains(h) && v.block_tree.dom().contains(v.state.blocks[h].parent_hash)) {
    } else {
        let v1 = crate::protocol::with_state(
            v,
            crate::protocol::SlotStateView { second_look: v.state.second_look.push(h), ..v.state },
        );
        lemma_reconstruct_known_parent(v1, h);
    }
}

/// A first vote makes a replica add to its block tree, or vote to notarize,
/// only blocks whose parent was in its block tree before (apart from the
/// timeout block, which it may vote to notarize).
pub proof fn lemma_first_vote_known_parent(v: ReplicaView, vote: NotarVoteView, from: ReplicaId)
    ensures
        added_with_known_parent(v.block_tree, spec_on_first_vote(v, vote, from).0.block_tree),
        notarizes_known_parents(v.block_tree, spec_on_first_vote(v, vote, from).1),
{
    let h = block_hash_of(vote.block);
    let is_to = crate::block::spec_is_timeout(vote.block);
    if vote.block.slot.0 != v.slot.0 || has_voter(v.state.first_votes, from) || (!is_to && (
    v.state.notar_votes.contains((from, h)) || crate::voting::votes_from(v.state.notar_votes, from) >= 3)) {
    } else {
        let v1 = spec_on_first_vote_recorded(v, vote, from);
        assert(v1.block_tree == v.block_tree);
        let (v2, a1) = spec_check_enough_votes(v1, h);
        lemma_enough_votes_known_parent(v1, h);
        let (v3, a2) = spec_check_timeout_votes(v2);
        if !v2.state.first_voted || crate::protocol::saturating_sub(
            v2.state.first_votes.len() as int,
            spec_max_votes(v2.state.first_votes) as int,
        ) < spec_k(v2) {
        } else {
            lemma_timeout_vote_is_timeout(v2);
        }
        assert(spec_on_first_vote(v, vote, from) == (v3, a1 + a2));
        assert(v3.block_tree == v2.block_tree);
        assert(added_with_known_parent(v.block_tree, v3.block_tree));
        assert forall|i: int| 0 <= i < (a1 + a2).len() implies ((#[trigger] (a1 + a2)[i]) matches ActionView::BcastNotar(
            nv,
        ) ==> crate::block::spec_is_timeout(nv.block) || v.block_tree.dom().contains(nv.block.parent_hash)) by {
            if i < a1.len() {
                assert((a1 + a2)[i] == a1[i]);
            } else {
                assert((a1 + a2)[i] == a2[i - a1.len()]);
                assert(notarizes_known_parents(v.block_tree, a2));
            }
        }
    }
}

} // verus!
