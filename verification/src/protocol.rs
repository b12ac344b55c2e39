//! The replica state machine: each handler takes the replica's state and an
//! event (a message, a timer, a certificate) and returns the next state and
//! the actions to perform.

use crate::block::{block_hash_of, genesis, spec_is_timeout, spec_timeout_block, timeout_block, Block, BlockHash, Tag};
use crate::crypto::{
    self, encoded_fragments, merkle_leaf_hash, merkle_verifies, rs_encode_error, rs_reconstruct_error,
    spec_decoded, spec_merkle_proof, spec_merkle_root, unencoded_shards, Fragment, Proof, ProofView,
};
use crate::types::{leader_for_slot, spec_leader_for_slot, ReplicaId, Slot};
use crate::voting::{
    contains_hash, final_votes_for, frags_for, has_vote_for, has_voter, no_duplicates, spec_max_votes, store_insert, votes_for,
    votes_from, BlockMap,
    BlockProp, BlockPropView, Cert, CertPool, FinalVote, FinalVoteTracker, FirstVote, FirstVoteTracker, FragEntry,
    FragmentStore, NotarVote, NotarVoteTracker, NotarVoteView,
};
use vstd::prelude::*;

verus! {

/// How long a replica waits for a proposal before it votes for the timeout block (ms).
pub const DELTA_TIMEOUT: u64 = 5000;

/// The state of a replica in its current slot.
#[derive(Debug)]
pub struct SlotState {
    pub t_start: u64,
    pub done: bool,
    pub proposed: bool,
    pub first_voted: bool,
    /// The blocks this replica voted to notarize, each once.
    pub notarized: Vec<BlockHash>,
    /// The blocks this replica tried to reconstruct, each once.
    pub second_look: Vec<BlockHash>,
    pub first_votes: FirstVoteTracker,
    pub final_votes: FinalVoteTracker,
    pub notar_votes: NotarVoteTracker,
    pub cert_pool: CertPool,
    pub fragments: FragmentStore,
    pub blocks: BlockMap,
}

/// The content of a [`SlotState`].
#[verifier::ext_equal]
pub struct SlotStateView {
    pub t_start: u64,
    pub done: bool,
    pub proposed: bool,
    pub first_voted: bool,
    pub notarized: Seq<BlockHash>,
    pub second_look: Seq<BlockHash>,
    pub first_votes: Seq<(ReplicaId, BlockHash)>,
    pub final_votes: Seq<(BlockHash, ReplicaId)>,
    pub notar_votes: Seq<(ReplicaId, BlockHash)>,
    pub timeout_cert: Option<Slot>,
    pub fast_final_cert: Option<BlockHash>,
    pub final_cert: Option<BlockHash>,
    pub notar_certs: Seq<BlockHash>,
    pub fragments: Seq<FragEntry>,
    pub blocks: Map<BlockHash, Block>,
}

impl View for SlotState {
    type V = SlotStateView;

    open spec fn view(&self) -> SlotStateView {
        SlotStateView {
            t_start: self.t_start,
            done: self.done,
            proposed: self.proposed,
            first_voted: self.first_voted,
            notarized: self.notarized@,
            second_look: self.second_look@,
            first_votes: self.first_votes@,
            final_votes: self.final_votes@,
            notar_votes: self.notar_votes@,
            timeout_cert: self.cert_pool.timeout_cert,
            fast_final_cert: self.cert_pool.fast_final_cert,
            final_cert: self.cert_pool.final_cert,
            notar_certs: self.cert_pool.notar_certs@,
            fragments: self.fragments@,
            blocks: self.blocks@,
        }
    }
}

/// The state of a slot that started at time `t`.
pub open spec fn initial_slot_state(t: u64) -> SlotStateView {
    SlotStateView {
        t_start: t,
        done: false,
        proposed: false,
        first_voted: false,
        notarized: Seq::empty(),
        second_look: Seq::empty(),
        first_votes: Seq::empty(),
        final_votes: Seq::empty(),
        notar_votes: Seq::empty(),
        timeout_cert: None,
        fast_final_cert: None,
        final_cert: None,
        notar_certs: Seq::empty(),
        fragments: Seq::empty(),
        blocks: Map::empty(),
    }
}

impl SlotState {
    /// The invariant of a slot's state among `n` replicas.
    pub open spec fn wf(&self, n: usize) -> bool {
        &&& self.first_votes.wf()
        &&& self.final_votes.wf()
        &&& self.notar_votes.wf()
        &&& self.cert_pool.wf()
        &&& self.fragments.wf()
        &&& self.blocks.wf()
        &&& no_duplicates(self.notarized@)
        &&& no_duplicates(self.second_look@)
    }

    pub fn new(t: u64) -> (s: Self)
        ensures
            s@ == initial_slot_state(t),
            forall|n: usize| s.wf(n),
    {
        SlotState {
            t_start: t,
            done: false,
            proposed: false,
            first_voted: false,
            notarized: Vec::new(),
            second_look: Vec::new(),
            first_votes: FirstVoteTracker::new(),
            final_votes: FinalVoteTracker::new(),
            notar_votes: NotarVoteTracker::new(),
            cert_pool: CertPool::new(),
            fragments: FragmentStore::new(),
            blocks: BlockMap::new(),
        }
    }
}

/// What a replica asks its environment to do.
#[derive(Debug)]
pub enum Action {
    /// Send a proposal to one replica.
    Send(ReplicaId, BlockProp),
    BcastFirst(FirstVote),
    BcastFinal(FinalVote),
    BcastNotar(NotarVote),
    /// The slot is done with this block.
    Done(BlockHash),
}

pub enum ActionView {
    Send(ReplicaId, BlockPropView),
    BcastFirst(NotarVoteView),
    BcastFinal(FinalVote),
    BcastNotar(NotarVoteView),
    Done(BlockHash),
}

impl View for Action {
    type V = ActionView;

    open spec fn view(&self) -> ActionView {
        match self {
            Action::Send(to, prop) => ActionView::Send(*to, prop@),
            Action::BcastFirst(v) => ActionView::BcastFirst(v@),
            Action::BcastFinal(v) => ActionView::BcastFinal(*v),
            Action::BcastNotar(v) => ActionView::BcastNotar(v@),
            Action::Done(h) => ActionView::Done(*h),
        }
    }
}

impl Clone for Action {
    fn clone(&self) -> (c: Self)
        ensures
            c@ == self@,
    {
        match self {
            Action::Send(to, prop) => Action::Send(*to, prop.clone()),
            Action::BcastFirst(v) => Action::BcastFirst(v.clone()),
            Action::BcastFinal(v) => Action::BcastFinal(*v),
            Action::BcastNotar(v) => Action::BcastNotar(v.clone()),
            Action::Done(h) => Action::Done(*h),
        }
    }
}

/// The content of a list of actions.
pub open spec fn action_views(acts: Seq<Action>) -> Seq<ActionView> {
    Seq::new(acts.len(), |i: int| acts[i]@)
}

/// A replica of the protocol.
#[derive(Debug)]
pub struct Replica {
    pub id: ReplicaId,
    pub n: usize,
    pub f: usize,
    pub p: usize,
    pub slot: Slot,
    pub state: SlotState,
    pub parent_block: BlockHash,
    pub finalized_blocks: Vec<Block>,
    pub time: u64,
    pub block_tree: BlockMap,
}

/// The content of a [`Replica`].
#[verifier::ext_equal]
pub struct ReplicaView {
    pub id: ReplicaId,
    pub n: usize,
    pub f: usize,
    pub p: usize,
    pub slot: Slot,
    pub state: SlotStateView,
    pub parent_block: BlockHash,
    pub finalized_blocks: Seq<Block>,
    pub time: u64,
    pub block_tree: Map<BlockHash, Block>,
}

impl View for Replica {
    type V = ReplicaView;

    open spec fn view(&self) -> ReplicaView {
        ReplicaView {
            id: self.id,
            n: self.n,
            f: self.f,
            p: self.p,
            slot: self.slot,
            state: self.state@,
            parent_block: self.parent_block,
            finalized_blocks: self.finalized_blocks@,
            time: self.time,
            block_tree: self.block_tree@,
        }
    }
}

/// The fault bounds that the protocol needs: `n >= 3f + 2p + 1`.
pub open spec fn valid_params(n: int, f: int, p: int) -> bool {
    n >= 3 * f + 2 * p + 1
}

/// Whether `n`, `f` and `p` meet the fault bounds `n >= 3f + 2p + 1`.
pub fn params_valid(n: usize, f: usize, p: usize) -> (ok: bool)
    ensures
        ok == valid_params(n as int, f as int, p as int),
{
    let need: u128 = 3 * (f as u128) + 2 * (p as u128) + 1;
    need <= n as u128
}

/// Votes needed for a notarization or final certificate: `n - f - p`.
pub open spec fn spec_quorum(v: ReplicaView) -> int {
    v.n - v.f - v.p
}

/// Votes needed for a fast-final certificate: `n - p`.
pub open spec fn spec_fast_quorum(v: ReplicaView) -> int {
    v.n - v.p
}

/// Fragments needed to reconstruct a payload: `f + p + 1`.
pub open spec fn spec_k(v: ReplicaView) -> int {
    v.f + v.p + 1
}

/// `s` with `h` added, unless it holds `h` already.
pub open spec fn hash_insert(s: Seq<BlockHash>, h: BlockHash) -> Seq<BlockHash> {
    if s.contains(h) {
        s
    } else {
        s.push(h)
    }
}

/// The first votes after `from` voted for `h` (a second vote of `from` is not counted).
pub open spec fn first_vote_add(s: Seq<(ReplicaId, BlockHash)>, from: ReplicaId, h: BlockHash) -> Seq<(ReplicaId, BlockHash)> {
    if has_voter(s, from) {
        s
    } else {
        s.push((from, h))
    }
}

/// The hash of the timeout block of the replica's slot.
pub open spec fn timeout_hash(v: ReplicaView) -> BlockHash {
    block_hash_of(spec_timeout_block(v.slot))
}

/// A vote for the timeout block of the replica's slot.
pub open spec fn timeout_vote(v: ReplicaView) -> NotarVoteView {
    NotarVoteView { block: spec_timeout_block(v.slot), frag: None, proof: None, from: v.id }
}

/// Adds `h` to a list of distinct hashes; returns whether it was new.
pub fn insert_hash(v: &mut Vec<BlockHash>, h: BlockHash) -> (added: bool)
    requires
        no_duplicates(old(v)@),
    ensures
        no_duplicates(final(v)@),
        added == !old(v)@.contains(h),
        final(v)@ == hash_insert(old(v)@, h),
{
    if contains_hash(v, &h) {
        return false;
    }
    let ghost prev = v@;
    v.push(h);
    proof {
        assert forall|a: int, b: int| 0 <= a < b < v@.len() implies v@[a] != v@[b] by {
            if b == prev.len() {
                assert(prev[a] == v@[a]);
                assert(prev.contains(prev[a]));
            } else {
                assert(prev[a] == v@[a] && prev[b] == v@[b]);
            }
        }
    }
    true
}

/// A replica's state with its slot state replaced.
pub open spec fn with_state(v: ReplicaView, st: SlotStateView) -> ReplicaView {
    ReplicaView { state: st, ..v }
}

/// The replica after a block of its slot entered its block tree: the block
/// becomes the parent of the next slot, the slot is done, and the replica
/// votes to finalize the block when it notarized no other block.
pub open spec fn spec_on_block_in_block_tree(v: ReplicaView, block: Block) -> (ReplicaView, Seq<ActionView>) {
    if block.slot.0 != v.slot.0 || v.state.done {
        (v, Seq::empty())
    } else {
        let h = block_hash_of(block);
        let send_final = v.state.notarized.len() <= 1 && (v.state.notarized.len() == 0 || v.state.notarized.contains(h));
        let post = ReplicaView {
            parent_block: h,
            state: SlotStateView { done: true, ..v.state },
            block_tree: v.block_tree.insert(h, block),
            ..v
        };
        let fin = ActionView::BcastFinal(FinalVote { block_hash: h, slot: block.slot, from: v.id });
        if send_final {
            (post, seq![fin, ActionView::Done(h)])
        } else {
            (post, seq![ActionView::Done(h)])
        }
    }
}

/// The replica after a timeout certificate of its slot: the slot is done,
/// unless it was done or had a timeout certificate already.
pub open spec fn spec_on_timeout_cert(v: ReplicaView) -> ReplicaView {
    if v.state.done || v.state.timeout_cert is Some {
        v
    } else {
        with_state(v, SlotStateView { timeout_cert: Some(v.slot), done: true, ..v.state })
    }
}

/// The replica after its proposal timer fired: unless it voted already, it
/// votes for the timeout block.
pub open spec fn spec_on_timeout(v: ReplicaView) -> (ReplicaView, Seq<ActionView>) {
    if v.state.first_voted {
        (v, Seq::empty())
    } else {
        let th = timeout_hash(v);
        let st = SlotStateView {
            first_voted: true,
            first_votes: first_vote_add(v.state.first_votes, v.id, th),
            notarized: hash_insert(v.state.notarized, th),
            ..v.state
        };
        (with_state(v, st), seq![ActionView::BcastFirst(timeout_vote(v))])
    }
}

/// The replica after a final vote; the final certificate when the vote completes a quorum.
pub open spec fn spec_on_final_vote(v: ReplicaView, vote: FinalVote) -> (ReplicaView, Option<Cert>) {
    if vote.slot.0 != v.slot.0 {
        (v, None)
    } else {
        let pair = (vote.block_hash, vote.from);
        let fv = if v.state.final_votes.contains(pair) { v.state.final_votes } else { v.state.final_votes.push(pair) };
        if final_votes_for(fv, vote.block_hash) >= spec_quorum(v) && v.state.final_cert is None {
            (
                with_state(v, SlotStateView { final_votes: fv, final_cert: Some(vote.block_hash), ..v.state }),
                Some(Cert::Final(vote.block_hash, vote.slot)),
            )
        } else {
            (with_state(v, SlotStateView { final_votes: fv, ..v.state }), None)
        }
    }
}

/// The fast-final certificate for `h` when all but `p` replicas gave it their first vote.
pub open spec fn spec_check_fast_final(v: ReplicaView, h: BlockHash) -> (ReplicaView, Option<Cert>) {
    if votes_for(v.state.first_votes, h) >= spec_fast_quorum(v) && v.state.fast_final_cert is None {
        (with_state(v, SlotStateView { fast_final_cert: Some(h), ..v.state }), Some(Cert::FastFinal(h, v.slot)))
    } else {
        (v, None)
    }
}

/// The notarization certificate for `h` when a quorum gave it their first vote.
pub open spec fn spec_check_notar_cert(v: ReplicaView, h: BlockHash) -> (ReplicaView, Option<Cert>) {
    if votes_for(v.state.first_votes, h) >= spec_quorum(v) && !v.state.notar_certs.contains(h)
        && v.state.notar_certs.len() < 5 {
        (with_state(v, SlotStateView { notar_certs: v.state.notar_certs.push(h), ..v.state }), Some(Cert::Notar(h, v.slot)))
    } else {
        (v, None)
    }
}

/// The timeout certificate when a quorum gave the timeout block their first vote.
pub open spec fn spec_check_timeout_cert(v: ReplicaView) -> (ReplicaView, Option<Cert>) {
    if votes_for(v.state.first_votes, timeout_hash(v)) >= spec_quorum(v) && v.state.timeout_cert is None {
        (with_state(v, SlotStateView { timeout_cert: Some(v.slot), ..v.state }), Some(Cert::Timeout(v.slot)))
    } else {
        (v, None)
    }
}

/// The replica in the next slot, started at time `t`.
pub open spec fn spec_advance_slot(v: ReplicaView, t: u64) -> ReplicaView {
    ReplicaView { slot: Slot((v.slot.0 + 1) as u64), state: initial_slot_state(t), time: t, ..v }
}

/// The replica at time `t`: it times out when it has not voted and the
/// proposal timer expired.
pub open spec fn spec_tick(v: ReplicaView, t: u64) -> (ReplicaView, Seq<ActionView>) {
    let v1 = ReplicaView { time: t, ..v };
    if !v.state.first_voted && t > v.state.t_start + DELTA_TIMEOUT {
        spec_on_timeout(v1)
    } else {
        (v1, Seq::empty())
    }
}

/// The replica that `new` makes.
pub open spec fn spec_new_replica(id: ReplicaId, n: usize, f: usize, p: usize) -> ReplicaView {
    let gen = spec_timeout_block(Slot(0));
    ReplicaView {
        id,
        n,
        f,
        p,
        slot: Slot(1),
        state: initial_slot_state(0),
        parent_block: block_hash_of(gen),
        finalized_blocks: Seq::empty(),
        time: 0,
        block_tree: Map::empty().insert(block_hash_of(gen), gen),
    }
}

/// Every block is stored under its own hash.
pub open spec fn keyed_by_hash(m: Map<BlockHash, Block>) -> bool {
    forall|h: BlockHash| #[trigger] m.dom().contains(h) ==> block_hash_of(m[h]) == h
}

impl Replica {
    /// The replica's invariant.
    pub open spec fn wf(&self) -> bool {
        &&& valid_params(self.n as int, self.f as int, self.p as int)
        &&& self.id < self.n
        &&& self.state.wf(self.n)
        &&& self.block_tree.wf()
        &&& keyed_by_hash(self.state.blocks@)
        &&& keyed_by_hash(self.block_tree@)
    }

    /// A replica `id` of `n`, tolerating `f` Byzantine and `p` partitioned replicas.
    pub fn new(id: ReplicaId, n: usize, f: usize, p: usize) -> (r: Self)
        requires
            valid_params(n as int, f as int, p as int),
            id < n,
        ensures
            r.wf(),
            r@ == spec_new_replica(id, n, f, p),
    {
        let gen = genesis();
        let gen_hash = gen.hash();
        let mut block_tree = BlockMap::new();
        block_tree.insert(gen_hash, gen);
        let r = Replica {
            id,
            n,
            f,
            p,
            slot: Slot::new(1),
            state: SlotState::new(0),
            parent_block: gen_hash,
            finalized_blocks: Vec::new(),
            time: 0,
            block_tree,
        };
        assert(r@ =~= spec_new_replica(id, n, f, p));
        r
    }

    pub fn quorum(&self) -> (q: usize)
        requires
            self.wf(),
        ensures
            q == spec_quorum(self@),
    {
        self.n - self.f - self.p
    }

    pub fn fast_quorum(&self) -> (q: usize)
        requires
            self.wf(),
        ensures
            q == spec_fast_quorum(self@),
    {
        self.n - self.p
    }

    /// The reconstruction threshold.
    pub fn k(&self) -> (k: usize)
        requires
            self.wf(),
        ensures
            k == spec_k(self@),
    {
        self.f + self.p + 1
    }

    pub fn leader(&self, slot: Slot) -> (l: ReplicaId)
        requires
            self.wf(),
        ensures
            l == spec_leader_for_slot(slot, self.n),
            l < self.n,
    {
        leader_for_slot(slot, self.n)
    }

    pub fn is_leader(&self) -> (b: bool)
        requires
            self.wf(),
        ensures
            b == (spec_leader_for_slot(self.slot, self.n) == self.id),
    {
        self.leader(self.slot) == self.id
    }

    /// A block of this slot is in the block tree: finalize it.
    pub fn on_block_in_block_tree(&mut self, block: Block) -> (acts: Vec<Action>)
        requires
            old(self).wf(),
        ensures
            final(self).wf(),
            final(self)@ == spec_on_block_in_block_tree(old(self)@, block).0,
            action_views(acts@) == spec_on_block_in_block_tree(old(self)@, block).1,
    {
        let mut acts: Vec<Action> = Vec::new();
        if block.slot.0 != self.slot.0 || self.state.done {
            assert(action_views(acts@) =~= Seq::<ActionView>::empty());
            return acts;
        }
        let hash = block.hash();
        self.parent_block = hash;
        self.state.done = true;
        let none = self.state.notarized.len() == 0;
        if self.state.notarized.len() <= 1 && (none || contains_hash(&self.state.notarized, &hash)) {
            acts.push(Action::BcastFinal(FinalVote::new(&block, self.id)));
        }
        self.block_tree.insert(hash, block);
        acts.push(Action::Done(hash));
        assert(action_views(acts@) =~= spec_on_block_in_block_tree(old(self)@, block).1);
        assert(self@ =~= spec_on_block_in_block_tree(old(self)@, block).0);
        acts
    }

    /// A timeout certificate of this slot: the slot is done.
    pub fn on_timeout_cert(&mut self) -> (acts: Vec<Action>)
        requires
            old(self).wf(),
        ensures
            final(self).wf(),
            final(self)@ == spec_on_timeout_cert(old(self)@),
            acts@.len() == 0,
    {
        if self.state.done {
            return Vec::new();
        }
        if !self.state.cert_pool.add_timeout(self.slot) {
            assert(self@ =~= spec_on_timeout_cert(old(self)@));
            return Vec::new();
        }
        self.state.done = true;
        assert(self@ =~= spec_on_timeout_cert(old(self)@));
        Vec::new()
    }

    /// No proposal came: vote for the timeout block.
    pub fn on_timeout(&mut self) -> (acts: Vec<Action>)
        requires
            old(self).wf(),
        ensures
            final(self).wf(),
            final(self)@ == spec_on_timeout(old(self)@).0,
            action_views(acts@) == spec_on_timeout(old(self)@).1,
    {
        let mut acts: Vec<Action> = Vec::new();
        if self.state.first_voted {
            assert(action_views(acts@) =~= Seq::<ActionView>::empty());
            return acts;
        }
        self.state.first_voted = true;
        let tb = timeout_block(self.slot);
        let th = tb.hash();
        self.state.first_votes.add(self.id, th);
        acts.push(Action::BcastFirst(FirstVote::new(NotarVote::timeout(self.slot, self.id))));
        insert_hash(&mut self.state.notarized, th);
        assert(action_views(acts@) =~= spec_on_timeout(old(self)@).1);
        assert(self@ =~= spec_on_timeout(old(self)@).0);
        acts
    }

    /// A final vote: returns the final certificate when the vote completes a quorum.
    pub fn on_final_vote(&mut self, vote: &FinalVote) -> (cert: Option<Cert>)
        requires
            old(self).wf(),
        ensures
            final(self).wf(),
            final(self)@ == spec_on_final_vote(old(self)@, *vote).0,
            cert == spec_on_final_vote(old(self)@, *vote).1,
    {
        if vote.slot.0 != self.slot.0 {
            return None;
        }
        self.state.final_votes.add(vote.block_hash, vote.from);
        let q = self.quorum();
        if self.state.final_votes.count(&vote.block_hash) >= q {
            if self.state.cert_pool.add_final(vote.block_hash) {
                assert(self@ =~= spec_on_final_vote(old(self)@, *vote).0);
                return Some(Cert::Final(vote.block_hash, vote.slot));
            }
        }
        assert(self@ =~= spec_on_final_vote(old(self)@, *vote).0);
        None
    }

    pub fn check_fast_final(&mut self, hash: &BlockHash) -> (cert: Option<Cert>)
        requires
            old(self).wf(),
        ensures
            final(self).wf(),
            final(self)@ == spec_check_fast_final(old(self)@, *hash).0,
            cert == spec_check_fast_final(old(self)@, *hash).1,
    {
        let q = self.fast_quorum();
        if self.state.first_votes.count(hash) >= q {
            if self.state.cert_pool.add_fast_final(*hash) {
                assert(self@ =~= spec_check_fast_final(old(self)@, *hash).0);
                return Some(Cert::FastFinal(*hash, self.slot));
            }
        }
        assert(self@ =~= spec_check_fast_final(old(self)@, *hash).0);
        None
    }

    pub fn check_notar_cert(&mut self, hash: &BlockHash) -> (cert: Option<Cert>)
        requires
            old(self).wf(),
        ensures
            final(self).wf(),
            final(self)@ == spec_check_notar_cert(old(self)@, *hash).0,
            cert == spec_check_notar_cert(old(self)@, *hash).1,
    {
        let q = self.quorum();
        if self.state.first_votes.count(hash) >= q {
            if self.state.cert_pool.add_notar(*hash) {
                assert(self@ =~= spec_check_notar_cert(old(self)@, *hash).0);
                return Some(Cert::Notar(*hash, self.slot));
            }
        }
        assert(self@ =~= spec_check_notar_cert(old(self)@, *hash).0);
        None
    }

    pub fn check_timeout_cert(&mut self) -> (cert: Option<Cert>)
        requires
            old(self).wf(),
        ensures
            final(self).wf(),
            final(self)@ == spec_check_timeout_cert(old(self)@).0,
            cert == spec_check_timeout_cert(old(self)@).1,
    {
        let tb = timeout_block(self.slot);
        let th = tb.hash();
        let q = self.quorum();
        if self.state.first_votes.count(&th) >= q {
            if self.state.cert_pool.add_timeout(self.slot) {
                assert(self@ =~= spec_check_timeout_cert(old(self)@).0);
                return Some(Cert::Timeout(self.slot));
            }
        }
        assert(self@ =~= spec_check_timeout_cert(old(self)@).0);
        None
    }

    /// Moves to the next slot, started at time `t`.
    pub fn advance_slot(&mut self, t: u64)
        requires
            old(self).wf(),
            old(self).slot.0 < u64::MAX,
        ensures
            final(self).wf(),
            final(self)@ == spec_advance_slot(old(self)@, t),
    {
        self.slot = self.slot.next();
        self.state = SlotState::new(t);
        self.time = t;
        assert(self@ =~= spec_advance_slot(old(self)@, t));
    }

    /// The clock reads `t`: vote for the timeout block when no proposal came in time.
    pub fn tick(&mut self, t: u64) -> (acts: Vec<Action>)
        requires
            old(self).wf(),
            old(self).state.t_start + DELTA_TIMEOUT <= u64::MAX,
        ensures
            final(self).wf(),
            final(self)@ == spec_tick(old(self)@, t).0,
            action_views(acts@) == spec_tick(old(self)@, t).1,
    {
        self.time = t;
        if !self.state.first_voted && t > self.state.t_start + DELTA_TIMEOUT {
            return self.on_timeout();
        }
        let acts: Vec<Action> = Vec::new();
        assert(action_views(acts@) =~= Seq::<ActionView>::empty());
        assert(self@ =~= spec_tick(old(self)@, t).0);
        acts
    }
}

/// Whether the proof of a proposal shows its fragment committed to by the block's root.
pub open spec fn proposal_verifies(prop: BlockPropView) -> bool {
    merkle_verifies(prop.proof.hashes, prop.block.tag.root, prop.proof.idx, merkle_leaf_hash(prop.frag), prop.proof.leaves)
}

/// The replica after a proposal from `from`: when it has not voted yet, the
/// proposal is for its slot, comes from the slot's leader and its fragment is
/// committed to by the block, the replica stores block and fragment and gives
/// the block its first vote.
pub open spec fn spec_on_proposal(v: ReplicaView, prop: BlockPropView, from: ReplicaId) -> (ReplicaView, Seq<ActionView>) {
    if v.state.first_voted || prop.block.slot.0 != v.slot.0 || from != spec_leader_for_slot(v.slot, v.n)
        || !proposal_verifies(prop) {
        (v, Seq::empty())
    } else {
        let h = block_hash_of(prop.block);
        let st = SlotStateView {
            first_voted: true,
            blocks: v.state.blocks.insert(h, prop.block),
            fragments: store_insert(v.state.fragments, FragEntry { hash: h, from: v.id, frag: prop.frag, proof: prop.proof }),
            first_votes: first_vote_add(v.state.first_votes, v.id, h),
            notarized: hash_insert(v.state.notarized, h),
            ..v.state
        };
        let vote = NotarVoteView { block: prop.block, frag: Some(prop.frag), proof: Some(prop.proof), from: v.id };
        (with_state(v, st), seq![ActionView::BcastFirst(vote)])
    }
}

/// The block that the leader proposes for `payload`.
pub open spec fn proposed_block(v: ReplicaView, payload: Seq<u8>) -> Block {
    let frags = encoded_fragments(payload, v.n as nat, spec_k(v) as nat);
    Block {
        slot: v.slot,
        tag: Tag { len: payload.len() as usize, root: spec_merkle_root(frags) },
        parent_hash: v.parent_block,
    }
}

/// The leader's proposal: an error when the replica is not the slot's leader
/// or proposed already; otherwise the payload is encoded, the block stored,
/// each replica sent its fragment, and the leader gives its block its first
/// vote. An encoding error comes after the replica marked itself as having
/// proposed and voted.
pub open spec fn spec_propose(v: ReplicaView, payload: Seq<u8>) -> (ReplicaView, Result<Seq<ActionView>, Seq<char>>) {
    if spec_leader_for_slot(v.slot, v.n) != v.id {
        (v, Err("not leader"@))
    } else if v.state.proposed {
        (v, Err("already proposed"@))
    } else {
        let n = v.n as nat;
        let k = spec_k(v) as nat;
        let v1 = with_state(v, SlotStateView { proposed: true, first_voted: true, ..v.state });
        match rs_encode_error(k as usize, (n - k) as usize, unencoded_shards(payload, n, k)) {
            Some(e) => (v1, Err(e)),
            None => {
                let frags = encoded_fragments(payload, n, k);
                let block = proposed_block(v, payload);
                let h = block_hash_of(block);
                let mine = FragEntry { hash: h, from: v.id, frag: frags[v.id as int], proof: spec_merkle_proof(frags, v.id as int) };
                let st = SlotStateView {
                    blocks: v1.state.blocks.insert(h, block),
                    first_votes: first_vote_add(v1.state.first_votes, v.id, h),
                    notarized: hash_insert(v1.state.notarized, h),
                    fragments: store_insert(v1.state.fragments, mine),
                    ..v1.state
                };
                let sends = Seq::new(
                    n,
                    |i: int|
                        ActionView::Send(
                            i as ReplicaId,
                            BlockPropView { block, frag: frags[i], proof: spec_merkle_proof(frags, i) },
                        ),
                );
                let vote = NotarVoteView {
                    block,
                    frag: Some(frags[v.id as int]),
                    proof: Some(spec_merkle_proof(frags, v.id as int)),
                    from: v.id,
                };
                (
                    ReplicaView { state: st, block_tree: v.block_tree.insert(h, block), ..v1 },
                    Ok(sends.push(ActionView::BcastFirst(vote))),
                )
            },
        }
    }
}

impl Replica {
    /// A proposal from `from`.
    pub fn on_proposal(&mut self, prop: BlockProp, from: ReplicaId) -> (acts: Vec<Action>)
        requires
            old(self).wf(),
        ensures
            final(self).wf(),
            final(self)@ == spec_on_proposal(old(self)@, prop@, from).0,
            action_views(acts@) == spec_on_proposal(old(self)@, prop@, from).1,
    {
        let mut acts: Vec<Action> = Vec::new();
        if self.state.first_voted || prop.block.slot.0 != self.slot.0 {
            assert(action_views(acts@) =~= Seq::<ActionView>::empty());
            return acts;
        }
        if from != self.leader(self.slot) {
            assert(action_views(acts@) =~= Seq::<ActionView>::empty());
            return acts;
        }
        if !crypto::verify_proof(&prop.block.tag.root, &prop.frag, &prop.proof) {
            assert(action_views(acts@) =~= Seq::<ActionView>::empty());
            return acts;
        }
        let ghost pv = prop@;
        let hash = prop.block.hash();
        self.state.first_voted = true;
        self.state.blocks.insert(hash, prop.block);
        self.state.fragments.add(hash, self.id, prop.frag.clone(), prop.proof.clone());
        self.state.first_votes.add(self.id, hash);
        let block = prop.block;
        acts.push(Action::BcastFirst(FirstVote::new(NotarVote::new(&block, prop.frag, prop.proof, self.id))));
        insert_hash(&mut self.state.notarized, hash);
        assert(action_views(acts@) =~= spec_on_proposal(old(self)@, pv, from).1);
        assert(self@ =~= spec_on_proposal(old(self)@, pv, from).0);
        acts
    }

    /// The leader encodes `payload`, commits to its fragments and proposes the block.
    pub fn propose(&mut self, payload: &[u8]) -> (r: Result<Vec<Action>, String>)
        requires
            old(self).wf(),
            payload@.len() + spec_k(old(self)@) <= usize::MAX,
        ensures
            final(self).wf(),
            final(self)@ == spec_propose(old(self)@, payload@).0,
            match spec_propose(old(self)@, payload@).1 {
                Ok(a) => r matches Ok(acts) && action_views(acts@) == a,
                Err(e) => r matches Err(m) && m@ == e,
            },
    {
        if !self.is_leader() {
            return Err("not leader".to_owned());
        }
        if self.state.proposed {
            return Err("already proposed".to_owned());
        }
        self.state.proposed = true;
        self.state.first_voted = true;
        let k = self.k();
        let ghost v1 = self@;
        let frags = match crypto::encode(payload, self.n, k) {
            Ok(f) => f,
            Err(e) => {
                assert(self@ =~= spec_propose(old(self)@, payload@).0);
                return Err(e);
            },
        };
        let ghost fv = crypto::fragment_views(frags@);
        assert(fv == encoded_fragments(payload@, self.n as nat, k as nat));
        let (root, proofs) = crypto::merkle_tree(frags.as_slice());
        let tag = Tag { len: payload.len(), root };
        let block = Block::new(self.slot, tag, self.parent_block);
        assert(block == proposed_block(old(self)@, payload@));
        let hash = block.hash();
        self.state.blocks.insert(hash, block);
        self.block_tree.insert(hash, block);
        self.state.first_votes.add(self.id, hash);
        insert_hash(&mut self.state.notarized, hash);
        let id = self.id;
        assert(frags@[id as int]@ == fv[id as int]);
        self.state.fragments.add(hash, id, frags[id].clone(), proofs[id].clone());
        let ghost sends = Seq::new(
            self.n as nat,
            |i: int|
                ActionView::Send(
                    i as ReplicaId,
                    BlockPropView { block, frag: fv[i], proof: spec_merkle_proof(fv, i) },
                ),
        );
        let mut acts: Vec<Action> = Vec::new();
        let mut i: usize = 0;
        while i < frags.len()
            invariant
                frags@.len() == self.n,
                proofs@.len() == self.n,
                fv == crypto::fragment_views(frags@),
                forall|j: int| 0 <= j < frags@.len() ==> #[trigger] proofs@[j]@ == spec_merkle_proof(fv, j),
                0 <= i <= frags@.len(),
                sends == Seq::new(
                    self.n as nat,
                    |x: int|
                        ActionView::Send(
                            x as ReplicaId,
                            BlockPropView { block, frag: fv[x], proof: spec_merkle_proof(fv, x) },
                        ),
                ),
                action_views(acts@) == sends.take(i as int),
            decreases frags@.len() - i,
        {
            let prop = BlockProp { block, frag: frags[i].clone(), proof: proofs[i].clone() };
            let ghost prev = acts@;
            assert(action_views(prev).len() == prev.len());
            acts.push(Action::Send(i, prop));
            assert(action_views(acts@) =~= sends.take(i + 1)) by {
                assert forall|x: int| 0 <= x < i + 1 implies #[trigger] action_views(acts@)[x] == sends.take(i + 1)[x] by {
                    if x < i {
                        assert(acts@[x] == prev[x]);
                        assert(action_views(prev)[x] == sends.take(i as int)[x]);
                    } else {
                        assert(fv[x] == frags@[x]@);
                    }
                }
            }
            i = i + 1;
        }
        let vote = NotarVote::new(&block, frags[id].clone(), proofs[id].clone(), id);
        acts.push(Action::BcastFirst(FirstVote::new(vote)));
        assert(sends.take(self.n as int) =~= sends);
        assert(action_views(acts@) =~= spec_propose(old(self)@, payload@).1->Ok_0);
        assert(self@ =~= spec_propose(old(self)@, payload@).0);
        Ok(acts)
    }
}

/// The shards that reconstruction starts from: for each of the `n` replicas,
/// the fragment it sent when its proof shows the fragment committed to by
/// `root`. A fragment from a sender outside `0..n` has no shard and is left out.
pub open spec fn verified_input(entries: Seq<(ReplicaId, Seq<u8>, ProofView)>, root: [u8; 32], n: nat) -> Seq<Option<Seq<u8>>>
    decreases entries.len(),
{
    if entries.len() == 0 {
        Seq::new(n, |i: int| None)
    } else {
        let prev = verified_input(entries.drop_last(), root, n);
        let e = entries.last();
        if merkle_verifies(e.2.hashes, root, e.2.idx, merkle_leaf_hash(e.1), e.2.leaves) && e.0 < n {
            prev.update(e.0 as int, Some(e.1))
        } else {
            prev
        }
    }
}

/// The payload of block `h` reconstructed from the fragments received, when
/// the block is known, at least `k` fragments came and reconstruction succeeds.
pub open spec fn spec_try_reconstruct(v: ReplicaView, h: BlockHash) -> Option<Seq<u8>> {
    if !v.state.blocks.dom().contains(h) {
        None
    } else {
        let block = v.state.blocks[h];
        let entries = frags_for(v.state.fragments, h);
        let n = v.n as nat;
        let k = spec_k(v) as nat;
        if entries.len() < k {
            None
        } else {
            let input = verified_input(entries, block.tag.root, n);
            if rs_reconstruct_error(k as usize, (n - k) as usize, input) is Some {
                None
            } else {
                Some(spec_decoded(input, block.tag.len as nat, n, k))
            }
        }
    }
}

/// The replica after voting to notarize the timeout block, unless it did already.
pub open spec fn spec_send_timeout_vote(v: ReplicaView) -> (ReplicaView, Seq<ActionView>) {
    let th = timeout_hash(v);
    if v.state.notarized.contains(th) {
        (v, Seq::empty())
    } else {
        (with_state(v, SlotStateView { notarized: v.state.notarized.push(th), ..v.state }), seq![ActionView::BcastNotar(timeout_vote(v))])
    }
}

/// The fragment and proof stored from replica `r`, the last one found.
pub open spec fn entry_of(s: Seq<(ReplicaId, Seq<u8>, ProofView)>, r: ReplicaId) -> Option<(Seq<u8>, ProofView)>
    decreases s.len(),
{
    if s.len() == 0 {
        None
    } else if s.last().0 == r {
        Some((s.last().1, s.last().2))
    } else {
        entry_of(s.drop_last(), r)
    }
}

/// The replica's own fragment of block `h` with its proof: the one it stored,
/// or else the one that re-encoding the payload gives (`None` when encoding fails).
pub open spec fn own_fragment(v: ReplicaView, h: BlockHash, payload: Seq<u8>) -> Option<(Seq<u8>, ProofView)> {
    match entry_of(frags_for(v.state.fragments, h), v.id) {
        Some(e) => Some(e),
        None => {
            let n = v.n as nat;
            let k = spec_k(v) as nat;
            if payload.len() + k > usize::MAX {
                None
            } else if rs_encode_error(k as usize, (n - k) as usize, unencoded_shards(payload, n, k)) is Some {
                None
            } else {
                let frags = encoded_fragments(payload, n, k);
                Some((frags[v.id as int], spec_merkle_proof(frags, v.id as int)))
            }
        },
    }
}

/// The replica after trying to reconstruct block `h`: when that fails it votes
/// to notarize the timeout block; when it succeeds the block gets a
/// notarization certificate, enters the block tree, and the replica votes to
/// notarize it (with its own fragment) unless it did already.
pub open spec fn spec_try_reconstruct_and_notarize(v: ReplicaView, h: BlockHash) -> (ReplicaView, Seq<ActionView>) {
    match spec_try_reconstruct(v, h) {
        None => spec_send_timeout_vote(v),
        Some(payload) => {
            let block = v.state.blocks[h];
            let nc = if !v.state.notar_certs.contains(h) && v.state.notar_certs.len() < 5 {
                v.state.notar_certs.push(h)
            } else {
                v.state.notar_certs
            };
            let v1 = ReplicaView {
                state: SlotStateView { notar_certs: nc, ..v.state },
                block_tree: v.block_tree.insert(h, block),
                ..v
            };
            if v1.state.notarized.contains(h) {
                (v1, Seq::empty())
            } else {
                match own_fragment(v, h, payload) {
                    None => spec_send_timeout_vote(v1),
                    Some(mine) => {
                        let vote = NotarVoteView { block, frag: Some(mine.0), proof: Some(mine.1), from: v.id };
                        (
                            with_state(v1, SlotStateView { notarized: v1.state.notarized.push(h), ..v1.state }),
                            seq![ActionView::BcastNotar(vote)],
                        )
                    },
                }
            }
        },
    }
}

/// The replica after checking whether block `h` has enough first votes to be
/// reconstructed (once, after the replica voted, when its parent is in the block tree).
pub open spec fn spec_check_enough_votes(v: ReplicaView, h: BlockHash) -> (ReplicaView, Seq<ActionView>) {
    if !v.state.first_voted || v.state.second_look.contains(h) || votes_for(v.state.first_votes, h) < spec_k(v) {
        (v, Seq::empty())
    } else if !(v.state.blocks.dom().contains(h) && v.block_tree.dom().contains(v.state.blocks[h].parent_hash)) {
        (v, Seq::empty())
    } else {
        spec_try_reconstruct_and_notarize(
            with_state(v, SlotStateView { second_look: v.state.second_look.push(h), ..v.state }),
            h,
        )
    }
}

/// `a - b`, or 0 when `b` is larger.
pub open spec fn saturating_sub(a: int, b: int) -> int {
    if a >= b {
        a - b
    } else {
        0
    }
}

/// The replica after checking whether the first votes are spread so widely
/// that no block can be notarized: then it votes to notarize the timeout block.
pub open spec fn spec_check_timeout_votes(v: ReplicaView) -> (ReplicaView, Seq<ActionView>) {
    if !v.state.first_voted {
        (v, Seq::empty())
    } else if saturating_sub(v.state.first_votes.len() as int, spec_max_votes(v.state.first_votes) as int) < spec_k(v) {
        (v, Seq::empty())
    } else {
        spec_send_timeout_vote(v)
    }
}

/// The replica after the first vote `vote` of replica `from`.
pub open spec fn spec_on_first_vote(v: ReplicaView, vote: NotarVoteView, from: ReplicaId) -> (ReplicaView, Seq<ActionView>) {
    if vote.block.slot.0 != v.slot.0 || has_voter(v.state.first_votes, from) {
        (v, Seq::empty())
    } else {
        let h = block_hash_of(vote.block);
        let is_to = spec_is_timeout(vote.block);
        if !is_to && (v.state.notar_votes.contains((from, h)) || votes_from(v.state.notar_votes, from) >= 3) {
            (v, Seq::empty())
        } else {
            let nv = if is_to { v.state.notar_votes } else { v.state.notar_votes.push((from, h)) };
            let blocks = if is_to || v.state.blocks.dom().contains(h) {
                v.state.blocks
            } else {
                v.state.blocks.insert(h, vote.block)
            };
            let frags = match (vote.frag, vote.proof) {
                (Some(f), Some(p)) => store_insert(v.state.fragments, FragEntry { hash: h, from, frag: f, proof: p }),
                _ => v.state.fragments,
            };
            let v1 = with_state(
                v,
                SlotStateView {
                    notar_votes: nv,
                    blocks,
                    first_votes: v.state.first_votes.push((from, h)),
                    fragments: frags,
                    ..v.state
                },
            );
            let (v2, a1) = spec_check_enough_votes(v1, h);
            let (v3, a2) = spec_check_timeout_votes(v2);
            (v3, a1 + a2)
        }
    }
}

impl Replica {
    fn try_reconstruct(&self, hash: &BlockHash) -> (r: Option<Vec<u8>>)
        requires
            self.wf(),
        ensures
            match spec_try_reconstruct(self@, *hash) {
                Some(x) => r matches Some(p) && p@ == x,
                None => r is None,
            },
    {
        let block = match self.state.blocks.get(hash) {
            Some(b) => b,
            None => {
                return None;
            },
        };
        let k = self.k();
        let frags = match self.state.fragments.get(hash) {
            Some(f) => f,
            None => {
                return None;
            },
        };
        if frags.len() < k {
            return None;
        }
        let n = self.n;
        let ghost entries = frags_for(self.state.fragments@, *hash);
        let mut arr: Vec<Option<Fragment>> = Vec::new();
        let mut i: usize = 0;
        while i < n
            invariant
                0 <= i <= n,
                crypto::opt_fragment_views(arr@) == Seq::new(i as nat, |x: int| None::<Seq<u8>>),
            decreases n - i,
        {
            let ghost prev = arr@;
            assert(crypto::opt_fragment_views(prev).len() == prev.len());
            arr.push(None);
            assert(crypto::opt_fragment_views(arr@) =~= Seq::new((i + 1) as nat, |x: int| None::<Seq<u8>>)) by {
                assert forall|x: int| 0 <= x < i + 1 implies #[trigger] crypto::opt_fragment_views(arr@)[x] == None::<Seq<u8>> by {
                    if x < i {
                        assert(arr@[x] == prev[x]);
                        assert(crypto::opt_fragment_views(prev)[x] == None::<Seq<u8>>);
                    }
                }
            }
            i = i + 1;
        }
        assert(crypto::opt_fragment_views(arr@) =~= verified_input(entries.take(0), block.tag.root, n as nat));
        let mut j: usize = 0;
        while j < frags.len()
            invariant
                0 <= j <= frags@.len(),
                crate::voting::triple_views(frags@) == entries,
                arr@.len() == n,
                crypto::opt_fragment_views(arr@) == verified_input(entries.take(j as int), block.tag.root, n as nat),
            decreases frags@.len() - j,
        {
            assert(entries.take(j + 1).drop_last() =~= entries.take(j as int));
            assert(entries[j as int] == (frags@[j as int].0, frags@[j as int].1@, frags@[j as int].2@));
            let rid = frags[j].0;
            if rid < n && crypto::verify_proof(&block.tag.root, &frags[j].1, &frags[j].2) {
                let f = frags[j].1.clone();
                arr.set(rid, Some(f));
                assert(crypto::opt_fragment_views(arr@) =~= verified_input(entries.take(j + 1), block.tag.root, n as nat));
            } else {
                assert(crypto::opt_fragment_views(arr@) =~= verified_input(entries.take(j + 1), block.tag.root, n as nat));
            }
            j = j + 1;
        }
        assert(entries.take(frags@.len() as int) =~= entries);
        match crypto::decode(arr.as_slice(), block.tag.len, n, k) {
            Ok(p) => Some(p),
            Err(_) => None,
        }
    }

    fn send_timeout_vote(&mut self) -> (acts: Vec<Action>)
        requires
            old(self).wf(),
        ensures
            final(self).wf(),
            final(self)@ == spec_send_timeout_vote(old(self)@).0,
            action_views(acts@) == spec_send_timeout_vote(old(self)@).1,
    {
        let mut acts: Vec<Action> = Vec::new();
        let tb = timeout_block(self.slot);
        let th = tb.hash();
        if !contains_hash(&self.state.notarized, &th) {
            acts.push(Action::BcastNotar(NotarVote::timeout(self.slot, self.id)));
            insert_hash(&mut self.state.notarized, th);
        }
        assert(action_views(acts@) =~= spec_send_timeout_vote(old(self)@).1);
        assert(self@ =~= spec_send_timeout_vote(old(self)@).0);
        acts
    }

    /// Looks up the fragment that replica `r` sent for block `hash`.
    fn stored_fragment(&self, hash: &BlockHash, r: ReplicaId) -> (out: Option<(Fragment, Proof)>)
        ensures
            match entry_of(frags_for(self.state.fragments@, *hash), r) {
                Some(e) => out matches Some(x) && x.0@ == e.0 && x.1@ == e.1,
                None => out is None,
            },
    {
        let frags = match self.state.fragments.get(hash) {
            Some(f) => f,
            None => {
                return None;
            },
        };
        let ghost entries = frags_for(self.state.fragments@, *hash);
        assert(crate::voting::triple_views(frags@).len() == frags@.len());
        assert(entries.take(frags@.len() as int) =~= entries);
        let mut i: usize = frags.len();
        while i > 0
            invariant
                0 <= i <= frags@.len(),
                crate::voting::triple_views(frags@) == entries,
                entries == frags_for(self.state.fragments@, *hash),
                entry_of(entries, r) == entry_of(entries.take(i as int), r),
            decreases i,
        {
            assert(entries.take(i as int).drop_last() =~= entries.take(i - 1));
            assert(entries.take(i as int).last() == (frags@[i - 1].0, frags@[i - 1].1@, frags@[i - 1].2@));
            if frags[i - 1].0 == r {
                return Some((frags[i - 1].1.clone(), frags[i - 1].2.clone()));
            }
            i = i - 1;
        }
        None
    }

    /// Reconstructs block `hash` from its fragments and votes to notarize it.
    pub fn try_reconstruct_and_notarize(&mut self, hash: &BlockHash) -> (acts: Vec<Action>)
        requires
            old(self).wf(),
        ensures
            final(self).wf(),
            final(self)@ == spec_try_reconstruct_and_notarize(old(self)@, *hash).0,
            action_views(acts@) == spec_try_reconstruct_and_notarize(old(self)@, *hash).1,
    {
        let payload = match self.try_reconstruct(hash) {
            Some(p) => p,
            None => {
                return self.send_timeout_vote();
            },
        };
        let mut acts: Vec<Action> = Vec::new();
        let block = match self.state.blocks.get(hash) {
            Some(b) => b,
            None => {
                assert(false);
                return acts;
            },
        };
        self.state.cert_pool.add_notar(*hash);
        self.block_tree.insert(*hash, block);
        if !contains_hash(&self.state.notarized, hash) {
            let mine = match self.stored_fragment(hash, self.id) {
                Some(x) => x,
                None => {
                    let k = self.k();
                    if payload.len() > usize::MAX - k {
                        return self.send_timeout_vote();
                    }
                    match crypto::encode(payload.as_slice(), self.n, k) {
                        Ok(all_frags) => {
                            let (_, all_proofs) = crypto::merkle_tree(all_frags.as_slice());
                            (all_frags[self.id].clone(), all_proofs[self.id].clone())
                        },
                        Err(_) => {
                            return self.send_timeout_vote();
                        },
                    }
                },
            };
            acts.push(Action::BcastNotar(NotarVote::new(&block, mine.0, mine.1, self.id)));
            insert_hash(&mut self.state.notarized, *hash);
        }
        assert(action_views(acts@) =~= spec_try_reconstruct_and_notarize(old(self)@, *hash).1);
        assert(self@ =~= spec_try_reconstruct_and_notarize(old(self)@, *hash).0);
        acts
    }

    fn check_enough_votes(&mut self, hash: &BlockHash) -> (acts: Vec<Action>)
        requires
            old(self).wf(),
        ensures
            final(self).wf(),
            final(self)@ == spec_check_enough_votes(old(self)@, *hash).0,
            action_views(acts@) == spec_check_enough_votes(old(self)@, *hash).1,
    {
        let none: Vec<Action> = Vec::new();
        assert(action_views(none@) =~= Seq::<ActionView>::empty());
        if !self.state.first_voted {
            return none;
        }
        if contains_hash(&self.state.second_look, hash) {
            return none;
        }
        let k = self.k();
        if self.state.first_votes.count(hash) < k {
            return none;
        }
        let parent_ok = match self.state.blocks.get(hash) {
            Some(block) => self.block_tree.contains_key(&block.parent_hash),
            None => false,
        };
        if !parent_ok {
            return none;
        }
        insert_hash(&mut self.state.second_look, *hash);
        assert(self@ =~= with_state(old(self)@, SlotStateView { second_look: old(self)@.state.second_look.push(*hash), ..old(self)@.state }));
        self.try_reconstruct_and_notarize(hash)
    }

    fn check_timeout_votes(&mut self) -> (acts: Vec<Action>)
        requires
            old(self).wf(),
        ensures
            final(self).wf(),
            final(self)@ == spec_check_timeout_votes(old(self)@).0,
            action_views(acts@) == spec_check_timeout_votes(old(self)@).1,
    {
        let none: Vec<Action> = Vec::new();
        assert(action_views(none@) =~= Seq::<ActionView>::empty());
        if !self.state.first_voted {
            return none;
        }
        let all = self.state.first_votes.all_votes();
        let max = self.state.first_votes.max_votes();
        if all.saturating_sub(max) < self.k() {
            return none;
        }
        self.send_timeout_vote()
    }

    /// The first vote of replica `from`.
    pub fn on_first_vote(&mut self, vote: &FirstVote, from: ReplicaId) -> (acts: Vec<Action>)
        requires
            old(self).wf(),
        ensures
            final(self).wf(),
            final(self)@ == spec_on_first_vote(old(self)@, vote@, from).0,
            action_views(acts@) == spec_on_first_vote(old(self)@, vote@, from).1,
    {
        let mut acts: Vec<Action> = Vec::new();
        if vote.notar.slot().0 != self.slot.0 || self.state.first_votes.has_voted(from) {
            assert(action_views(acts@) =~= Seq::<ActionView>::empty());
            return acts;
        }
        let hash = vote.block_hash();
        let is_to = vote.is_timeout();
        if !is_to && !self.state.notar_votes.add(from, hash) {
            assert(action_views(acts@) =~= Seq::<ActionView>::empty());
            return acts;
        }
        if !is_to {
            self.state.blocks.insert_if_absent(hash, *vote.block());
        }
        self.state.first_votes.add(from, hash);
        match (&vote.notar.frag, &vote.notar.proof) {
            (Some(frag), Some(proof)) => {
                self.state.fragments.add(hash, from, frag.clone(), proof.clone());
            },
            _ => {},
        }
        let ghost v1 = self@;
        assert(v1 =~= spec_on_first_vote_recorded(old(self)@, vote@, from));
        let a1 = self.check_enough_votes(&hash);
        let a2 = self.check_timeout_votes();
        let mut out = a1;
        let ghost p1 = out@;
        let mut a2m = a2;
        out.append(&mut a2m);
        assert(action_views(out@) =~= action_views(p1) + action_views(a2@));
        out
    }
}

/// The replica after recording the first vote of `from` (before it checks for
/// reconstruction and timeout).
pub open spec fn spec_on_first_vote_recorded(v: ReplicaView, vote: NotarVoteView, from: ReplicaId) -> ReplicaView {
    let h = block_hash_of(vote.block);
    let is_to = spec_is_timeout(vote.block);
    let nv = if is_to { v.state.notar_votes } else { v.state.notar_votes.push((from, h)) };
    let blocks = if is_to || v.state.blocks.dom().contains(h) {
        v.state.blocks
    } else {
        v.state.blocks.insert(h, vote.block)
    };
    let frags = match (vote.frag, vote.proof) {
        (Some(f), Some(p)) => store_insert(v.state.fragments, FragEntry { hash: h, from, frag: f, proof: p }),
        _ => v.state.fragments,
    };
    with_state(
        v,
        SlotStateView { notar_votes: nv, blocks, first_votes: v.state.first_votes.push((from, h)), fragments: frags, ..v.state },
    )
}

/// Whether a block with hash `h` is finalized.
pub open spec fn finalized_has(fin: Seq<Block>, h: BlockHash) -> bool {
    exists|i: int| 0 <= i < fin.len() && block_hash_of(#[trigger] fin[i]) == h
}

/// The walk from block `cur` back through its ancestors in `tree`, newest
/// first: it stops before a block that is missing or finalized, after
/// genesis (slot 0), or after `fuel` blocks.
pub open spec fn ancestor_walk(tree: Map<BlockHash, Block>, fin: Seq<Block>, cur: BlockHash, fuel: nat) -> Seq<Block>
    decreases fuel,
{
    if fuel == 0 || !tree.dom().contains(cur) || finalized_has(fin, cur) {
        Seq::empty()
    } else {
        let b = tree[cur];
        if b.slot.0 == 0 {
            seq![b]
        } else {
            seq![b] + ancestor_walk(tree, fin, b.parent_hash, (fuel - 1) as nat)
        }
    }
}

/// `fin` with the blocks of `bs` appended in order, each unless a block with
/// its hash is there already.
pub open spec fn append_unfinalized(fin: Seq<Block>, bs: Seq<Block>) -> Seq<Block>
    decreases bs.len(),
{
    if bs.len() == 0 {
        fin
    } else {
        let f2 = append_unfinalized(fin, bs.drop_last());
        if finalized_has(f2, block_hash_of(bs.last())) {
            f2
        } else {
            f2.push(bs.last())
        }
    }
}

/// The blocks that finalizing `h` finalizes, oldest first: `h` and its
/// ancestors that are not finalized yet. The walk is cut after as many
/// blocks as the block tree holds: a longer one would repeat a block and
/// never end.
pub open spec fn finalization_chain(v: ReplicaView, h: BlockHash) -> Seq<Block> {
    ancestor_walk(v.block_tree, v.finalized_blocks, h, v.block_tree.dom().len()).reverse()
}

/// The replica after finalizing `h` with its predecessors.
pub open spec fn spec_finalize_with_predecessors(v: ReplicaView, h: BlockHash) -> ReplicaView {
    ReplicaView { finalized_blocks: append_unfinalized(v.finalized_blocks, finalization_chain(v, h)), ..v }
}

impl Replica {
    fn is_finalized(&self, h: &BlockHash) -> (found: bool)
        ensures
            found == finalized_has(self.finalized_blocks@, *h),
    {
        let mut i: usize = 0;
        while i < self.finalized_blocks.len()
            invariant
                0 <= i <= self.finalized_blocks@.len(),
                forall|j: int| 0 <= j < i ==> block_hash_of(#[trigger] self.finalized_blocks@[j]) != *h,
            decreases self.finalized_blocks@.len() - i,
        {
            if self.finalized_blocks[i].hash().same(h) {
                return true;
            }
            i = i + 1;
        }
        false
    }

    /// Finalizes block `hash` and its ancestors that are not finalized yet;
    /// returns them, oldest first.
    pub fn finalize_with_predecessors(&mut self, hash: &BlockHash) -> (chain: Vec<Block>)
        requires
            old(self).wf(),
        ensures
            final(self).wf(),
            final(self)@ == spec_finalize_with_predecessors(old(self)@, *hash),
            chain@ == finalization_chain(old(self)@, *hash),
    {
        let bound = self.block_tree.len();
        let ghost tree = self.block_tree@;
        let ghost fin = self.finalized_blocks@;
        let ghost full = ancestor_walk(tree, fin, *hash, bound as nat);
        let mut walk: Vec<Block> = Vec::new();
        let mut current = *hash;
        let mut going = true;
        while going && walk.len() < bound
            invariant
                self.wf(),
                tree == self.block_tree@,
                fin == self.finalized_blocks@,
                full == ancestor_walk(tree, fin, *hash, bound as nat),
                walk@.len() <= bound,
                going ==> full == walk@ + ancestor_walk(tree, fin, current, (bound - walk@.len()) as nat),
                !going ==> full == walk@,
            decreases bound - walk@.len(), if going { 1int } else { 0int },
        {
            match self.block_tree.get(&current) {
                None => {
                    going = false;
                    assert(walk@ + Seq::<Block>::empty() =~= walk@);
                },
                Some(b) => {
                    if self.is_finalized(&current) {
                        going = false;
                        assert(walk@ + Seq::<Block>::empty() =~= walk@);
                    } else {
                        let ghost before = walk@;
                        let ghost fuel = (bound - walk@.len()) as nat;
                        walk.push(b);
                        if b.slot.0 == 0 {
                            going = false;
                            assert(full =~= before + seq![b]);
                        } else {
                            assert(ancestor_walk(tree, fin, current, fuel) == seq![b] + ancestor_walk(
                                tree,
                                fin,
                                b.parent_hash,
                                (fuel - 1) as nat,
                            ));
                            current = b.parent_hash;
                            assert(before + (seq![b] + ancestor_walk(tree, fin, current, (fuel - 1) as nat)) =~= walk@
                                + ancestor_walk(tree, fin, current, (bound - walk@.len()) as nat));
                        }
                    }
                },
            }
        }
        if going {
            assert(walk@ + Seq::<Block>::empty() =~= walk@);
        }
        assert(walk@ == full);
        let mut chain: Vec<Block> = Vec::new();
        let mut i: usize = walk.len();
        while i > 0
            invariant
                0 <= i <= walk@.len(),
                chain@ == walk@.reverse().take((walk@.len() - i) as int),
            decreases i,
        {
            chain.push(walk[i - 1]);
            assert(chain@ =~= walk@.reverse().take((walk@.len() - i + 1) as int));
            i = i - 1;
        }
        assert(chain@ =~= walk@.reverse());
        let mut j: usize = 0;
        while j < chain.len()
            invariant
                0 <= j <= chain@.len(),
                self.wf(),
                tree == self.block_tree@,
                self.finalized_blocks@ == append_unfinalized(fin, chain@.take(j as int)),
                self@ == (ReplicaView { finalized_blocks: self.finalized_blocks@, ..old(self)@ }),
            decreases chain@.len() - j,
        {
            assert(chain@.take(j + 1).drop_last() =~= chain@.take(j as int));
            let b = chain[j];
            let bh = b.hash();
            if !self.is_finalized(&bh) {
                self.finalized_blocks.push(b);
            }
            j = j + 1;
        }
        assert(chain@.take(chain@.len() as int) =~= chain@);
        assert(self@ =~= spec_finalize_with_predecessors(old(self)@, *hash));
        chain
    }
}

/// The replica after a block with at least `thresh` first votes was
/// finalized with its predecessors: the slot is done.
pub open spec fn spec_finalize_voted(v: ReplicaView, h: BlockHash) -> ReplicaView {
    let post = spec_finalize_with_predecessors(v, h);
    with_state(post, SlotStateView { done: true, ..post.state })
}

impl Replica {
    /// Unless the slot is done, finalizes a block with at least `thresh` first
    /// votes, with its predecessors, and marks the slot done; returns the
    /// block's hash, its number of votes and the blocks finalized.
    pub fn finalize_if_voted(&mut self, thresh: usize) -> (r: Option<(BlockHash, usize, Vec<Block>)>)
        requires
            old(self).wf(),
        ensures
            final(self).wf(),
            (old(self).state.done || !exists|h: BlockHash|
                has_vote_for(old(self)@.state.first_votes, h) && #[trigger] votes_for(old(self)@.state.first_votes, h)
                    >= thresh) ==> r is None && final(self)@ == old(self)@,
            r matches Some(x) ==> {
                &&& !old(self).state.done
                &&& has_vote_for(old(self)@.state.first_votes, x.0)
                &&& votes_for(old(self)@.state.first_votes, x.0) >= thresh
                &&& x.1 == votes_for(old(self)@.state.first_votes, x.0)
                &&& x.2@ == finalization_chain(old(self)@, x.0)
                &&& final(self)@ == spec_finalize_voted(old(self)@, x.0)
            },
            !old(self).state.done && (exists|h: BlockHash|
                has_vote_for(old(self)@.state.first_votes, h) && #[trigger] votes_for(old(self)@.state.first_votes, h)
                    >= thresh) ==> r is Some,
    {
        if self.state.done {
            return None;
        }
        let hs = self.state.first_votes.many_votes(thresh);
        if hs.len() == 0 {
            proof {
                assert forall|h: BlockHash| has_vote_for(old(self)@.state.first_votes, h) implies #[trigger] votes_for(
                    old(self)@.state.first_votes,
                    h,
                ) < thresh by {
                    if votes_for(old(self)@.state.first_votes, h) >= thresh {
                        assert(hs@.contains(h));
                    }
                }
            }
            return None;
        }
        let h = hs[0];
        assert(hs@.contains(h));
        let cnt = self.state.first_votes.count(&h);
        let chain = self.finalize_with_predecessors(&h);
        self.state.done = true;
        assert(self@ =~= spec_finalize_voted(old(self)@, h));
        Some((h, cnt, chain))
    }
}

/// Whether the replica's slot is not done and some block has at least
/// `thresh` first votes.
pub open spec fn can_finalize(v: ReplicaView, thresh: int) -> bool {
    !v.state.done && exists|h: BlockHash|
        has_vote_for(v.state.first_votes, h) && #[trigger] votes_for(v.state.first_votes, h) >= thresh
}

/// What finalizing block `h` returns and leaves when it had `thresh` votes:
/// the votes, the blocks finalized and the replica after.
pub open spec fn finalized_with(
    pre: ReplicaView,
    post: ReplicaView,
    x: (BlockHash, usize, Seq<Block>),
    thresh: int,
) -> bool {
    &&& has_vote_for(pre.state.first_votes, x.0)
    &&& votes_for(pre.state.first_votes, x.0) >= thresh
    &&& x.1 == votes_for(pre.state.first_votes, x.0)
    &&& x.2 == finalization_chain(pre, x.0)
    &&& post == spec_finalize_voted(pre, x.0)
}

impl Replica {
    /// The decision after a message arrives in a slot: finalize on the fast
    /// quorum if a block has it; otherwise, outside the fast window, on the
    /// quorum. Returns the block, its votes, the blocks finalized, and whether
    /// the fast quorum did it.
    pub fn finalize_on_message(&mut self, in_fast_window: bool) -> (r: Option<(BlockHash, usize, Vec<Block>, bool)>)
        requires
            old(self).wf(),
        ensures
            final(self).wf(),
            can_finalize(old(self)@, spec_fast_quorum(old(self)@)) ==> (r matches Some(x) && x.3 && finalized_with(
                old(self)@,
                final(self)@,
                (x.0, x.1, x.2@),
                spec_fast_quorum(old(self)@),
            )),
            !can_finalize(old(self)@, spec_fast_quorum(old(self)@)) && !in_fast_window && can_finalize(
                old(self)@,
                spec_quorum(old(self)@),
            ) ==> (r matches Some(x) && !x.3 && finalized_with(
                old(self)@,
                final(self)@,
                (x.0, x.1, x.2@),
                spec_quorum(old(self)@),
            )),
            !can_finalize(old(self)@, spec_fast_quorum(old(self)@)) && (in_fast_window || !can_finalize(
                old(self)@,
                spec_quorum(old(self)@),
            )) ==> r is None && final(self)@ == old(self)@,
    {
        let fq = self.fast_quorum();
        match self.finalize_if_voted(fq) {
            Some((h, cnt, chain)) => {
                return Some((h, cnt, chain, true));
            },
            None => {},
        }
        if in_fast_window {
            return None;
        }
        let q = self.quorum();
        match self.finalize_if_voted(q) {
            Some((h, cnt, chain)) => Some((h, cnt, chain, false)),
            None => None,
        }
    }
}

} // verus!
