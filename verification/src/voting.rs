//! Proposals, votes, the vote trackers of a slot and its certificate pool.

use crate::block::{block_hash_of, spec_is_timeout, spec_timeout_block, timeout_block, Block, BlockHash};
use crate::crypto::{Fragment, Proof, ProofView};
use crate::types::{ReplicaId, Slot};
use vstd::prelude::*;

verus! {

/// A leader's proposal to one replica: the block and that replica's fragment with its proof.
#[derive(Debug)]
pub struct BlockProp {
    pub block: Block,
    pub frag: Fragment,
    pub proof: Proof,
}

pub struct BlockPropView {
    pub block: Block,
    pub frag: Seq<u8>,
    pub proof: ProofView,
}

impl View for BlockProp {
    type V = BlockPropView;

    open spec fn view(&self) -> BlockPropView {
        BlockPropView { block: self.block, frag: self.frag@, proof: self.proof@ }
    }
}

impl Clone for BlockProp {
    fn clone(&self) -> (c: Self)
        ensures
            c@ == self@,
    {
        BlockProp { block: self.block, frag: self.frag.clone(), proof: self.proof.clone() }
    }
}

/// A vote for a block (or for the slot's timeout block), with the voter's
/// fragment of the block's payload when it has one.
#[derive(Debug)]
pub struct NotarVote {
    pub block: Block,
    pub frag: Option<Fragment>,
    pub proof: Option<Proof>,
    pub from: ReplicaId,
}

pub struct NotarVoteView {
    pub block: Block,
    pub frag: Option<Seq<u8>>,
    pub proof: Option<ProofView>,
    pub from: ReplicaId,
}

pub open spec fn opt_frag_view(f: Option<Fragment>) -> Option<Seq<u8>> {
    match f {
        Some(x) => Some(x@),
        None => None,
    }
}

pub open spec fn opt_proof_view(p: Option<Proof>) -> Option<ProofView> {
    match p {
        Some(x) => Some(x@),
        None => None,
    }
}

impl View for NotarVote {
    type V = NotarVoteView;

    open spec fn view(&self) -> NotarVoteView {
        NotarVoteView {
            block: self.block,
            frag: opt_frag_view(self.frag),
            proof: opt_proof_view(self.proof),
            from: self.from,
        }
    }
}

impl Clone for NotarVote {
    fn clone(&self) -> (c: Self)
        ensures
            c@ == self@,
    {
        let frag = match &self.frag {
            Some(f) => Some(f.clone()),
            None => None,
        };
        let proof = match &self.proof {
            Some(p) => Some(p.clone()),
            None => None,
        };
        NotarVote { block: self.block, frag, proof, from: self.from }
    }
}

impl NotarVote {
    pub fn new(block: &Block, frag: Fragment, proof: Proof, from: ReplicaId) -> (v: Self)
        ensures
            v@ == (NotarVoteView { block: *block, frag: Some(frag@), proof: Some(proof@), from }),
    {
        NotarVote { block: *block, frag: Some(frag), proof: Some(proof), from }
    }

    /// A vote for the timeout block of `slot`.
    pub fn timeout(slot: Slot, from: ReplicaId) -> (v: Self)
        ensures
            v@ == (NotarVoteView { block: spec_timeout_block(slot), frag: None, proof: None, from }),
    {
        NotarVote { block: timeout_block(slot), frag: None, proof: None, from }
    }

    pub fn is_timeout(&self) -> (t: bool)
        ensures
            t == spec_is_timeout(self.block),
    {
        self.block.is_timeout()
    }

    pub fn block_hash(&self) -> (h: BlockHash)
        ensures
            h == block_hash_of(self.block),
    {
        self.block.hash()
    }

    pub fn slot(&self) -> (s: Slot)
        ensures
            s == self.block.slot,
    {
        self.block.slot
    }
}

/// A replica's first vote in a slot.
#[derive(Debug)]
pub struct FirstVote {
    pub notar: NotarVote,
}

impl View for FirstVote {
    type V = NotarVoteView;

    open spec fn view(&self) -> NotarVoteView {
        self.notar@
    }
}

impl Clone for FirstVote {
    fn clone(&self) -> (c: Self)
        ensures
            c@ == self@,
    {
        FirstVote { notar: self.notar.clone() }
    }
}

impl FirstVote {
    pub fn new(notar: NotarVote) -> (v: Self)
        ensures
            v@ == notar@,
    {
        FirstVote { notar }
    }

    pub fn block_hash(&self) -> (h: BlockHash)
        ensures
            h == block_hash_of(self.notar.block),
    {
        self.notar.block_hash()
    }

    pub fn block(&self) -> (b: &Block)
        ensures
            *b == self.notar.block,
    {
        &self.notar.block
    }

    pub fn from(&self) -> (r: ReplicaId)
        ensures
            r == self.notar.from,
    {
        self.notar.from
    }

    pub fn is_timeout(&self) -> (t: bool)
        ensures
            t == spec_is_timeout(self.notar.block),
    {
        self.notar.is_timeout()
    }
}

/// A vote to finalize a block.
#[derive(Clone, Copy, Debug)]
pub struct FinalVote {
    pub block_hash: BlockHash,
    pub slot: Slot,
    pub from: ReplicaId,
}

impl FinalVote {
    pub fn new(block: &Block, from: ReplicaId) -> (v: Self)
        ensures
            v == (FinalVote { block_hash: block_hash_of(*block), slot: block.slot, from }),
    {
        FinalVote { block_hash: block.hash(), slot: block.slot, from }
    }
}

/// Whether some vote comes from replica `r`.
pub open spec fn has_voter(s: Seq<(ReplicaId, BlockHash)>, r: ReplicaId) -> bool {
    exists|i: int| 0 <= i < s.len() && (#[trigger] s[i]).0 == r
}

/// The number of votes for `h`.
pub open spec fn votes_for(s: Seq<(ReplicaId, BlockHash)>, h: BlockHash) -> nat
    decreases s.len(),
{
    if s.len() == 0 {
        0
    } else {
        votes_for(s.drop_last(), h) + if s.last().1 == h { 1nat } else { 0nat }
    }
}

/// The number of votes from replica `r`.
pub open spec fn votes_from(s: Seq<(ReplicaId, BlockHash)>, r: ReplicaId) -> nat
    decreases s.len(),
{
    if s.len() == 0 {
        0
    } else {
        votes_from(s.drop_last(), r) + if s.last().0 == r { 1nat } else { 0nat }
    }
}

/// Whether some vote is for `h`.
pub open spec fn has_vote_for(s: Seq<(ReplicaId, BlockHash)>, h: BlockHash) -> bool {
    exists|i: int| 0 <= i < s.len() && (#[trigger] s[i]).1 == h
}

/// The largest number of votes that one of the first `m` votes' blocks has.
pub open spec fn max_votes_upto(s: Seq<(ReplicaId, BlockHash)>, m: int) -> nat
    decreases m,
{
    if m <= 0 {
        0
    } else {
        let prev = max_votes_upto(s, m - 1);
        let c = votes_for(s, s[m - 1].1);
        if c > prev { c } else { prev }
    }
}

/// The largest number of votes that a single block has.
pub open spec fn spec_max_votes(s: Seq<(ReplicaId, BlockHash)>) -> nat {
    max_votes_upto(s, s.len() as int)
}

pub proof fn lemma_votes_for_bound(s: Seq<(ReplicaId, BlockHash)>, h: BlockHash)
    ensures
        votes_for(s, h) <= s.len(),
    decreases s.len(),
{
    if s.len() > 0 {
        lemma_votes_for_bound(s.drop_last(), h);
    }
}

proof fn lemma_votes_from_bound(s: Seq<(ReplicaId, BlockHash)>, r: ReplicaId)
    ensures
        votes_from(s, r) <= s.len(),
    decreases s.len(),
{
    if s.len() > 0 {
        lemma_votes_from_bound(s.drop_last(), r);
    }
}

/// Tracks the first vote of each replica in a slot.
#[derive(Debug)]
pub struct FirstVoteTracker {
    votes: Vec<(ReplicaId, BlockHash)>,
}

impl View for FirstVoteTracker {
    type V = Seq<(ReplicaId, BlockHash)>;

    /// The votes in the order they were recorded.
    closed spec fn view(&self) -> Seq<(ReplicaId, BlockHash)> {
        self.votes@
    }
}

/// No replica occurs twice.
pub open spec fn voters_distinct(s: Seq<(ReplicaId, BlockHash)>) -> bool {
    forall|i: int, j: int| 0 <= i < j < s.len() ==> (#[trigger] s[i]).0 != (#[trigger] s[j]).0
}

/// The hash of the timeout block; not yet told apart from other hashes.
fn is_timeout_hash(_h: &BlockHash) -> (t: bool)
    ensures
        !t,
{
    false
}

impl FirstVoteTracker {
    pub open spec fn wf(&self) -> bool {
        voters_distinct(self@)
    }

    pub fn new() -> (t: Self)
        ensures
            t@ == Seq::<(ReplicaId, BlockHash)>::empty(),
            t.wf(),
    {
        FirstVoteTracker { votes: Vec::new() }
    }

    /// Records the first vote of `from`; a later vote of the same replica is refused.
    pub fn add(&mut self, from: ReplicaId, hash: BlockHash) -> (added: bool)
        requires
            old(self).wf(),
        ensures
            final(self).wf(),
            added == !has_voter(old(self)@, from),
            final(self)@ == if added { old(self)@.push((from, hash)) } else { old(self)@ },
    {
        if self.has_voted(from) {
            return false;
        }
        self.votes.push((from, hash));
        true
    }

    pub fn has_voted(&self, from: ReplicaId) -> (voted: bool)
        ensures
            voted == has_voter(self@, from),
    {
        let mut i: usize = 0;
        while i < self.votes.len()
            invariant
                0 <= i <= self.votes@.len(),
                forall|j: int| 0 <= j < i ==> (#[trigger] self.votes@[j]).0 != from,
            decreases self.votes@.len() - i,
        {
            if self.votes[i].0 == from {
                return true;
            }
            i = i + 1;
        }
        false
    }

    /// The number of replicas that voted for `hash`.
    pub fn count(&self, hash: &BlockHash) -> (c: usize)
        ensures
            c == votes_for(self@, *hash),
    {
        let mut c: usize = 0;
        let mut i: usize = 0;
        while i < self.votes.len()
            invariant
                0 <= i <= self.votes@.len(),
                c == votes_for(self.votes@.take(i as int), *hash),
                c <= i,
            decreases self.votes@.len() - i,
        {
            assert(self.votes@.take(i + 1).drop_last() =~= self.votes@.take(i as int));
            if self.votes[i].1.same(hash) {
                c = c + 1;
            }
            i = i + 1;
        }
        assert(self.votes@.take(self.votes@.len() as int) =~= self.votes@);
        c
    }

    /// The number of replicas that voted.
    pub fn all_votes(&self) -> (n: usize)
        ensures
            n == self@.len(),
    {
        self.votes.len()
    }

    /// The largest number of votes that a single block has (0 with no votes).
    pub fn max_votes(&self) -> (m: usize)
        ensures
            m == spec_max_votes(self@),
    {
        let mut m: usize = 0;
        let mut i: usize = 0;
        while i < self.votes.len()
            invariant
                0 <= i <= self.votes@.len(),
                m == max_votes_upto(self.votes@, i as int),
            decreases self.votes@.len() - i,
        {
            let h = self.votes[i].1;
            if !is_timeout_hash(&h) {
                let c = self.count(&h);
                if c > m {
                    m = c;
                }
            }
            i = i + 1;
        }
        m
    }

    /// The blocks with at least `thresh` votes, each once.
    pub fn many_votes(&self, thresh: usize) -> (hs: Vec<BlockHash>)
        ensures
            forall|i: int, j: int| 0 <= i < j < hs@.len() ==> hs@[i] != hs@[j],
            forall|h: BlockHash| #[trigger] hs@.contains(h) <==> has_vote_for(self@, h) && votes_for(self@, h) >= thresh,
    {
        let mut hs: Vec<BlockHash> = Vec::new();
        let mut i: usize = 0;
        while i < self.votes.len()
            invariant
                0 <= i <= self.votes@.len(),
                forall|a: int, b: int| 0 <= a < b < hs@.len() ==> hs@[a] != hs@[b],
                forall|h: BlockHash|
                    #[trigger] hs@.contains(h) ==> has_vote_for(self.votes@, h) && votes_for(self.votes@, h) >= thresh,
                forall|j: int|
                    0 <= j < i && votes_for(self.votes@, (#[trigger] self.votes@[j]).1) >= thresh ==> hs@.contains(
                        self.votes@[j].1,
                    ),
            decreases self.votes@.len() - i,
        {
            let h = self.votes[i].1;
            let ghost prev = hs@;
            assert(has_vote_for(self.votes@, h)) by {
                assert(self.votes@[i as int].1 == h);
            }
            if !is_timeout_hash(&h) && self.count(&h) >= thresh && !contains_hash(&hs, &h) {
                hs.push(h);
                proof {
                    assert forall|x: BlockHash| #[trigger] hs@.contains(x) implies prev.contains(x) || x == h by {
                        let k = choose|k: int| 0 <= k < hs@.len() && hs@[k] == x;
                        if k < prev.len() {
                            assert(prev[k] == x);
                        }
                    }
                    assert(hs@[prev.len() as int] == h);
                    assert forall|x: BlockHash| prev.contains(x) implies #[trigger] hs@.contains(x) by {
                        let k = choose|k: int| 0 <= k < prev.len() && prev[k] == x;
                        assert(hs@[k] == x);
                    }
                }
            }
            i = i + 1;
        }
        proof {
            assert forall|h: BlockHash| has_vote_for(self.votes@, h) && votes_for(self.votes@, h) >= thresh implies #[trigger] hs@.contains(h) by {
                let j = choose|j: int| 0 <= j < self.votes@.len() && (#[trigger] self.votes@[j]).1 == h;
                assert(votes_for(self.votes@, self.votes@[j].1) >= thresh);
            }
        }
        hs
    }
}

/// Whether `hs` holds `h`.
pub fn contains_hash(hs: &Vec<BlockHash>, h: &BlockHash) -> (found: bool)
    ensures
        found == hs@.contains(*h),
{
    let mut i: usize = 0;
    while i < hs.len()
        invariant
            0 <= i <= hs@.len(),
            forall|j: int| 0 <= j < i ==> hs@[j] != *h,
        decreases hs@.len() - i,
    {
        if hs[i].same(h) {
            assert(hs@[i as int] == *h);
            return true;
        }
        i = i + 1;
    }
    false
}

/// Tracks the final votes for each block, one per replica and block.
#[derive(Debug)]
pub struct FinalVoteTracker {
    votes: Vec<(BlockHash, ReplicaId)>,
}

/// The number of final votes for `h`.
pub open spec fn final_votes_for(s: Seq<(BlockHash, ReplicaId)>, h: BlockHash) -> nat
    decreases s.len(),
{
    if s.len() == 0 {
        0
    } else {
        final_votes_for(s.drop_last(), h) + if s.last().0 == h { 1nat } else { 0nat }
    }
}

proof fn lemma_final_votes_bound(s: Seq<(BlockHash, ReplicaId)>, h: BlockHash)
    ensures
        final_votes_for(s, h) <= s.len(),
    decreases s.len(),
{
    if s.len() > 0 {
        lemma_final_votes_bound(s.drop_last(), h);
    }
}

/// No element occurs twice.
pub open spec fn no_duplicates<T>(s: Seq<T>) -> bool {
    forall|i: int, j: int| 0 <= i < j < s.len() ==> s[i] != s[j]
}

impl View for FinalVoteTracker {
    type V = Seq<(BlockHash, ReplicaId)>;

    /// The (block, voter) pairs in the order they were recorded.
    closed spec fn view(&self) -> Seq<(BlockHash, ReplicaId)> {
        self.votes@
    }
}

impl FinalVoteTracker {
    pub open spec fn wf(&self) -> bool {
        no_duplicates(self@)
    }

    pub fn new() -> (t: Self)
        ensures
            t@ == Seq::<(BlockHash, ReplicaId)>::empty(),
            t.wf(),
    {
        FinalVoteTracker { votes: Vec::new() }
    }

    /// Records that `from` voted to finalize `hash`; returns whether that is new.
    pub fn add(&mut self, hash: BlockHash, from: ReplicaId) -> (added: bool)
        requires
            old(self).wf(),
        ensures
            final(self).wf(),
            added == !old(self)@.contains((hash, from)),
            final(self)@ == if added { old(self)@.push((hash, from)) } else { old(self)@ },
    {
        let mut i: usize = 0;
        while i < self.votes.len()
            invariant
                0 <= i <= self.votes@.len(),
                self.wf(),
                forall|j: int| 0 <= j < i ==> self.votes@[j] != (hash, from),
            decreases self.votes@.len() - i,
        {
            if self.votes[i].0.same(&hash) && self.votes[i].1 == from {
                assert(self.votes@[i as int] == (hash, from));
                return false;
            }
            i = i + 1;
        }
        self.votes.push((hash, from));
        true
    }

    /// The number of replicas that voted to finalize `hash`.
    pub fn count(&self, hash: &BlockHash) -> (c: usize)
        ensures
            c == final_votes_for(self@, *hash),
    {
        let mut c: usize = 0;
        let mut i: usize = 0;
        while i < self.votes.len()
            invariant
                0 <= i <= self.votes@.len(),
                c == final_votes_for(self.votes@.take(i as int), *hash),
                c <= i,
            decreases self.votes@.len() - i,
        {
            assert(self.votes@.take(i + 1).drop_last() =~= self.votes@.take(i as int));
            if self.votes[i].0.same(hash) {
                c = c + 1;
            }
            i = i + 1;
        }
        assert(self.votes@.take(self.votes@.len() as int) =~= self.votes@);
        c
    }
}

/// Tracks the notarization votes of each replica, at most three blocks each.
#[derive(Debug)]
pub struct NotarVoteTracker {
    votes: Vec<(ReplicaId, BlockHash)>,
}

impl View for NotarVoteTracker {
    type V = Seq<(ReplicaId, BlockHash)>;

    /// The (voter, block) pairs in the order they were recorded.
    closed spec fn view(&self) -> Seq<(ReplicaId, BlockHash)> {
        self.votes@
    }
}

/// The most blocks a replica's notarization votes are counted for.
pub open spec fn equivocation_bound() -> nat {
    3
}

impl NotarVoteTracker {
    /// No pair twice, and no replica with more than three blocks.
    pub open spec fn wf(&self) -> bool {
        &&& no_duplicates(self@)
        &&& forall|r: ReplicaId| #[trigger] votes_from(self@, r) <= equivocation_bound()
    }

    pub fn new() -> (t: Self)
        ensures
            t@ == Seq::<(ReplicaId, BlockHash)>::empty(),
            t.wf(),
    {
        NotarVoteTracker { votes: Vec::new() }
    }

    /// Records that `from` voted for `hash`. Refused when `from` already voted
    /// for three other blocks; returns whether the pair is new.
    pub fn add(&mut self, from: ReplicaId, hash: BlockHash) -> (added: bool)
        requires
            old(self).wf(),
        ensures
            final(self).wf(),
            added == (!old(self)@.contains((from, hash)) && votes_from(old(self)@, from) < 3),
            final(self)@ == if added { old(self)@.push((from, hash)) } else { old(self)@ },
    {
        let c = self.count_from(from);
        let mut present = false;
        let mut i: usize = 0;
        while i < self.votes.len()
            invariant
                0 <= i <= self.votes@.len(),
                present == exists|j: int| 0 <= j < i && self.votes@[j] == (from, hash),
            decreases self.votes@.len() - i,
        {
            if self.votes[i].0 == from && self.votes[i].1.same(&hash) {
                assert(self.votes@[i as int] == (from, hash));
                present = true;
            }
            i = i + 1;
        }
        assert(present == self.votes@.contains((from, hash)));
        if c >= 3 && !present {
            return false;
        }
        if present {
            return false;
        }
        let ghost prev = self.votes@;
        self.votes.push((from, hash));
        proof {
            assert forall|r: ReplicaId| #[trigger] votes_from(self.votes@, r) <= equivocation_bound() by {
                assert(self.votes@.drop_last() =~= prev);
                assert(votes_from(prev, r) <= equivocation_bound());
            }
            assert forall|a: int, b: int| 0 <= a < b < self.votes@.len() implies self.votes@[a] != self.votes@[b] by {
                if b == prev.len() {
                    assert(prev[a] == self.votes@[a]);
                    assert(prev.contains(prev[a]));
                } else {
                    assert(prev[a] == self.votes@[a] && prev[b] == self.votes@[b]);
                }
            }
        }
        true
    }

    /// The number of blocks that `from` voted for; never more than three.
    pub fn count_from(&self, from: ReplicaId) -> (c: usize)
        ensures
            c == votes_from(self@, from),
            self.wf() ==> c <= 3,
    {
        let mut c: usize = 0;
        let mut i: usize = 0;
        while i < self.votes.len()
            invariant
                0 <= i <= self.votes@.len(),
                c == votes_from(self.votes@.take(i as int), from),
                c <= i,
            decreases self.votes@.len() - i,
        {
            assert(self.votes@.take(i + 1).drop_last() =~= self.votes@.take(i as int));
            if self.votes[i].0 == from {
                c = c + 1;
            }
            i = i + 1;
        }
        assert(self.votes@.take(self.votes@.len() as int) =~= self.votes@);
        c
    }
}

/// A stored fragment: the block it belongs to, the replica it came from, the
/// fragment's bytes and its proof.
pub struct FragEntry {
    pub hash: BlockHash,
    pub from: ReplicaId,
    pub frag: Seq<u8>,
    pub proof: ProofView,
}

/// Whether two entries are for the same block and replica.
pub open spec fn same_key(a: FragEntry, b: FragEntry) -> bool {
    a.hash == b.hash && a.from == b.from
}

/// The store after adding `e`: it replaces the entry for the same block and
/// replica, or comes last.
pub open spec fn store_insert(s: Seq<FragEntry>, e: FragEntry) -> Seq<FragEntry> {
    if exists|i: int| 0 <= i < s.len() && same_key(#[trigger] s[i], e) {
        s.update(choose|i: int| 0 <= i < s.len() && same_key(#[trigger] s[i], e), e)
    } else {
        s.push(e)
    }
}

/// The fragments stored for block `h`, as (replica, fragment, proof), in store order.
pub open spec fn frags_for(s: Seq<FragEntry>, h: BlockHash) -> Seq<(ReplicaId, Seq<u8>, ProofView)>
    decreases s.len(),
{
    if s.len() == 0 {
        Seq::empty()
    } else {
        frags_for(s.drop_last(), h) + if s.last().hash == h {
            seq![(s.last().from, s.last().frag, s.last().proof)]
        } else {
            Seq::empty()
        }
    }
}

/// The content of a list of (replica, fragment, proof) triples.
pub open spec fn triple_views(v: Seq<(ReplicaId, Fragment, Proof)>) -> Seq<(ReplicaId, Seq<u8>, ProofView)> {
    Seq::new(v.len(), |i: int| (v[i].0, v[i].1@, v[i].2@))
}

/// The fragments received for each block, one per block and replica.
#[derive(Debug)]
pub struct FragmentStore {
    frags: Vec<(BlockHash, ReplicaId, Fragment, Proof)>,
}

impl View for FragmentStore {
    type V = Seq<FragEntry>;

    closed spec fn view(&self) -> Seq<FragEntry> {
        Seq::new(
            self.frags@.len(),
            |i: int|
                FragEntry {
                    hash: self.frags@[i].0,
                    from: self.frags@[i].1,
                    frag: self.frags@[i].2@,
                    proof: self.frags@[i].3@,
                },
        )
    }
}

impl FragmentStore {
    /// No block and replica twice.
    pub open spec fn wf(&self) -> bool {
        forall|i: int, j: int| 0 <= i < j < self@.len() ==> !same_key(#[trigger] self@[i], #[trigger] self@[j])
    }

    pub fn new() -> (st: Self)
        ensures
            st@ == Seq::<FragEntry>::empty(),
            st.wf(),
    {
        let st = FragmentStore { frags: Vec::new() };
        assert(st@ =~= Seq::<FragEntry>::empty());
        st
    }

    /// Stores the fragment that `from` holds of block `hash`, replacing an earlier one.
    pub fn add(&mut self, hash: BlockHash, from: ReplicaId, frag: Fragment, proof: Proof)
        requires
            old(self).wf(),
        ensures
            final(self).wf(),
            final(self)@ == store_insert(old(self)@, FragEntry { hash, from, frag: frag@, proof: proof@ }),
    {
        let ghost e = FragEntry { hash, from, frag: frag@, proof: proof@ };
        let ghost s = self@;
        let mut i: usize = 0;
        while i < self.frags.len()
            invariant
                0 <= i <= self.frags@.len(),
                s == self@,
                s == old(self)@,
                e == (FragEntry { hash, from, frag: frag@, proof: proof@ }),
                self.wf(),
                forall|j: int| 0 <= j < i ==> !same_key(#[trigger] s[j], e),
            decreases self.frags@.len() - i,
        {
            assert(s[i as int].hash == self.frags@[i as int].0 && s[i as int].from == self.frags@[i as int].1);
            let same_block = self.frags[i].0.same(&hash);
            if same_block && self.frags[i].1 == from {
                assert(same_key(s[i as int], e));
                self.frags.set(i, (hash, from, frag, proof));
                proof {
                    let c = choose|c: int| 0 <= c < s.len() && same_key(#[trigger] s[c], e);
                    assert(c == i) by {
                        if c != i {
                            if c < i {
                                assert(!same_key(s[c], s[i as int]));
                            } else {
                                assert(!same_key(s[i as int], s[c]));
                            }
                        }
                    }
                    assert(self@ =~= s.update(i as int, e));
                }
                return;
            }
            i = i + 1;
        }
        self.frags.push((hash, from, frag, proof));
        assert(self@ =~= s.push(e));
    }

    /// The fragments stored for block `hash`, or `None` when there are none.
    pub fn get(&self, hash: &BlockHash) -> (r: Option<Vec<(ReplicaId, Fragment, Proof)>>)
        ensures
            frags_for(self@, *hash).len() == 0 ==> r is None,
            frags_for(self@, *hash).len() > 0 ==> (r matches Some(v) && triple_views(v@) == frags_for(self@, *hash)),
    {
        let mut out: Vec<(ReplicaId, Fragment, Proof)> = Vec::new();
        let mut i: usize = 0;
        while i < self.frags.len()
            invariant
                0 <= i <= self.frags@.len(),
                triple_views(out@) == frags_for(self@.take(i as int), *hash),
            decreases self.frags@.len() - i,
        {
            assert(self@.take(i + 1).drop_last() =~= self@.take(i as int));
            if self.frags[i].0.same(hash) {
                let t = (self.frags[i].1, self.frags[i].2.clone(), self.frags[i].3.clone());
                out.push(t);
                assert(triple_views(out@) =~= frags_for(self@.take(i + 1), *hash));
            } else {
                assert(triple_views(out@) =~= frags_for(self@.take(i + 1), *hash));
            }
            i = i + 1;
        }
        assert(self@.take(self.frags@.len() as int) =~= self@);
        if out.len() == 0 {
            None
        } else {
            Some(out)
        }
    }

    /// The number of fragments stored for block `hash`.
    pub fn count(&self, hash: &BlockHash) -> (c: usize)
        ensures
            c == frags_for(self@, *hash).len(),
    {
        match self.get(hash) {
            Some(v) => v.len(),
            None => 0,
        }
    }
}

/// The map that a list of (hash, block) entries stands for.
pub open spec fn map_of(s: Seq<(BlockHash, Block)>) -> Map<BlockHash, Block>
    decreases s.len(),
{
    if s.len() == 0 {
        Map::empty()
    } else {
        map_of(s.drop_last()).insert(s.last().0, s.last().1)
    }
}

/// No key twice.
pub open spec fn keys_distinct(s: Seq<(BlockHash, Block)>) -> bool {
    forall|i: int, j: int| 0 <= i < j < s.len() ==> (#[trigger] s[i]).0 != (#[trigger] s[j]).0
}

proof fn lemma_map_of_dom(s: Seq<(BlockHash, Block)>, k: BlockHash)
    ensures
        map_of(s).dom().contains(k) <==> exists|i: int| 0 <= i < s.len() && (#[trigger] s[i]).0 == k,
    decreases s.len(),
{
    if s.len() > 0 {
        lemma_map_of_dom(s.drop_last(), k);
        if map_of(s.drop_last()).dom().contains(k) {
            let i = choose|i: int| 0 <= i < s.drop_last().len() && (#[trigger] s.drop_last()[i]).0 == k;
            assert(s[i].0 == k);
        }
        if exists|i: int| 0 <= i < s.len() && (#[trigger] s[i]).0 == k {
            let i = choose|i: int| 0 <= i < s.len() && (#[trigger] s[i]).0 == k;
            if i < s.len() - 1 {
                assert(s.drop_last()[i].0 == k);
            }
        }
    }
}

proof fn lemma_map_of_value(s: Seq<(BlockHash, Block)>, i: int)
    requires
        keys_distinct(s),
        0 <= i < s.len(),
    ensures
        map_of(s).dom().contains(s[i].0),
        map_of(s)[s[i].0] == s[i].1,
    decreases s.len(),
{
    if i < s.len() - 1 {
        assert(s.drop_last()[i] == s[i]);
        lemma_map_of_value(s.drop_last(), i);
        assert(s[i].0 != s.last().0);
    }
}

proof fn lemma_map_of_update(s: Seq<(BlockHash, Block)>, i: int, b: Block)
    requires
        keys_distinct(s),
        0 <= i < s.len(),
    ensures
        map_of(s.update(i, (s[i].0, b))) =~= map_of(s).insert(s[i].0, b),
    decreases s.len(),
{
    let t = s.update(i, (s[i].0, b));
    if i == s.len() - 1 {
        assert(t.drop_last() =~= s.drop_last());
    } else {
        assert(t.drop_last() =~= s.drop_last().update(i, (s[i].0, b)));
        assert(s.drop_last()[i] == s[i]);
        lemma_map_of_update(s.drop_last(), i, b);
        assert(s[i].0 != s.last().0);
    }
}

proof fn lemma_map_of_len(s: Seq<(BlockHash, Block)>)
    requires
        keys_distinct(s),
    ensures
        map_of(s).dom().finite(),
        map_of(s).dom().len() == s.len(),
    decreases s.len(),
{
    if s.len() > 0 {
        let d = s.drop_last();
        assert(keys_distinct(d)) by {
            assert forall|i: int, j: int| 0 <= i < j < d.len() implies (#[trigger] d[i]).0 != (#[trigger] d[j]).0 by {
                assert(d[i] == s[i] && d[j] == s[j]);
            }
        }
        lemma_map_of_len(d);
        lemma_map_of_dom(d, s.last().0);
        if map_of(d).dom().contains(s.last().0) {
            let i = choose|i: int| 0 <= i < d.len() && (#[trigger] d[i]).0 == s.last().0;
            assert(d[i] == s[i]);
        }
        assert(map_of(s).dom() =~= map_of(d).dom().insert(s.last().0));
    }
}

/// A map from block hashes to blocks.
#[derive(Debug)]
pub struct BlockMap {
    entries: Vec<(BlockHash, Block)>,
}

impl View for BlockMap {
    type V = Map<BlockHash, Block>;

    closed spec fn view(&self) -> Map<BlockHash, Block> {
        map_of(self.entries@)
    }
}

impl BlockMap {
    pub closed spec fn wf(&self) -> bool {
        keys_distinct(self.entries@)
    }

    /// The number of entries, one per key.
    pub closed spec fn size(&self) -> nat {
        self.entries@.len()
    }

    /// A well-formed map has finitely many keys, as many as its size.
    pub proof fn lemma_finite(&self)
        requires
            self.wf(),
        ensures
            self@.dom().finite(),
            self@.dom().len() == self.size(),
    {
        lemma_map_of_len(self.entries@);
    }

    pub fn new() -> (m: Self)
        ensures
            m@ == Map::<BlockHash, Block>::empty(),
            m.wf(),
            m.size() == 0,
    {
        BlockMap { entries: Vec::new() }
    }

    fn find(&self, h: &BlockHash) -> (idx: Option<usize>)
        requires
            self.wf(),
        ensures
            idx matches Some(i) ==> i < self.entries@.len() && self.entries@[i as int].0 == *h,
            idx is None ==> !self@.dom().contains(*h),
    {
        let mut i: usize = 0;
        while i < self.entries.len()
            invariant
                0 <= i <= self.entries@.len(),
                forall|j: int| 0 <= j < i ==> (#[trigger] self.entries@[j]).0 != *h,
            decreases self.entries@.len() - i,
        {
            if self.entries[i].0.same(h) {
                return Some(i);
            }
            i = i + 1;
        }
        proof {
            lemma_map_of_dom(self.entries@, *h);
        }
        None
    }

    /// Maps `h` to `b`, replacing an earlier block.
    pub fn insert(&mut self, h: BlockHash, b: Block)
        requires
            old(self).wf(),
        ensures
            final(self).wf(),
            final(self)@ == old(self)@.insert(h, b),
            final(self).size() == if old(self)@.dom().contains(h) { old(self).size() } else { old(self).size() + 1 },
    {
        match self.find(&h) {
            Some(i) => {
                proof {
                    lemma_map_of_update(self.entries@, i as int, b);
                    lemma_map_of_value(self.entries@, i as int);
                }
                let ghost s = self.entries@;
                self.entries.set(i, (h, b));
                assert(self.entries@ =~= s.update(i as int, (s[i as int].0, b)));
            },
            None => {
                let ghost s = self.entries@;
                self.entries.push((h, b));
                assert(self.entries@.drop_last() =~= s);
                proof {
                    assert forall|a: int, c: int| 0 <= a < c < self.entries@.len() implies (#[trigger] self.entries@[a]).0
                        != (#[trigger] self.entries@[c]).0 by {
                        if c == s.len() {
                            lemma_map_of_dom(s, h);
                            assert(s[a] == self.entries@[a]);
                        } else {
                            assert(s[a] == self.entries@[a] && s[c] == self.entries@[c]);
                        }
                    }
                }
            },
        }
    }

    /// Maps `h` to `b` unless `h` is mapped already.
    pub fn insert_if_absent(&mut self, h: BlockHash, b: Block)
        requires
            old(self).wf(),
        ensures
            final(self).wf(),
            final(self)@ == if old(self)@.dom().contains(h) { old(self)@ } else { old(self)@.insert(h, b) },
    {
        if !self.contains_key(&h) {
            self.insert(h, b);
        }
    }

    pub fn get(&self, h: &BlockHash) -> (r: Option<Block>)
        requires
            self.wf(),
        ensures
            r == if self@.dom().contains(*h) { Some(self@[*h]) } else { None },
    {
        match self.find(h) {
            Some(i) => {
                proof {
                    lemma_map_of_value(self.entries@, i as int);
                }
                Some(self.entries[i].1)
            },
            None => None,
        }
    }

    pub fn contains_key(&self, h: &BlockHash) -> (c: bool)
        requires
            self.wf(),
        ensures
            c == self@.dom().contains(*h),
    {
        match self.find(h) {
            Some(i) => {
                proof {
                    lemma_map_of_value(self.entries@, i as int);
                }
                true
            },
            None => false,
        }
    }

    /// The number of blocks.
    pub fn len(&self) -> (n: usize)
        requires
            self.wf(),
        ensures
            n == self.size(),
            n == self@.dom().len(),
    {
        proof {
            lemma_map_of_len(self.entries@);
        }
        self.entries.len()
    }

    /// The order in which `values` lists the keys: each key once.
    pub closed spec fn key_order(&self) -> Seq<BlockHash> {
        Seq::new(self.entries@.len(), |i: int| self.entries@[i].0)
    }

    /// The blocks, one per key: the block of the `i`-th key of `key_order`
    /// comes `i`-th, and `key_order` lists every key once.
    pub fn values(&self) -> (v: Vec<Block>)
        requires
            self.wf(),
        ensures
            v@.len() == self.key_order().len(),
            v@.len() == self.size(),
            forall|i: int|
                0 <= i < v@.len() ==> self@.dom().contains(#[trigger] self.key_order()[i]) && v@[i]
                    == self@[self.key_order()[i]],
            forall|i: int, j: int| 0 <= i < j < v@.len() ==> self.key_order()[i] != self.key_order()[j],
            forall|h: BlockHash| #[trigger] self@.dom().contains(h) ==> self.key_order().contains(h),
    {
        let mut v: Vec<Block> = Vec::new();
        let mut i: usize = 0;
        while i < self.entries.len()
            invariant
                0 <= i <= self.entries@.len(),
                self.wf(),
                v@.len() == i,
                forall|j: int|
                    0 <= j < i ==> self@.dom().contains(#[trigger] self.key_order()[j]) && v@[j]
                        == self@[self.key_order()[j]],
            decreases self.entries@.len() - i,
        {
            proof {
                lemma_map_of_value(self.entries@, i as int);
            }
            v.push(self.entries[i].1);
            i = i + 1;
        }
        proof {
            assert forall|h: BlockHash| #[trigger] self@.dom().contains(h) implies self.key_order().contains(h) by {
                lemma_map_of_dom(self.entries@, h);
                let k = choose|k: int| 0 <= k < self.entries@.len() && (#[trigger] self.entries@[k]).0 == h;
                assert(self.key_order()[k] == h);
            }
        }
        v
    }
}

/// A certificate: enough votes to notarize or finalize a block, or to time out a slot.
#[derive(Clone, Copy, Debug)]
pub enum Cert {
    Notar(BlockHash, Slot),
    Final(BlockHash, Slot),
    FastFinal(BlockHash, Slot),
    Timeout(Slot),
}

/// The certificates of a slot: at most one timeout, fast-final and final
/// certificate, and at most five notarization certificates.
#[derive(Debug)]
pub struct CertPool {
    pub timeout_cert: Option<Slot>,
    pub fast_final_cert: Option<BlockHash>,
    pub final_cert: Option<BlockHash>,
    pub notar_certs: Vec<BlockHash>,
}

/// The most notarization certificates a slot keeps.
pub open spec fn notar_cert_bound() -> nat {
    5
}

impl CertPool {
    pub open spec fn wf(&self) -> bool {
        &&& no_duplicates(self.notar_certs@)
        &&& self.notar_certs@.len() <= notar_cert_bound()
    }

    pub fn new() -> (c: Self)
        ensures
            c.timeout_cert is None,
            c.fast_final_cert is None,
            c.final_cert is None,
            c.notar_certs@ == Seq::<BlockHash>::empty(),
            c.wf(),
    {
        CertPool { timeout_cert: None, fast_final_cert: None, final_cert: None, notar_certs: Vec::new() }
    }

    /// Records the timeout certificate unless there is one already.
    pub fn add_timeout(&mut self, slot: Slot) -> (added: bool)
        ensures
            added == old(self).timeout_cert is None,
            final(self).timeout_cert == if added { Some(slot) } else { old(self).timeout_cert },
            final(self).fast_final_cert == old(self).fast_final_cert,
            final(self).final_cert == old(self).final_cert,
            final(self).notar_certs@ == old(self).notar_certs@,
    {
        if self.timeout_cert.is_some() {
            return false;
        }
        self.timeout_cert = Some(slot);
        true
    }

    /// Records the fast-final certificate unless there is one already.
    pub fn add_fast_final(&mut self, hash: BlockHash) -> (added: bool)
        ensures
            added == old(self).fast_final_cert is None,
            final(self).fast_final_cert == if added { Some(hash) } else { old(self).fast_final_cert },
            final(self).timeout_cert == old(self).timeout_cert,
            final(self).final_cert == old(self).final_cert,
            final(self).notar_certs@ == old(self).notar_certs@,
    {
        if self.fast_final_cert.is_some() {
            return false;
        }
        self.fast_final_cert = Some(hash);
        true
    }

    /// Records the final certificate unless there is one already.
    pub fn add_final(&mut self, hash: BlockHash) -> (added: bool)
        ensures
            added == old(self).final_cert is None,
            final(self).final_cert == if added { Some(hash) } else { old(self).final_cert },
            final(self).timeout_cert == old(self).timeout_cert,
            final(self).fast_final_cert == old(self).fast_final_cert,
            final(self).notar_certs@ == old(self).notar_certs@,
    {
        if self.final_cert.is_some() {
            return false;
        }
        self.final_cert = Some(hash);
        true
    }

    /// Records a notarization certificate for `hash`: refused when five other
    /// blocks have one; returns whether it is new.
    pub fn add_notar(&mut self, hash: BlockHash) -> (added: bool)
        requires
            old(self).wf(),
        ensures
            final(self).wf(),
            added == (!old(self).notar_certs@.contains(hash) && old(self).notar_certs@.len() < 5),
            final(self).notar_certs@ == if added { old(self).notar_certs@.push(hash) } else { old(self).notar_certs@ },
            final(self).timeout_cert == old(self).timeout_cert,
            final(self).fast_final_cert == old(self).fast_final_cert,
            final(self).final_cert == old(self).final_cert,
    {
        let present = contains_hash(&self.notar_certs, &hash);
        if self.notar_certs.len() >= 5 && !present {
            return false;
        }
        if present {
            return false;
        }
        let ghost prev = self.notar_certs@;
        self.notar_certs.push(hash);
        proof {
            assert forall|a: int, b: int| 0 <= a < b < self.notar_certs@.len() implies self.notar_certs@[a]
                != self.notar_certs@[b] by {
                if b == prev.len() {
                    assert(prev[a] == self.notar_certs@[a]);
                    assert(prev.contains(prev[a]));
                } else {
                    assert(prev[a] == self.notar_certs@[a] && prev[b] == self.notar_certs@[b]);
                }
            }
        }
        true
    }

    pub fn has_timeout(&self) -> (h: bool)
        ensures
            h == self.timeout_cert is Some,
    {
        self.timeout_cert.is_some()
    }

    pub fn has_fast_final(&self) -> (h: bool)
        ensures
            h == self.fast_final_cert is Some,
    {
        self.fast_final_cert.is_some()
    }

    pub fn has_final(&self) -> (h: bool)
        ensures
            h == self.final_cert is Some,
    {
        self.final_cert.is_some()
    }

    pub fn has_notar(&self, hash: &BlockHash) -> (h: bool)
        ensures
            h == self.notar_certs@.contains(*hash),
    {
        contains_hash(&self.notar_certs, hash)
    }
}

} // verus!
