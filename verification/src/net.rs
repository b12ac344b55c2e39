//! The messages replicas exchange.

use crate::protocol::{
    action_views, spec_on_final_vote, spec_on_first_vote, spec_on_proposal, Action, Replica,
};
use crate::types::{leader_for_slot, spec_leader_for_slot};
use crate::voting::{BlockProp, BlockPropView, FinalVote, FirstVote, NotarVote, NotarVoteView};
use vstd::prelude::*;

verus! {

/// A protocol message.
#[derive(Debug)]
pub enum Msg {
    Proposal(BlockProp),
    First(FirstVote),
    Final(FinalVote),
    Notar(NotarVote),
}

/// The content of a [`Msg`].
pub enum MsgView {
    Proposal(BlockPropView),
    First(NotarVoteView),
    Final(FinalVote),
    Notar(NotarVoteView),
}

impl View for Msg {
    type V = MsgView;

    open spec fn view(&self) -> MsgView {
        match self {
            Msg::Proposal(p) => MsgView::Proposal(p@),
            Msg::First(v) => MsgView::First(v@),
            Msg::Final(v) => MsgView::Final(*v),
            Msg::Notar(v) => MsgView::Notar(v@),
        }
    }
}

impl Clone for Msg {
    fn clone(&self) -> (c: Self)
        ensures
            c@ == self@,
    {
        match self {
            Msg::Proposal(p) => Msg::Proposal(p.clone()),
            Msg::First(v) => Msg::First(v.clone()),
            Msg::Final(v) => Msg::Final(*v),
            Msg::Notar(v) => Msg::Notar(v.clone()),
        }
    }
}

/// Hands a received message to the replica. A proposal is taken as coming
/// from the leader of its block's slot; a vote as coming from its voter.
pub fn handle_msg(replica: &mut Replica, msg: Msg) -> (acts: Vec<Action>)
    requires
        old(replica).wf(),
    ensures
        final(replica).wf(),
        match msg {
            Msg::Proposal(p) => {
                let from = spec_leader_for_slot(p.block.slot, old(replica).n) as usize;
                &&& final(replica)@ == spec_on_proposal(old(replica)@, p@, from).0
                &&& action_views(acts@) == spec_on_proposal(old(replica)@, p@, from).1
            },
            Msg::First(v) => {
                &&& final(replica)@ == spec_on_first_vote(old(replica)@, v@, v.notar.from).0
                &&& action_views(acts@) == spec_on_first_vote(old(replica)@, v@, v.notar.from).1
            },
            Msg::Final(v) => final(replica)@ == spec_on_final_vote(old(replica)@, v).0 && acts@.len() == 0,
            Msg::Notar(v) => {
                &&& final(replica)@ == spec_on_first_vote(old(replica)@, v@, v.from).0
                &&& action_views(acts@) == spec_on_first_vote(old(replica)@, v@, v.from).1
            },
        },
{
    match msg {
        Msg::Proposal(p) => {
            let from = leader_for_slot(p.block.slot, replica.n);
            replica.on_proposal(p, from)
        },
        Msg::First(v) => {
            let from = v.from();
            replica.on_first_vote(&v, from)
        },
        Msg::Final(v) => {
            replica.on_final_vote(&v);
            Vec::new()
        },
        Msg::Notar(v) => {
            let from = v.from;
            replica.on_first_vote(&FirstVote::new(v), from)
        },
    }
}

} // verus!
