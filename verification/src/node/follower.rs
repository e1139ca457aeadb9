//! The follower role: it answers its leader and votes.

use crate::error::Error;
use crate::message::{name_view, Event, Message};
use crate::model::{valid_timeout, FollowerView, RoleView};
use crate::node::candidate::Candidate;
use crate::node::{step_fits, step_result, tick_fits, tick_result, Node, Role, RoleNode};
use crate::laws::{lemma_campaign_wf, lemma_follower_step_wf};
use crate::state::State;
use crate::timeout::election_timeout;
use vstd::prelude::*;

verus! {

/// A follower replicates entries from a leader.
#[derive(Debug)]
pub struct Follower {
    /// The node that this follower takes for its leader, if any.
    leader: Option<String>,
    /// The node that this follower voted for in the current term, if any.
    voted_for: Option<String>,
    /// Ticks since the last heartbeat of the leader.
    leader_seen_ticks: u64,
    /// Ticks without a heartbeat after which the follower campaigns.
    election_timeout: u64,
}

impl View for Follower {
    type V = FollowerView;

    closed spec fn view(&self) -> FollowerView {
        FollowerView {
            leader: name_view(self.leader),
            voted_for: name_view(self.voted_for),
            leader_seen_ticks: self.leader_seen_ticks as nat,
            election_timeout: self.election_timeout as nat,
        }
    }
}

impl Role for Follower {
    open spec fn role_view(&self) -> RoleView {
        RoleView::Follower(self@)
    }
}

impl Follower {
    /// A fresh follower with a random election timeout.
    pub fn new(leader: Option<String>, voted_for: Option<String>) -> (r: Self)
        ensures
            valid_timeout(r@.election_timeout),
            r@ == FollowerView::fresh(name_view(leader), name_view(voted_for), r@.election_timeout),
    {
        Self::with_timeout(leader, voted_for, election_timeout())
    }

    /// A fresh follower with the election timeout `timeout`.
    pub fn with_timeout(leader: Option<String>, voted_for: Option<String>, timeout: u64) -> (r: Self)
        ensures
            r@ == FollowerView::fresh(name_view(leader), name_view(voted_for), timeout as nat),
    {
        Follower { leader, voted_for, leader_seen_ticks: 0, election_timeout: timeout }
    }

    /// Ticks without a heartbeat after which the follower campaigns.
    pub fn election_timeout(&self) -> (r: u64)
        ensures
            r == self@.election_timeout,
    {
        self.election_timeout
    }
}

impl<S: State> RoleNode<Follower, S> {
    /// Starts an election: the next term with a vote for the node itself is
    /// stored, then every peer is asked for its vote.
    fn become_candidate(self, timeout: u64) -> (r: RoleNode<Candidate, S>)
        requires
            self.fits(),
            tick_fits(self@),
        ensures
            r.fits(),
            r@ == self@.campaign(timeout as nat),
            r.state() == self.state(),
    {
        let mut node = self;
        let (last_index, last_term) = node.log.get_last();
        let term = node.term + 1;
        let id = node.id.clone();
        node.save_term(term, Some(id));
        let mut node = node.become_role(Candidate::with_timeout(timeout));
        node.broadcast(Event::SolicitVote { last_index, last_term });
        node
    }

    /// Takes over the greater term `term` and follows `leader`.
    fn become_follower(self, leader: &String, term: u64, timeout: u64) -> (r: RoleNode<Follower, S>)
        requires
            self.fits(),
        ensures
            r.fits(),
            r@ == self@.adopt(term as nat, leader@, timeout as nat),
            r.state() == self.state(),
    {
        let mut node = self;
        node.save_term(term, None);
        node.become_role(Follower::with_timeout(Some(leader.clone()), None, timeout))
    }

    /// Handles `event`, sent by `from` in the node's own term.
    fn handle(self, from: &String, event: Event) -> (r: Result<RoleNode<Follower, S>, Error>)
        requires
            self.wf(),
            self@.role is Follower,
            event@ matches crate::model::EventView::ReplicateEntries { base_index, entries, .. }
                ==> base_index + entries.len() < u64::MAX,
        ensures
            handle_result(self@, self.state(), from@, event@, r),
    {
        let mut node = self;
        match event {
            Event::Heartbeat { commit_index, commit_term } => {
                let has_committed = node.log.has(commit_index, commit_term);
                let (old_commit_index, _) = node.log.get_committed();
                if has_committed && commit_index > old_commit_index {
                    let committed = node.log.commit(commit_index);
                    assert(committed is Ok);
                }
                match node.log.apply_all(&mut node.state) {
                    Ok(_) => {},
                    Err(e) => {
                        return Err(e);
                    },
                }
                node.role.leader = Some(from.clone());
                node.role.leader_seen_ticks = 0;
                node.send(from, Event::ConfirmLeader { commit_index, has_committed });
                Ok(node)
            },
            Event::SolicitVote { last_index, last_term } => {
                let free = match &node.role.voted_for {
                    Some(voted_for) => *voted_for == *from,
                    None => true,
                };
                let (own_index, own_term) = node.log.get_last();
                if free && (last_term > own_term || (last_term == own_term && last_index
                    >= own_index)) {
                    let term = node.term;
                    node.save_term(term, Some(from.clone()));
                    node.role.voted_for = Some(from.clone());
                    node.send(from, Event::GrantVote);
                }
                Ok(node)
            },
            Event::ReplicateEntries { base_index, base_term, entries } => {
                if base_index > 0 && !node.log.has(base_index, base_term) {
                    node.send(from, Event::RejectEntries);
                    Ok(node)
                } else {
                    match node.log.splice(base_index, &entries) {
                        Ok(last_index) => {
                            node.send(from, Event::AcceptEntries { last_index });
                            Ok(node)
                        },
                        Err(e) => Err(e),
                    }
                }
            },
            _ => Ok(node),
        }
    }

    /// Processes a message. A role that this step enters gets a random
    /// election timeout.
    pub fn step(self, msg: Message) -> (r: Result<Node<S>, Error>)
        requires
            self.wf(),
            self@.role is Follower,
            step_fits(self@, msg@),
        ensures
            exists|timeout: nat| valid_timeout(timeout) && step_result(self@, self.state(), msg@, timeout, r),
    {
        let timeout = election_timeout();
        self.step_with_timeout(msg, timeout)
    }

    /// Processes a message. A role that this step enters gets the election
    /// timeout `timeout`.
    pub fn step_with_timeout(self, msg: Message, timeout: u64) -> (r: Result<Node<S>, Error>)
        requires
            self.wf(),
            self@.role is Follower,
            step_fits(self@, msg@),
            valid_timeout(timeout as nat),
        ensures
            step_result(self@, self.state(), msg@, timeout as nat, r),
    {
        let mut msg = msg;
        let ghost given = msg@;
        proof {
            lemma_follower_step_wf(self@, given, timeout as nat);
        }
        if !self.normalize_message(&mut msg) {
            return Ok(Node::Follower(self));
        }
        let Message { from, to: _, term, event } = msg;
        match from {
            None => Ok(Node::Follower(self)),
            Some(from) => {
                let node = if term > self.term {
                    self.become_follower(&from, term, timeout)
                } else {
                    self
                };
                match node.handle(&from, event) {
                    Ok(node) => Ok(Node::Follower(node)),
                    Err(e) => Err(e),
                }
            },
        }
    }

    /// Processes a tick of the logical clock. A candidate that this tick
    /// makes of the follower gets a random election timeout.
    pub fn tick(self) -> (r: Result<Node<S>, Error>)
        requires
            self.wf(),
            self@.role is Follower,
            tick_fits(self@),
        ensures
            exists|timeout: nat| valid_timeout(timeout) && tick_result(self@, self.state(), timeout, r),
    {
        let timeout = election_timeout();
        self.tick_with_timeout(timeout)
    }

    /// Processes a tick of the logical clock. A candidate that this tick
    /// makes of the follower gets the election timeout `timeout`.
    pub fn tick_with_timeout(self, timeout: u64) -> (r: Result<Node<S>, Error>)
        requires
            self.wf(),
            self@.role is Follower,
            tick_fits(self@),
            valid_timeout(timeout as nat),
        ensures
            tick_result(self@, self.state(), timeout as nat, r),
    {
        proof {
            lemma_campaign_wf(self@, timeout as nat);
        }
        let mut node = self;
        node.role.leader_seen_ticks = node.role.leader_seen_ticks + 1;
        if node.role.leader_seen_ticks >= node.role.election_timeout {
            Ok(Node::Candidate(node.become_candidate(timeout)))
        } else {
            Ok(Node::Follower(node))
        }
    }
}

/// How `handle` relates a follower and the state machine before it to its
/// result.
pub open spec fn handle_result<S: State>(
    before: crate::model::NodeView,
    state: S,
    from: Seq<char>,
    event: crate::model::EventView,
    r: Result<RoleNode<Follower, S>, Error>,
) -> bool {
    let drains = if event is Heartbeat {
        Some(
            before.heartbeat_log(
                event->Heartbeat_commit_index,
                event->Heartbeat_commit_term,
            ),
        )
    } else {
        None
    };
    match r {
        Ok(node) => {
            &&& before.follower_handle(before.role->Follower_0, from, event) == Some(node@)
            &&& crate::node::drained(state, drains, node.state())
            &&& node.fits()
        },
        Err(e) => {
            ||| crate::node::drain_failed(state, drains, e@)
            ||| before.follower_handle(before.role->Follower_0, from, event) is None && e@
                == crate::log::splice_refused()
        },
    }
}

} // verus!
