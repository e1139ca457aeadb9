//! The candidate role: it campaigns for leadership.

use crate::error::Error;
use crate::laws::{lemma_become_leader_wf, lemma_candidate_step_wf, lemma_candidate_tick_wf, lemma_follow_wf};
use crate::message::{Event, Message};
use crate::model::{valid_timeout, CandidateView, RoleView};
use crate::node::follower::Follower;
use crate::node::leader::Leader;
use crate::node::{step_fits, step_result, tick_fits, tick_result, Node, Role, RoleNode};
use crate::state::State;
use crate::timeout::election_timeout;
use vstd::prelude::*;

verus! {

/// A candidate is campaigning to become a leader.
#[derive(Debug)]
pub struct Candidate {
    /// Ticks elapsed since election start.
    election_ticks: u64,
    /// Election timeout, in ticks.
    election_timeout: u64,
    /// Votes received (including ourself).
    votes: u64,
}

impl View for Candidate {
    type V = CandidateView;

    closed spec fn view(&self) -> CandidateView {
        CandidateView {
            election_ticks: self.election_ticks as nat,
            election_timeout: self.election_timeout as nat,
            votes: self.votes as nat,
        }
    }
}

impl Role for Candidate {
    open spec fn role_view(&self) -> RoleView {
        RoleView::Candidate(self@)
    }
}

impl Candidate {
    /// Creates a new candidate role, with a random election timeout.
    pub fn new() -> (r: Self)
        ensures
            valid_timeout(r@.election_timeout),
            r@ == CandidateView::fresh(r@.election_timeout),
    {
        Self::with_timeout(election_timeout())
    }

    /// Creates a new candidate role with the election timeout `timeout`.
    pub fn with_timeout(timeout: u64) -> (r: Self)
        ensures
            r@ == CandidateView::fresh(timeout as nat),
    {
        // We always start with a vote for ourselves.
        Self { election_ticks: 0, election_timeout: timeout, votes: 1 }
    }

    /// Election timeout, in ticks.
    pub fn election_timeout(&self) -> (r: u64)
        ensures
            r == self@.election_timeout,
    {
        self.election_timeout
    }
}

impl<S: State> RoleNode<Candidate, S> {
    /// Transition to follower role. A greater term is taken over, and stored
    /// without a vote; in the node's own term the vote that is stored stays.
    fn become_follower(self, term: u64, leader: &String, timeout: u64) -> (r: RoleNode<Follower, S>)
        requires
            self.wf(),
            term >= self@.term,
            valid_timeout(timeout as nat),
        ensures
            r@ == if term > self@.term {
                self@.adopt(term as nat, leader@, timeout as nat)
            } else {
                self@.follow(leader@, timeout as nat)
            },
            r.state() == self.state(),
            r.wf(),
            r@.role is Follower,
    {
        let mut node = self;
        proof {
            lemma_follow_wf(node@, term as nat, leader@, timeout as nat);
        }
        if term > node.term {
            node.save_term(term, None);
        }
        let (_, voted_for) = node.log.load_term();
        node.become_role(Follower::with_timeout(Some(leader.clone()), voted_for, timeout))
    }

    /// Transition to leader role.
    fn become_leader(self) -> (r: RoleNode<Leader, S>)
        requires
            self.fits(),
            self@.campaigns(),
            self@.log.entries.len() + 1 < u64::MAX,
        ensures
            r@ == self@.become_leader(),
            r.state() == self.state(),
            r.wf(),
            r@.role is Leader,
    {
        proof {
            lemma_become_leader_wf(self@);
        }
        let peers = self.peers.len();
        let (last_index, _) = self.log.get_last();
        let (commit_index, commit_term) = self.log.get_committed();
        let mut node = self.become_role(Leader::new(peers, last_index));
        node.broadcast(Event::Heartbeat { commit_index, commit_term });
        node.append(None);
        node
    }

    /// Processes a message. A follower that this step makes of the candidate
    /// gets a random election timeout.
    pub fn step(self, msg: Message) -> (r: Result<Node<S>, Error>)
        requires
            self.wf(),
            self@.role is Candidate,
            step_fits(self@, msg@),
        ensures
            exists|timeout: nat| valid_timeout(timeout) && step_result(self@, self.state(), msg@, timeout, r),
    {
        let timeout = election_timeout();
        self.step_with_timeout(msg, timeout)
    }

    /// Processes a message. A follower that this step makes of the candidate
    /// gets the election timeout `timeout`.
    pub fn step_with_timeout(self, msg: Message, timeout: u64) -> (r: Result<Node<S>, Error>)
        requires
            self.wf(),
            self@.role is Candidate,
            step_fits(self@, msg@),
            valid_timeout(timeout as nat),
        ensures
            step_result(self@, self.state(), msg@, timeout as nat, r),
    {
        let mut node = self;
        let mut msg = msg;
        proof {
            lemma_candidate_step_wf(node@, msg@, timeout as nat);
        }
        if !node.normalize_message(&mut msg) {
            return Ok(Node::Candidate(node));
        }
        if msg.term > node.term {
            match &msg.from {
                Some(from) => {
                    let from = from.clone();
                    let follower = node.become_follower(msg.term, &from, timeout);
                    return follower.step_with_timeout(msg, timeout);
                },
                None => {},
            }
        }
        match &msg.event {
            Event::Heartbeat { .. } => {
                match &msg.from {
                    Some(from) => {
                        let from = from.clone();
                        let follower = node.become_follower(msg.term, &from, timeout);
                        return follower.step_with_timeout(msg, timeout);
                    },
                    None => {},
                }
            },
            Event::GrantVote => {
                node.role.votes = node.role.votes + 1;
                if node.role.votes >= node.quorum() {
                    return Ok(Node::Leader(node.become_leader()));
                }
            },
            Event::ConfirmLeader { .. } => {},
            Event::SolicitVote { .. } => {},
            Event::ReplicateEntries { .. } => {},
            Event::AcceptEntries { .. } => {},
            Event::RejectEntries => {},
            Event::QueryState { .. } => {},
            Event::MutateState { .. } => {},
            Event::RespondState { .. } => {},
            Event::RespondError { .. } => {},
        }
        Ok(Node::Candidate(node))
    }

    /// Processes a logical clock tick. A new election that this tick starts
    /// gets a random election timeout.
    pub fn tick(self) -> (r: Result<Node<S>, Error>)
        requires
            self.wf(),
            self@.role is Candidate,
            tick_fits(self@),
        ensures
            exists|timeout: nat| valid_timeout(timeout) && tick_result(self@, self.state(), timeout, r),
    {
        let timeout = election_timeout();
        self.tick_with_timeout(timeout)
    }

    /// Processes a logical clock tick. A new election that this tick starts
    /// gets the election timeout `timeout`.
    pub fn tick_with_timeout(self, timeout: u64) -> (r: Result<Node<S>, Error>)
        requires
            self.wf(),
            self@.role is Candidate,
            tick_fits(self@),
            valid_timeout(timeout as nat),
        ensures
            tick_result(self@, self.state(), timeout as nat, r),
    {
        let mut node = self;
        proof {
            lemma_candidate_tick_wf(node@, timeout as nat);
        }
        match node.log.apply_all(&mut node.state) {
            Ok(_) => {},
            Err(e) => {
                return Err(e);
            },
        }
        // If the election times out, start a new one for the next term.
        node.role.election_ticks = node.role.election_ticks + 1;
        if node.role.election_ticks >= node.role.election_timeout {
            let term = node.term + 1;
            let id = node.id.clone();
            node.save_term(term, Some(id));
            node.role = Candidate::with_timeout(timeout);
            let (last_index, last_term) = node.log.get_last();
            node.broadcast(Event::SolicitVote { last_index, last_term });
        }
        Ok(Node::Candidate(node))
    }
}

} // verus!
