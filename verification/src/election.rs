//! Election safety: in a cluster, no two nodes lead in the same term.
//!
//! The proof keeps a record of the votes that were cast and of the votes that
//! candidates have counted, and shows that the record and the cluster agree
//! after every action. A node that leads has counted the votes of a quorum,
//! two quorums share a node, and a node casts one vote in a term.

use crate::cluster::{Action, Cluster};
use crate::laws::{
    grants_vote, law_step_emits, law_tick_emits, lemma_leader_append, lemma_step_summary, lemma_step_wf,
    lemma_tick_summary, lemma_tick_wf,
};
use crate::model::{valid_timeout, EventView, MessageView, NodeView, RoleView};
use vstd::prelude::*;
use vstd::set_lib::{lemma_len_subset, lemma_set_intersect_union_lens};

verus! {

/// The votes of a cluster: for a voter and a term, the node that the voter
/// voted for; for a candidate and a term, the voters whose votes the
/// candidate has counted, its own included.
pub struct Ballots {
    pub cast: Map<(Seq<char>, nat), Seq<char>>,
    pub counted: Map<(Seq<char>, nat), Set<Seq<char>>>,
}

impl Ballots {
    /// The node that `voter` voted for in `term`, if it voted.
    pub open spec fn vote(self, voter: Seq<char>, term: nat) -> Option<Seq<char>> {
        if self.cast.dom().contains((voter, term)) {
            Some(self.cast[(voter, term)])
        } else {
            None
        }
    }

    /// The voters whose votes `candidate` has counted in `term`.
    pub open spec fn voters(self, candidate: Seq<char>, term: nat) -> Set<Seq<char>> {
        if self.counted.dom().contains((candidate, term)) {
            self.counted[(candidate, term)]
        } else {
            Set::empty()
        }
    }

    pub open spec fn with_vote(self, voter: Seq<char>, term: nat, candidate: Seq<char>) -> Ballots {
        Ballots { cast: self.cast.insert((voter, term), candidate), ..self }
    }

    pub open spec fn with_voter(self, candidate: Seq<char>, term: nat, voter: Seq<char>) -> Ballots {
        Ballots {
            counted: self.counted.insert((candidate, term), self.voters(candidate, term).insert(voter)),
            ..self
        }
    }
}

/// The message by which `voter` grants `candidate` its vote in `term`.
pub open spec fn grant(voter: Seq<char>, candidate: Seq<char>, term: nat) -> MessageView {
    MessageView { from: Some(voter), to: Some(candidate), term, event: EventView::GrantVote }
}

/// Whether `a` and `b` ask the same node for its vote for the same candidate
/// in the same term.
pub open spec fn same_request(a: MessageView, b: MessageView) -> bool {
    &&& a.event is SolicitVote
    &&& b.event is SolicitVote
    &&& a.from == b.from
    &&& a.to == b.to
    &&& a.term == b.term
}

/// What holds of a message in flight: a node of the cluster sent it, in a
/// term that the sender has reached. A request for a vote comes from another
/// node, which has not counted the vote that it asks for, and the answer is
/// not in flight. A vote goes to another node, is the vote that its sender
/// cast in that term, has not been counted, and is of a term that its
/// recipient has reached.
pub open spec fn message_ok(c: Cluster, h: Ballots, m: MessageView) -> bool {
    &&& m.from is Some
    &&& m.to is Some
    &&& c.has(m.from->0)
    &&& m.term <= c.nodes[m.from->0].term
    &&& m.event is SolicitVote ==> {
        &&& c.has(m.to->0)
        &&& m.to->0 != m.from->0
        &&& !h.voters(m.from->0, m.term).contains(m.to->0)
        &&& !c.network.contains(grant(m.to->0, m.from->0, m.term))
    }
    &&& m.event is GrantVote ==> {
        &&& c.has(m.to->0)
        &&& m.to->0 != m.from->0
        &&& h.vote(m.from->0, m.term) == Some(m.to->0)
        &&& !h.voters(m.to->0, m.term).contains(m.from->0)
        &&& m.term <= c.nodes[m.to->0].term
    }
}

/// What holds of a node: the vote in its term record is the vote that it
/// cast in its term; a candidate has as many votes as it has counted voters;
/// a leader has counted a quorum of voters.
pub open spec fn node_ok(c: Cluster, h: Ballots, id: Seq<char>) -> bool {
    let node = c.nodes[id];
    &&& node.log.voted_for is Some ==> h.vote(id, node.term) == node.log.voted_for
    &&& node.role matches RoleView::Candidate(k) ==> h.voters(id, node.term).len() == k.votes
    &&& node.role is Leader ==> h.voters(id, node.term).len() >= node.quorum()
}

/// What holds of a vote that was cast: a node of the cluster cast it, in a
/// term that it has reached, and while the node is in that term its term
/// record holds the vote.
pub open spec fn vote_ok(c: Cluster, h: Ballots, voter: Seq<char>, term: nat) -> bool {
    h.vote(voter, term) is Some ==> {
        &&& c.has(voter)
        &&& term <= c.nodes[voter].term
        &&& term == c.nodes[voter].term ==> c.nodes[voter].log.voted_for == h.vote(voter, term)
    }
}

/// What holds of the voters that a candidate has counted: they are finitely
/// many nodes of the cluster that voted for the candidate, in a term that
/// the candidate has reached.
pub open spec fn voters_ok(c: Cluster, h: Ballots, candidate: Seq<char>, term: nat) -> bool {
    &&& h.voters(candidate, term).finite()
    &&& forall|v: Seq<char>| #[trigger]
        h.voters(candidate, term).contains(v) ==> {
            &&& c.has(v)
            &&& c.has(candidate)
            &&& term <= c.nodes[candidate].term
            &&& h.vote(v, term) == Some(candidate)
        }
}

/// The cluster and the record of its votes agree.
pub open spec fn inv(c: Cluster, h: Ballots) -> bool {
    &&& c.wf()
    &&& forall|m: MessageView| #[trigger] c.network.contains(m) ==> message_ok(c, h, m)
    &&& forall|a: MessageView, b: MessageView|
        #![trigger c.network.contains(a), c.network.contains(b)]
        c.network.contains(a) && c.network.contains(b) && same_request(a, b) ==> a == b
    &&& forall|id: Seq<char>| #[trigger] c.has(id) ==> node_ok(c, h, id)
    &&& forall|v: Seq<char>, t: nat| #[trigger] vote_ok(c, h, v, t)
    &&& forall|k: Seq<char>, t: nat| #[trigger] voters_ok(c, h, k, t)
}

/// The nodes of a cluster are the peers of any one of them and that node.
pub proof fn lemma_cluster_size(c: Cluster, id: Seq<char>)
    requires
        c.wf(),
        c.has(id),
    ensures
        c.nodes[id].peers.len() + 1 == c.nodes.dom().len(),
{
    assert(c.node_wf(id));
    c.nodes[id].peers.unique_seq_to_set();
}

/// Two quorums of a cluster share a node.
pub proof fn lemma_quorums_meet(all: Set<Seq<char>>, a: Set<Seq<char>>, b: Set<Seq<char>>, quorum: nat) -> (v: Seq<char>)
    requires
        all.finite(),
        a.subset_of(all),
        b.subset_of(all),
        a.len() >= quorum,
        b.len() >= quorum,
        2 * quorum > all.len(),
    ensures
        a.contains(v),
        b.contains(v),
{
    vstd::set_lib::lemma_set_subset_finite(all, a);
    vstd::set_lib::lemma_set_subset_finite(all, b);
    lemma_set_intersect_union_lens(a, b);
    lemma_len_subset(a.union(b), all);
    let both = a.intersect(b);
    assert(both.len() > 0);
    let v = both.choose();
    assert(both.contains(v)) by {
        if both.len() != 0 {
            vstd::set::axiom_set_choose_len(both);
        }
    }
    v
}

/// Where the cluster and a record of its votes agree, no two nodes lead in
/// the same term.
pub proof fn lemma_inv_safe(c: Cluster, h: Ballots)
    requires
        inv(c, h),
    ensures
        c.election_safe(),
{
    assert forall|a: Seq<char>, b: Seq<char>|
        #![trigger c.has(a), c.has(b)]
        c.has(a) && c.has(b) && a != b && c.nodes[a].role is Leader
            && c.nodes[b].role is Leader implies c.nodes[a].term != c.nodes[b].term by {
        let t = c.nodes[a].term;
        if c.nodes[b].term == t {
            lemma_cluster_size(c, a);
            lemma_cluster_size(c, b);
            assert(node_ok(c, h, a));
            assert(node_ok(c, h, b));
            assert(voters_ok(c, h, a, t));
            assert(voters_ok(c, h, b, t));
            let v = lemma_quorums_meet(
                c.nodes.dom(),
                h.voters(a, t),
                h.voters(b, t),
                c.nodes[a].quorum(),
            );
            assert(h.vote(v, t) == Some(a));
            assert(h.vote(v, t) == Some(b));
        }
    }
}

/// The votes that the term records of a cluster at its start hold.
pub open spec fn first_ballots(c: Cluster) -> Ballots {
    Ballots {
        cast: Map::new(
            |k: (Seq<char>, nat)| c.has(k.0) && c.nodes[k.0].term == k.1 && c.nodes[k.0].log.voted_for is Some,
            |k: (Seq<char>, nat)| c.nodes[k.0].log.voted_for->0,
        ),
        counted: Map::empty(),
    }
}

/// A cluster at its start agrees with the votes that its term records hold.
pub proof fn lemma_init_inv(c: Cluster)
    requires
        c.init(),
    ensures
        inv(c, first_ballots(c)),
{
    let h = first_ballots(c);
    assert forall|id: Seq<char>| #[trigger] c.has(id) implies node_ok(c, h, id) by {
        let node = c.nodes[id];
        if node.log.voted_for is Some {
            assert(h.cast.dom().contains((id, node.term)));
        }
    }
    assert forall|v: Seq<char>, t: nat| #[trigger] vote_ok(c, h, v, t) by {
        if h.vote(v, t) is Some {
            assert(h.cast.dom().contains((v, t)));
        }
    }
    assert forall|k: Seq<char>, t: nat| #[trigger] voters_ok(c, h, k, t) by {
        assert(h.voters(k, t) == Set::<Seq<char>>::empty());
    }
}

/// A cluster that loses a message, or whose node fails on one, still agrees
/// with the record of its votes.
pub proof fn lemma_lose_inv(c: Cluster, h: Ballots, msg: MessageView)
    requires
        inv(c, h),
    ensures
        inv(Cluster { network: c.network.remove(msg), ..c }, h),
{
    let c2 = Cluster { network: c.network.remove(msg), ..c };
    assert forall|id: Seq<char>| #[trigger] c2.has(id) implies c2.node_wf(id) by {
        assert(c.has(id));
        assert(c.node_wf(id));
    }
    assert forall|m: MessageView| #[trigger] c2.network.contains(m) implies message_ok(c2, h, m) by {
        assert(c.network.contains(m));
        assert(message_ok(c, h, m));
    }
    assert forall|a: MessageView, b: MessageView|
        #![trigger c2.network.contains(a), c2.network.contains(b)]
        c2.network.contains(a) && c2.network.contains(b) && same_request(a, b) implies a == b by {
        assert(c.network.contains(a) && c.network.contains(b));
    }
    assert forall|id: Seq<char>| #[trigger] c2.has(id) implies node_ok(c2, h, id) by {
        assert(c.has(id));
        assert(node_ok(c, h, id));
    }
    assert forall|v: Seq<char>, t: nat| #[trigger] vote_ok(c2, h, v, t) by {
        assert(vote_ok(c, h, v, t));
    }
    assert forall|k: Seq<char>, t: nat| #[trigger] voters_ok(c2, h, k, t) by {
        assert(voters_ok(c, h, k, t));
    }
}

/// A cluster whose node has settled after a tick or a step is well-formed.
pub proof fn lemma_settle_wf(c: Cluster, id: Seq<char>, after: NodeView, network: Set<MessageView>)
    requires
        c.wf(),
        c.has(id),
        after.wf(),
        after.id == id,
        after.peers == c.nodes[id].peers,
    ensures
        c.settle(id, after, network).wf(),
        c.settle(id, after, network).nodes.dom() == c.nodes.dom(),
        forall|x: Seq<char>| #[trigger] c.settle(id, after, network).has(x) == c.has(x),
{
    let c2 = c.settle(id, after, network);
    assert(c2.nodes.dom() =~= c.nodes.dom());
    assert(c.node_wf(id));
    assert forall|x: Seq<char>| #[trigger] c2.has(x) implies c2.node_wf(x) by {
        assert(c.has(x));
        assert(c.node_wf(x));
    }
}

/// What a tick of node `id` makes of the record of the votes: a node that
/// starts an election votes for itself and counts that vote.
pub open spec fn tick_ballots(c: Cluster, h: Ballots, id: Seq<char>, timeout: nat) -> Ballots {
    let node = c.nodes[id];
    let after = node.tick(timeout);
    if after.term == node.term {
        h
    } else {
        Ballots {
            cast: h.cast.insert((id, after.term), id),
            counted: h.counted.insert((id, after.term), set![id]),
        }
    }
}

/// A cluster after a tick agrees with the record of its votes.
pub proof fn lemma_tick_inv(c: Cluster, h: Ballots, id: Seq<char>, timeout: nat)
    requires
        inv(c, h),
        c.has(id),
        valid_timeout(timeout),
    ensures
        inv(c.next(Action::Tick { id, timeout }), tick_ballots(c, h, id, timeout)),
{
    let node = c.nodes[id];
    let after = node.tick(timeout);
    let c2 = c.next(Action::Tick { id, timeout });
    let h2 = tick_ballots(c, h, id, timeout);
    assert(c.node_wf(id));
    lemma_tick_wf(node, timeout);
    lemma_tick_summary(node, timeout);
    law_tick_emits(node, timeout);
    lemma_settle_wf(c, id, after, c.network);
    assert(c2 == c.settle(id, after, c.network));
    let started = after.term != node.term;
    assert(vote_ok(c, h, id, after.term));
    assert(voters_ok(c, h, id, after.term));
    if started {
        assert(h.vote(id, after.term) is None);
        assert(h.voters(id, after.term) =~= Set::<Seq<char>>::empty()) by {
            if exists|v: Seq<char>| h.voters(id, after.term).contains(v) {
                let v = choose|v: Seq<char>| h.voters(id, after.term).contains(v);
                assert(h.voters(id, after.term).contains(v));
            }
        }
        assert(h2.voters(id, after.term) == set![id]);
    }
    // What is sent is neither a vote, nor a request but that of a new election.
    assert forall|m: MessageView| after.outbox.to_set().contains(m) implies {
        &&& m.from == Some(id)
        &&& m.to is Some
        &&& m.term == after.term
        &&& !(m.event is GrantVote)
        &&& m.event is SolicitVote ==> started && node.peers.contains(m.to->0) && m == after.message(
            m.to->0,
            EventView::SolicitVote {
                last_index: node.log.last_index(),
                last_term: node.log.last_term(),
            },
        )
    } by {
        let k = choose|k: int| 0 <= k < after.outbox.len() && after.outbox[k] == m;
        assert(after.outbox[k] == m);
    }
    assert forall|m: MessageView| #[trigger] c2.network.contains(m) implies message_ok(c2, h2, m) by {
        if c.network.contains(m) {
            assert(message_ok(c, h, m));
            if m.event is SolicitVote {
                assert(!after.outbox.to_set().contains(grant(m.to->0, m.from->0, m.term)));
            }
        } else {
            assert(after.outbox.to_set().contains(m));
            if m.event is SolicitVote {
                let p = m.to->0;
                assert(node.peers.to_set().contains(p));
                assert(c.nodes.dom().remove(id).contains(p));
                let g = grant(p, id, m.term);
                assert(!after.outbox.to_set().contains(g));
                if c.network.contains(g) {
                    assert(message_ok(c, h, g));
                }
            }
        }
    }
    assert forall|a: MessageView, b: MessageView|
        #![trigger c2.network.contains(a), c2.network.contains(b)]
        c2.network.contains(a) && c2.network.contains(b) && same_request(a, b) implies a == b by {
        if c.network.contains(a) {
            assert(message_ok(c, h, a));
        }
        if c.network.contains(b) {
            assert(message_ok(c, h, b));
        }
    }
    assert forall|x: Seq<char>| #[trigger] c2.has(x) implies node_ok(c2, h2, x) by {
        assert(c.has(x));
        assert(node_ok(c, h, x));
        assert(vote_ok(c, h, x, c.nodes[x].term));
        if started && x == id {
            assert(set![id].len() == 1) by {
                assert(set![id] =~= Set::<Seq<char>>::empty().insert(id));
            }
        }
    }
    assert forall|v: Seq<char>, t: nat| #[trigger] vote_ok(c2, h2, v, t) by {
        assert(vote_ok(c, h, v, t));
    }
    assert forall|k: Seq<char>, t: nat| #[trigger] voters_ok(c2, h2, k, t) by {
        assert(voters_ok(c, h, k, t));
        assert forall|v: Seq<char>| #[trigger] h2.voters(k, t).contains(v) implies {
            &&& c2.has(v)
            &&& c2.has(k)
            &&& t <= c2.nodes[k].term
            &&& h2.vote(v, t) == Some(k)
        } by {
            if started && k == id && t == after.term {
            } else {
                assert(h.voters(k, t).contains(v));
                assert(vote_ok(c, h, v, t));
            }
        }
    }
}

/// What the delivery of `msg` makes of the record of the votes: a follower
/// that grants its vote has cast it, and a candidate that counts a vote has
/// counted its sender.
pub open spec fn step_ballots(c: Cluster, h: Ballots, msg: MessageView, timeout: nat) -> Ballots {
    let id = msg.to->0;
    let node = c.nodes[id];
    match node.step(msg, timeout) {
        None => h,
        Some(after) => if grants_vote(node, after) {
            h.with_vote(id, after.term, msg.from->0)
        } else if node.role is Candidate && node.counts_vote(msg) && after.term == node.term {
            h.with_voter(id, node.term, msg.from->0)
        } else {
            h
        },
    }
}

/// A cluster after the delivery of a message agrees with the record of its
/// votes.
pub proof fn lemma_deliver_inv(c: Cluster, h: Ballots, msg: MessageView, timeout: nat)
    requires
        inv(c, h),
        c.enabled(Action::Deliver { msg, timeout }),
    ensures
        inv(c.next(Action::Deliver { msg, timeout }), step_ballots(c, h, msg, timeout)),
{
    let id = msg.to->0;
    let node = c.nodes[id];
    let c2 = c.next(Action::Deliver { msg, timeout });
    let h2 = step_ballots(c, h, msg, timeout);
    assert(c.node_wf(id));
    assert(message_ok(c, h, msg));
    match node.step(msg, timeout) {
        None => {
            lemma_lose_inv(c, h, msg);
        },
        Some(after) => {
            lemma_step_wf(node, msg, timeout);
            lemma_step_summary(node, msg, timeout);
            law_step_emits(node, msg, timeout);
            let rest = c.network.remove(msg);
            lemma_settle_wf(c, id, after, rest);
            assert(c2 == c.settle(id, after, rest));
            let from = msg.from->0;
            let granted = grants_vote(node, after);
            let counted = !granted && node.role is Candidate && node.counts_vote(msg) && after.term
                == node.term;
            assert(node_ok(c, h, id));
            assert(vote_ok(c, h, id, after.term));
            assert(voters_ok(c, h, id, node.term));
            assert forall|m: MessageView| after.outbox.to_set().contains(m) implies {
                &&& m.from == Some(id)
                &&& m.to is Some
                &&& m.term == after.term
                &&& !(m.event is SolicitVote)
                &&& m.event is GrantVote ==> granted && m == grant(id, from, after.term)
            } by {
                let k = choose|k: int| 0 <= k < after.outbox.len() && after.outbox[k] == m;
                assert(after.outbox[k] == m);
            }
            if granted {
                assert(h2 == h.with_vote(id, after.term, from));
                assert(h2.vote(id, after.term) == Some(from));
                assert(h.vote(id, after.term) is Some ==> h.vote(id, after.term) == Some(from));
            }
            if counted {
                assert(msg.event is GrantVote);
                assert(msg.term == node.term);
                assert(msg == grant(from, id, node.term));
                assert(h2 == h.with_voter(id, node.term, from));
                assert(h2.voters(id, node.term) == h.voters(id, node.term).insert(from));
                assert(!h.voters(id, node.term).contains(from));
            }
            assert forall|m: MessageView| #[trigger] c2.network.contains(m) implies message_ok(
                c2,
                h2,
                m,
            ) by {
                if rest.contains(m) {
                    assert(c.network.contains(m));
                    assert(message_ok(c, h, m));
                    assert(vote_ok(c, h, m.from->0, m.term));
                    if m.event is SolicitVote {
                        let g = grant(m.to->0, m.from->0, m.term);
                        if after.outbox.to_set().contains(g) {
                            assert(same_request(m, msg));
                        }
                    }
                } else {
                    assert(after.outbox.to_set().contains(m));
                }
            }
            assert forall|a: MessageView, b: MessageView|
                #![trigger c2.network.contains(a), c2.network.contains(b)]
                c2.network.contains(a) && c2.network.contains(b) && same_request(a, b) implies a
                == b by {
                assert(c.network.contains(a) && c.network.contains(b));
            }
            assert forall|x: Seq<char>| #[trigger] c2.has(x) implies node_ok(c2, h2, x) by {
                assert(c.has(x));
                assert(node_ok(c, h, x));
                assert(vote_ok(c, h, x, c.nodes[x].term));
                assert(voters_ok(c, h, x, c.nodes[x].term));
            }
            assert forall|v: Seq<char>, t: nat| #[trigger] vote_ok(c2, h2, v, t) by {
                assert(vote_ok(c, h, v, t));
            }
            assert forall|k: Seq<char>, t: nat| #[trigger] voters_ok(c2, h2, k, t) by {
                assert(voters_ok(c, h, k, t));
                assert forall|v: Seq<char>| #[trigger] h2.voters(k, t).contains(v) implies {
                    &&& c2.has(v)
                    &&& c2.has(k)
                    &&& t <= c2.nodes[k].term
                    &&& h2.vote(v, t) == Some(k)
                } by {
                    if counted && k == id && t == node.term && v == from {
                    } else {
                        assert(h.voters(k, t).contains(v));
                        assert(vote_ok(c, h, v, t));
                    }
                }
            }
        },
    }
}

/// A cluster after a leader has been handed a command agrees with the
/// record of its votes.
pub proof fn lemma_propose_inv(c: Cluster, h: Ballots, id: Seq<char>, command: Seq<u8>)
    requires
        inv(c, h),
        c.enabled(Action::Propose { id, command }),
    ensures
        inv(c.next(Action::Propose { id, command }), h),
{
    let node = c.nodes[id];
    let after = node.leader_append(node.role->Leader_0, Some(command));
    let c2 = c.next(Action::Propose { id, command });
    assert(c.node_wf(id));
    lemma_leader_append(node, Some(command));
    lemma_settle_wf(c, id, after, c.network);
    assert(c2 == c.settle(id, after, c.network));
    assert forall|m: MessageView| after.outbox.to_set().contains(m) implies {
        &&& m.from == Some(id)
        &&& m.to is Some
        &&& m.term == after.term
        &&& m.event is ReplicateEntries
    } by {
        let k = choose|k: int| 0 <= k < after.outbox.len() && after.outbox[k] == m;
        assert(after.outbox[k] == m);
    }
    assert forall|m: MessageView| #[trigger] c2.network.contains(m) implies message_ok(c2, h, m) by {
        if c.network.contains(m) {
            assert(message_ok(c, h, m));
            if m.event is SolicitVote {
                assert(!after.outbox.to_set().contains(grant(m.to->0, m.from->0, m.term)));
            }
        } else {
            assert(after.outbox.to_set().contains(m));
        }
    }
    assert forall|a: MessageView, b: MessageView|
        #![trigger c2.network.contains(a), c2.network.contains(b)]
        c2.network.contains(a) && c2.network.contains(b) && same_request(a, b) implies a == b by {
        assert(c.network.contains(a) && c.network.contains(b));
    }
    assert forall|x: Seq<char>| #[trigger] c2.has(x) implies node_ok(c2, h, x) by {
        assert(c.has(x));
        assert(node_ok(c, h, x));
    }
    assert forall|v: Seq<char>, t: nat| #[trigger] vote_ok(c2, h, v, t) by {
        assert(vote_ok(c, h, v, t));
    }
    assert forall|k: Seq<char>, t: nat| #[trigger] voters_ok(c2, h, k, t) by {
        assert(voters_ok(c, h, k, t));
    }
}

/// What the actions of an execution make of the record of the votes.
pub open spec fn ballots_after(c: Cluster, actions: Seq<Action>) -> Ballots
    decreases actions.len(),
{
    if actions.len() == 0 {
        first_ballots(c)
    } else {
        let at = c.play(actions.drop_last());
        let h = ballots_after(c, actions.drop_last());
        match actions.last() {
            Action::Tick { id, timeout } => tick_ballots(at, h, id, timeout),
            Action::Deliver { msg, timeout } => step_ballots(at, h, msg, timeout),
            Action::Drop { msg } => h,
            Action::Propose { id, command } => h,
        }
    }
}

/// A cluster agrees with the record of its votes after every execution.
pub proof fn lemma_play_inv(c: Cluster, actions: Seq<Action>)
    requires
        c.init(),
        c.playable(actions),
    ensures
        inv(c.play(actions), ballots_after(c, actions)),
    decreases actions.len(),
{
    if actions.len() == 0 {
        lemma_init_inv(c);
    } else {
        lemma_play_inv(c, actions.drop_last());
        let at = c.play(actions.drop_last());
        let h = ballots_after(c, actions.drop_last());
        match actions.last() {
            Action::Tick { id, timeout } => lemma_tick_inv(at, h, id, timeout),
            Action::Deliver { msg, timeout } => lemma_deliver_inv(at, h, msg, timeout),
            Action::Drop { msg } => lemma_lose_inv(at, h, msg),
            Action::Propose { id, command } => lemma_propose_inv(at, h, id, command),
        }
    }
}

/// At most one leader per term: in a cluster that starts with followers
/// only, whatever ticks, deliveries, losses and commands follow, no two nodes
/// lead in the same term.
pub proof fn law_election_safety(c: Cluster, actions: Seq<Action>)
    requires
        c.init(),
        c.playable(actions),
    ensures
        c.play(actions).election_safe(),
{
    lemma_play_inv(c, actions);
    lemma_inv_safe(c.play(actions), ballots_after(c, actions));
}

/// Quorum necessity in a cluster: a node that leads has counted, in its
/// term, the votes of a quorum of distinct nodes of the cluster, each of
/// which cast its vote of that term for this node.
pub proof fn law_leaders_were_elected(c: Cluster, actions: Seq<Action>, id: Seq<char>)
    requires
        c.init(),
        c.playable(actions),
        c.play(actions).has(id),
        c.play(actions).nodes[id].role is Leader,
    ensures
        ({
            let node = c.play(actions).nodes[id];
            let votes = ballots_after(c, actions);
            let voters = votes.voters(id, node.term);
            &&& voters.finite()
            &&& voters.len() >= node.quorum()
            &&& forall|v: Seq<char>| #[trigger]
                voters.contains(v) ==> c.play(actions).has(v) && votes.vote(v, node.term) == Some(id)
        }),
{
    lemma_play_inv(c, actions);
    let now = c.play(actions);
    let votes = ballots_after(c, actions);
    assert(node_ok(now, votes, id));
    assert(voters_ok(now, votes, id, now.nodes[id].term));
}

} // verus!
