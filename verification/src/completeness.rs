//! Leader completeness: in a cluster, an entry that a leader has committed
//! in its term is in the log of every leader of a later term.
//!
//! The proof keeps, for every node and term, how far the node has held the
//! log of the leader of that term while it was in the term, and for every
//! candidate and term the log that the candidate campaigned with. A leader
//! commits what a quorum holds; a later leader was voted for by a quorum;
//! the two share a node, which held the entry when it voted, and votes only
//! for a log that is at least as up to date as its own.

use crate::cluster::{Action, Cluster};
use crate::election::{
    ballots_after, first_ballots, grant, lemma_cluster_size, lemma_deliver_inv, lemma_quorums_meet,
    message_ok, step_ballots, tick_ballots, vote_ok, voters_ok, Ballots,
};
use crate::laws::{
    accepted, grants_vote, law_step_emits, lemma_grant_up_to_date, lemma_leader_append, lemma_leader_stays,
    lemma_splice_holds, lemma_splice_keeps, lemma_step_acks_summary, lemma_step_log_summary,
    lemma_step_summary, lemma_step_wf, lemma_tick_kinds, lemma_tick_log_summary, lemma_tick_summary,
    lemma_tick_wf,
};
use crate::matching::{
    entry_ok, follows, grown, leader_ok, led_ok, ledger_ok, ledgers_after, lemma_deliver_inv2,
    lemma_follows_grown, lemma_genesis_inv, lemma_grown_same, lemma_lose_inv2, lemma_new_leader,
    lemma_propose_inv2, lemma_tick_inv2, no_ledgers, propose_ledgers, replicate_ok, step_ledgers,
    term_before, Ledgers,
};
use crate::model::{
    quorum, replicated, up_to_date, valid_timeout, EntryView, EventView, MessageView, NodeView,
    };
use vstd::prelude::*;
use vstd::set_lib::lemma_len_subset;

verus! {

/// What the nodes of a cluster have held and campaigned with: for a node and
/// a term, the index up to which the node has held the ledger of the term
/// while it was in the term; for a candidate and a term, the log that the
/// candidate campaigned with.
pub struct Annals {
    pub acks: Map<(Seq<char>, nat), nat>,
    pub campaigns: Map<(Seq<char>, nat), Seq<EntryView>>,
}

impl Annals {
    pub open spec fn acked(self, node: Seq<char>, term: nat) -> nat {
        if self.acks.dom().contains((node, term)) {
            self.acks[(node, term)]
        } else {
            0
        }
    }

    pub open spec fn campaign(self, candidate: Seq<char>, term: nat) -> Option<Seq<EntryView>> {
        if self.campaigns.dom().contains((candidate, term)) {
            Some(self.campaigns[(candidate, term)])
        } else {
            None
        }
    }

    pub open spec fn with_ack(self, node: Seq<char>, term: nat, index: nat) -> Annals {
        Annals { acks: self.acks.insert((node, term), index), ..self }
    }

    pub open spec fn with_campaign(self, candidate: Seq<char>, term: nat, log: Seq<EntryView>) -> Annals {
        Annals { campaigns: self.campaigns.insert((candidate, term), log), ..self }
    }
}

/// Whether `log` holds an entry of `term` at `index`.
pub open spec fn has_entry(log: Seq<EntryView>, index: nat, term: nat) -> bool {
    1 <= index <= log.len() && log[index - 1].term == term
}

/// Whether the leader of `term` created entry `index` in its term.
pub open spec fn own_entry(g: Ledgers, term: nat, index: nat) -> bool {
    g.has(term) && has_entry(g.log(term), index, term)
}

/// Whether the ledgers of the terms behind `term`, up to `last`, hold the
/// entry that the leader of `term` created at `index`.
pub open spec fn kept_upto(g: Ledgers, term: nat, last: nat, index: nat) -> bool {
    forall|y: nat| #[trigger] g.has(y) && term < y <= last ==> has_entry(g.log(y), index, term)
}

/// Whether the terms of `log` never fall.
pub open spec fn rising(log: Seq<EntryView>) -> bool {
    forall|i: int, j: int| 0 <= i <= j < log.len() ==> (#[trigger] log[i]).term <= (#[trigger] log[j]).term
}

/// The nodes that have held the ledger of `term` up to `index`.
pub open spec fn ackers(c: Cluster, a: Annals, term: nat, index: nat) -> Set<Seq<char>> {
    c.nodes.dom().filter(|v: Seq<char>| a.acked(v, term) >= index)
}

/// The quorum of a cluster.
pub open spec fn cluster_quorum(c: Cluster) -> nat {
    quorum((c.nodes.dom().len() - 1) as nat)
}

/// Whether a quorum has held the ledger of `term` up to `index`.
pub open spec fn quorum_acked(c: Cluster, a: Annals, term: nat, index: nat) -> bool {
    ackers(c, a, term, index).len() >= cluster_quorum(c)
}

/// What holds of what a node has held of the ledger of `term`: the node has
/// reached the term, the ledger goes that far, and the node still holds an
/// entry that the leader of `term` created, as long as the ledgers of the
/// later terms that the node has reached hold it.
pub open spec fn ack_ok(c: Cluster, g: Ledgers, a: Annals, v: Seq<char>, term: nat, index: nat) -> bool {
    a.acked(v, term) > 0 ==> {
        &&& c.has(v)
        &&& term <= c.nodes[v].term
        &&& g.has(term)
        &&& a.acked(v, term) <= g.log(term).len()
        &&& own_entry(g, term, index) && index <= a.acked(v, term) && kept_upto(
            g,
            term,
            c.nodes[v].term,
            index,
        ) ==> has_entry(c.nodes[v].log.entries, index, term)
    }
}

/// Whether the vote of `v` for `candidate` in `term` vouches for the log
/// that the candidate campaigned with: the log holds every entry that `v`
/// held of an earlier leader's own, as long as the ledgers of the terms in
/// between hold it.
pub open spec fn vouches(g: Ledgers, a: Annals, v: Seq<char>, candidate: Seq<char>, term: nat) -> bool {
    &&& a.campaign(candidate, term) is Some
    &&& forall|t: nat, n: nat|
        #![trigger own_entry(g, t, n)]
        t < term && own_entry(g, t, n) && n <= a.acked(v, t) && kept_upto(g, t, (term - 1) as nat, n)
            ==> has_entry(a.campaign(candidate, term)->0, n, t)
}

/// What holds of the log that `candidate` campaigned with in `term`: it
/// follows the ledgers with entries of earlier terms, it is the log of the
/// candidate while the candidate campaigns, and the ledger of the term
/// starts with it where the candidate has won.
pub open spec fn campaign_ok(c: Cluster, g: Ledgers, a: Annals, candidate: Seq<char>, term: nat) -> bool {
    &&& a.campaign(candidate, term) matches Some(log) ==> {
        &&& term >= 1
        &&& forall|i: int| 0 <= i < log.len() ==> follows(g, log, i) && (#[trigger] log[i]).term < term
        &&& g.has(term) && g.leader(term) == candidate ==> log.len() <= g.log(term).len() && g.log(
            term,
        ).take(log.len() as int) == log
    }
    &&& c.has(candidate) && c.nodes[candidate].role is Candidate && c.nodes[candidate].term == term ==> a.campaign(
        candidate,
        term,
    ) == Some(c.nodes[candidate].log.entries)
    &&& g.has(term) && g.leader(term) == candidate ==> a.campaign(candidate, term) is Some
}

/// What holds of a message in flight: a request for a vote names the end of
/// the log that its sender campaigned with; a vote vouches for that log,
/// unless the term has a leader; accepted entries have been held.
pub open spec fn mail_ok(g: Ledgers, a: Annals, m: MessageView) -> bool {
    &&& m.event matches EventView::SolicitVote { last_index, last_term } ==> {
        &&& a.campaign(m.from->0, m.term) matches Some(log)
        &&& last_index == log.len()
        &&& last_term == term_before(log, log.len())
    }
    &&& m.event is GrantVote ==> g.has(m.term) || vouches(g, a, m.from->0, m.to->0, m.term)
    &&& m.event matches EventView::AcceptEntries { last_index } ==> last_index <= a.acked(m.from->0, m.term)
}

/// What holds of a vote that was counted: it vouches for the log of the
/// candidate, unless another node leads the term.
pub open spec fn voter_ok(h: Ballots, g: Ledgers, a: Annals, candidate: Seq<char>, term: nat, v: Seq<char>) -> bool {
    h.voters(candidate, term).contains(v) ==> (g.has(term) && g.leader(term) != candidate) || vouches(
        g,
        a,
        v,
        candidate,
        term,
    )
}

/// What holds of a leader: it has held its whole log; each peer has held
/// what the leader knows it to hold; and a quorum has held the entry of the
/// leader's own that the leader has committed.
pub open spec fn lead_ok(c: Cluster, a: Annals, id: Seq<char>) -> bool {
    c.has(id) && c.nodes[id].role is Leader ==> {
        let node = c.nodes[id];
        let l = node.role->Leader_0;
        &&& a.acked(id, node.term) == node.log.entries.len()
        &&& forall|i: int|
            0 <= i < node.peers.len() ==> (#[trigger] l.peer_last_index[i]) <= a.acked(
                node.peers[i],
                node.term,
            )
        &&& has_entry(node.log.entries, node.log.commit_index, node.term) ==> quorum_acked(
            c,
            a,
            node.term,
            node.log.commit_index,
        )
    }
}

/// What holds of a ledger: its term is not 0, and its terms never fall.
pub open spec fn rising_ok(g: Ledgers, term: nat) -> bool {
    g.has(term) ==> term >= 1 && rising(g.log(term))
}

/// The cluster, the votes, the ledgers and the annals agree.
pub open spec fn inv(c: Cluster, h: Ballots, g: Ledgers, a: Annals) -> bool {
    &&& crate::matching::inv(c, h, g)
    &&& forall|term: nat| #[trigger] rising_ok(g, term)
    &&& forall|v: Seq<char>, term: nat, index: nat| #[trigger] ack_ok(c, g, a, v, term, index)
    &&& forall|k: Seq<char>, term: nat| #[trigger] campaign_ok(c, g, a, k, term)
    &&& forall|m: MessageView| #[trigger] c.network.contains(m) ==> mail_ok(g, a, m)
    &&& forall|k: Seq<char>, term: nat, v: Seq<char>| #[trigger] voter_ok(h, g, a, k, term, v)
    &&& forall|id: Seq<char>| #[trigger] lead_ok(c, a, id)
}

/// Every later ledger holds an entry that a leader created and a quorum has
/// held.
pub proof fn lemma_later_ledgers_hold(
    c: Cluster,
    h: Ballots,
    g: Ledgers,
    a: Annals,
    term: nat,
    index: nat,
    later: nat,
)
    requires
        inv(c, h, g, a),
        own_entry(g, term, index),
        quorum_acked(c, a, term, index),
        g.has(later),
        term < later,
    ensures
        has_entry(g.log(later), index, term),
    decreases later,
{
    // The ledgers in between hold the entry.
    assert forall|y: nat| #[trigger] g.has(y) && term < y <= (later - 1) as nat implies has_entry(
        g.log(y),
        index,
        term,
    ) by {
        lemma_later_ledgers_hold(c, h, g, a, term, index, y);
    }
    assert(kept_upto(g, term, (later - 1) as nat, index));
    let leader = g.leader(later);
    assert(led_ok(c, h, g, later));
    assert(voters_ok(c, h, leader, later));
    lemma_cluster_size(c, leader);
    let held = ackers(c, a, term, index);
    let v = lemma_quorums_meet(
        c.nodes.dom(),
        h.voters(leader, later),
        held,
        c.nodes[leader].quorum(),
    );
    assert(voter_ok(h, g, a, leader, later, v));
    assert(vouches(g, a, v, leader, later));
    assert(campaign_ok(c, g, a, leader, later));
    let log = a.campaign(leader, later)->0;
    assert(has_entry(log, index, term));
    assert(g.log(later).take(log.len() as int)[index - 1] == g.log(later)[index - 1]);
}

/// Whether what the ledger of `term` has grown by are entries of `term`.
pub open spec fn tail_own(g: Ledgers, g2: Ledgers, term: nat) -> bool {
    g.has(term) ==> forall|i: int|
        g.log(term).len() <= i < g2.log(term).len() ==> (#[trigger] g2.log(term)[i]).term == term
}

/// What the grown ledgers hold of an earlier leader's own, the ledgers held
/// before they grew.
pub proof fn lemma_kept_shrinks(g: Ledgers, g2: Ledgers, grew: nat, term: nat, last: nat, last2: nat, index: nat)
    requires
        grown(g, g2, grew),
        tail_own(g, g2, grew),
        last <= last2,
        kept_upto(g2, term, last2, index),
    ensures
        kept_upto(g, term, last, index),
{
    assert forall|y: nat| #[trigger] g.has(y) && term < y <= last implies has_entry(
        g.log(y),
        index,
        term,
    ) by {
        assert(g2.has(y));
        assert(has_entry(g2.log(y), index, term));
        if y == grew {
            if index > g.log(y).len() {
                assert(g2.log(y)[index - 1].term == y);
            }
            assert(g2.log(y).take(g.log(y).len() as int)[index - 1] == g2.log(y)[index - 1]);
        }
    }
}

/// An entry of a leader's own within what the ledger held before it grew was
/// the leader's own before.
pub proof fn lemma_own_entry_back(g: Ledgers, g2: Ledgers, grew: nat, term: nat, index: nat)
    requires
        grown(g, g2, grew),
        own_entry(g2, term, index),
        g.has(term),
        index <= g.log(term).len(),
    ensures
        own_entry(g, term, index),
{
    if term == grew {
        assert(g2.log(term).take(g.log(term).len() as int)[index - 1] == g2.log(term)[index - 1]);
    }
}

/// What a node has held stays in order where the ledgers grow, the node
/// moves on in term, and its log keeps the entries that it held.
pub proof fn lemma_ack_frame(
    c: Cluster,
    c2: Cluster,
    g: Ledgers,
    g2: Ledgers,
    a: Annals,
    a2: Annals,
    grew: nat,
    v: Seq<char>,
    term: nat,
    index: nat,
)
    requires
        ack_ok(c, g, a, v, term, index),
        grown(g, g2, grew),
        tail_own(g, g2, grew),
        c2.has(v) == c.has(v),
        c.has(v) ==> c.nodes[v].term <= c2.nodes[v].term,
        a2.acked(v, term) == a.acked(v, term),
        c.has(v) && has_entry(c.nodes[v].log.entries, index, term) ==> has_entry(
            c2.nodes[v].log.entries,
            index,
            term,
        ),
    ensures
        ack_ok(c2, g2, a2, v, term, index),
{
    if a.acked(v, term) > 0 {
        if own_entry(g2, term, index) && index <= a2.acked(v, term) && kept_upto(
            g2,
            term,
            c2.nodes[v].term,
            index,
        ) {
            lemma_own_entry_back(g, g2, grew, term, index);
            lemma_kept_shrinks(g, g2, grew, term, c.nodes[v].term, c2.nodes[v].term, index);
        }
    }
}

/// A vote keeps vouching for the log of its candidate where the ledgers
/// grow and the voter has held no more in the terms before the vote.
pub proof fn lemma_vouches_frame(
    c: Cluster,
    g: Ledgers,
    g2: Ledgers,
    a: Annals,
    a2: Annals,
    grew: nat,
    v: Seq<char>,
    candidate: Seq<char>,
    term: nat,
)
    requires
        vouches(g, a, v, candidate, term),
        grown(g, g2, grew),
        tail_own(g, g2, grew),
        a2.campaign(candidate, term) == a.campaign(candidate, term),
        forall|t: nat| t < term ==> #[trigger] a2.acked(v, t) == a.acked(v, t),
        forall|t: nat, n: nat| #[trigger] ack_ok(c, g, a, v, t, n),
    ensures
        vouches(g2, a2, v, candidate, term),
{
    assert forall|t: nat, n: nat|
        #![trigger own_entry(g2, t, n)]
        t < term && own_entry(g2, t, n) && n <= a2.acked(v, t) && kept_upto(
            g2,
            t,
            (term - 1) as nat,
            n,
        ) implies has_entry(a2.campaign(candidate, term)->0, n, t) by {
        assert(a2.acked(v, t) == a.acked(v, t));
        assert(ack_ok(c, g, a, v, t, n));
        lemma_own_entry_back(g, g2, grew, t, n);
        lemma_kept_shrinks(g, g2, grew, t, (term - 1) as nat, (term - 1) as nat, n);
        assert(own_entry(g, t, n));
    }
}

/// The nodes that have held an entry are not fewer where no node has held
/// less.
pub proof fn lemma_ackers_grow(c: Cluster, c2: Cluster, a: Annals, a2: Annals, term: nat, index: nat)
    requires
        c.nodes.dom().finite(),
        c2.nodes.dom() == c.nodes.dom(),
        forall|v: Seq<char>| #[trigger] a2.acked(v, term) >= a.acked(v, term),
        quorum_acked(c, a, term, index),
    ensures
        quorum_acked(c2, a2, term, index),
{
    let before = ackers(c, a, term, index);
    let after = ackers(c2, a2, term, index);
    assert forall|v: Seq<char>| before.contains(v) implies after.contains(v) by {
        assert(a2.acked(v, term) >= a.acked(v, term));
    }
    vstd::set_lib::lemma_set_subset_finite(c2.nodes.dom(), after);
    lemma_len_subset(before, after);
}

/// A cluster that loses a message, or whose node fails on one, still agrees
/// with the annals.
pub proof fn lemma_lose_inv3(c: Cluster, h: Ballots, g: Ledgers, a: Annals, msg: MessageView)
    requires
        inv(c, h, g, a),
    ensures
        inv(Cluster { network: c.network.remove(msg), ..c }, h, g, a),
{
    let c2 = Cluster { network: c.network.remove(msg), ..c };
    lemma_lose_inv2(c, h, g, msg);
    assert forall|term: nat| #[trigger] rising_ok(g, term) by {
        assert(rising_ok(g, term));
    }
    assert forall|v: Seq<char>, term: nat, index: nat| #[trigger] ack_ok(c2, g, a, v, term, index) by {
        assert(ack_ok(c, g, a, v, term, index));
    }
    assert forall|k: Seq<char>, term: nat| #[trigger] campaign_ok(c2, g, a, k, term) by {
        assert(campaign_ok(c, g, a, k, term));
    }
    assert forall|m: MessageView| #[trigger] c2.network.contains(m) implies mail_ok(g, a, m) by {
        assert(c.network.contains(m));
    }
    assert forall|k: Seq<char>, term: nat, v: Seq<char>| #[trigger] voter_ok(h, g, a, k, term, v) by {
        assert(voter_ok(h, g, a, k, term, v));
    }
    assert forall|id: Seq<char>| #[trigger] lead_ok(c2, a, id) by {
        assert(lead_ok(c, a, id));
        if c2.has(id) && c2.nodes[id].role is Leader {
            assert(ackers(c2, a, c.nodes[id].term, c.nodes[id].log.commit_index) == ackers(
                c,
                a,
                c.nodes[id].term,
                c.nodes[id].log.commit_index,
            ));
        }
    }
}

/// What a tick makes of the annals: a node that starts an election
/// campaigns with its log.
pub open spec fn tick_annals(c: Cluster, a: Annals, id: Seq<char>, timeout: nat) -> Annals {
    let node = c.nodes[id];
    let after = node.tick(timeout);
    if after.term == node.term {
        a
    } else {
        a.with_campaign(id, after.term, node.log.entries)
    }
}

/// A cluster after a tick agrees with the annals.
pub proof fn lemma_tick_inv3(c: Cluster, h: Ballots, g: Ledgers, a: Annals, id: Seq<char>, timeout: nat)
    requires
        inv(c, h, g, a),
        c.has(id),
        valid_timeout(timeout),
    ensures
        inv(
            c.next(Action::Tick { id, timeout }),
            tick_ballots(c, h, id, timeout),
            g,
            tick_annals(c, a, id, timeout),
        ),
{
    let node = c.nodes[id];
    let after = node.tick(timeout);
    let c2 = c.next(Action::Tick { id, timeout });
    let h2 = tick_ballots(c, h, id, timeout);
    let a2 = tick_annals(c, a, id, timeout);
    let started = after.term != node.term;
    lemma_tick_inv2(c, h, g, id, timeout);
    assert(c.node_wf(id));
    lemma_tick_wf(node, timeout);
    lemma_tick_summary(node, timeout);
    lemma_tick_log_summary(node, timeout);
    lemma_tick_kinds(node, timeout);
    assert(c2 == c.settle(id, after, c.network));
    assert(c2.nodes.dom() =~= c.nodes.dom());
    lemma_grown_same(g, 0);
    assert(led_ok(c, h, g, after.term));
    assert forall|term: nat| #[trigger] rising_ok(g, term) by {
        assert(rising_ok(g, term));
    }
    assert forall|v: Seq<char>, term: nat, index: nat| #[trigger] ack_ok(c2, g, a2, v, term, index) by {
        assert(ack_ok(c, g, a, v, term, index));
        lemma_ack_frame(c, c2, g, g, a, a2, 0, v, term, index);
    }
    assert forall|k: Seq<char>, term: nat| #[trigger] campaign_ok(c2, g, a2, k, term) by {
        assert(campaign_ok(c, g, a, k, term));
        assert(leader_ok(c, g, k));
        if started && k == id && term == after.term {
            let log = node.log.entries;
            assert forall|i: int| 0 <= i < log.len() implies follows(g, log, i) && (#[trigger] log[i]).term
                < term by {
                assert(entry_ok(c, g, id, i));
            }
        }
    }
    assert forall|m: MessageView| #[trigger] c2.network.contains(m) implies mail_ok(g, a2, m) by {
        if c.network.contains(m) {
            assert(mail_ok(g, a, m));
            assert(message_ok(c, h, m));
            if m.event is GrantVote {
                if !g.has(m.term) {
                    lemma_vouches_frame(c, g, g, a, a2, 0, m.from->0, m.to->0, m.term);
                }
            }
        } else {
            assert(after.outbox.to_set().contains(m));
            let k = choose|k: int| 0 <= k < after.outbox.len() && after.outbox[k] == m;
            assert(after.outbox[k] == m);
        }
    }
    assert forall|k: Seq<char>, term: nat, v: Seq<char>| #[trigger] voter_ok(h2, g, a2, k, term, v) by {
        assert(voter_ok(h, g, a, k, term, v));
        assert(voters_ok(c, h, k, term));
        if h2.voters(k, term).contains(v) {
            if started && k == id && term == after.term {
                assert(h2.voters(k, term) == set![id]);
                assert(v == id);
                if !g.has(term) {
                    assert forall|t: nat, n: nat|
                        #![trigger own_entry(g, t, n)]
                        t < term && own_entry(g, t, n) && n <= a2.acked(id, t) && kept_upto(
                            g,
                            t,
                            (term - 1) as nat,
                            n,
                        ) implies has_entry(a2.campaign(id, term)->0, n, t) by {
                        assert(ack_ok(c, g, a, id, t, n));
                    }
                }
            } else {
                assert(h.voters(k, term).contains(v));
                if !(g.has(term) && g.leader(term) != k) {
                    lemma_vouches_frame(c, g, g, a, a2, 0, v, k, term);
                }
            }
        }
    }
    assert forall|x: Seq<char>| #[trigger] lead_ok(c2, a2, x) by {
        assert(lead_ok(c, a, x));
        if c2.has(x) && c2.nodes[x].role is Leader {
            let at = c.nodes[x];
            lemma_ackers_same(c, c2, a, a2, at.term, at.log.commit_index);
        }
    }
}

/// The nodes that have held an entry are the same where the nodes and what
/// they have held are the same.
pub proof fn lemma_ackers_same(c: Cluster, c2: Cluster, a: Annals, a2: Annals, term: nat, index: nat)
    requires
        c2.nodes.dom() == c.nodes.dom(),
        a2.acks == a.acks,
    ensures
        ackers(c2, a2, term, index) == ackers(c, a, term, index),
        quorum_acked(c2, a2, term, index) == quorum_acked(c, a, term, index),
{
    assert(ackers(c2, a2, term, index) =~= ackers(c, a, term, index));
}

/// A sequence of terms that never fall, with an entry of a term that none
/// of them exceeds at its end, never falls.
pub proof fn lemma_rising_push(log: Seq<EntryView>, entry: EntryView)
    requires
        rising(log),
        forall|i: int| 0 <= i < log.len() ==> (#[trigger] log[i]).term <= entry.term,
    ensures
        rising(log.push(entry)),
{
}

/// What a command for a leader makes of the annals: the leader has held its
/// log with the entry that it appends.
pub open spec fn propose_annals(c: Cluster, a: Annals, id: Seq<char>) -> Annals {
    let node = c.nodes[id];
    a.with_ack(id, node.term, node.log.entries.len() + 1)
}

/// A cluster after a leader has been handed a command agrees with the
/// annals.
pub proof fn lemma_propose_inv3(c: Cluster, h: Ballots, g: Ledgers, a: Annals, id: Seq<char>, command: Seq<u8>)
    requires
        inv(c, h, g, a),
        c.enabled(Action::Propose { id, command }),
    ensures
        inv(
            c.next(Action::Propose { id, command }),
            h,
            propose_ledgers(c, g, id, command),
            propose_annals(c, a, id),
        ),
{
    let node = c.nodes[id];
    let term = node.term;
    let after = node.leader_append(node.role->Leader_0, Some(command));
    let c2 = c.next(Action::Propose { id, command });
    let g2 = propose_ledgers(c, g, id, command);
    let a2 = propose_annals(c, a, id);
    lemma_propose_inv2(c, h, g, id, command);
    assert(c.node_wf(id));
    lemma_leader_append(node, Some(command));
    assert(c2 == c.settle(id, after, c.network));
    assert(c2.nodes.dom() =~= c.nodes.dom());
    assert(leader_ok(c, g, id));
    assert(lead_ok(c, a, id));
    assert(g2.log(term) == after.log.entries);
    assert(g2.log(term).take(g.log(term).len() as int) =~= g.log(term));
    assert(grown(g, g2, term));
    assert(tail_own(g, g2, term));
    assert forall|t: nat| #[trigger] rising_ok(g2, t) by {
        assert(rising_ok(g, t));
        if t == term {
            assert forall|i: int| 0 <= i < node.log.entries.len() implies (
            #[trigger] node.log.entries[i]).term <= term by {
                assert(ledger_ok(g, term, i));
            }
            lemma_rising_push(node.log.entries, EntryView { term, command: Some(command) });
        }
    }
    assert forall|v: Seq<char>, t: nat, index: nat| #[trigger] ack_ok(c2, g2, a2, v, t, index) by {
        assert(ack_ok(c, g, a, v, t, index));
        if v == id && t == term {
        } else {
            lemma_ack_frame(c, c2, g, g2, a, a2, term, v, t, index);
        }
    }
    assert forall|k: Seq<char>, t: nat| #[trigger] campaign_ok(c2, g2, a2, k, t) by {
        assert(campaign_ok(c, g, a, k, t));
        if let Some(log) = a.campaign(k, t) {
            assert forall|i: int| 0 <= i < log.len() implies follows(g2, log, i) && (#[trigger] log[i]).term
                < t by {
                lemma_follows_grown(g, g2, log, i, term);
            }
            if g2.has(t) && g2.leader(t) == k && t == term {
                assert(g2.log(t).take(log.len() as int) =~= g.log(t).take(log.len() as int));
            }
        }
    }
    assert forall|m: MessageView| #[trigger] c2.network.contains(m) implies mail_ok(g2, a2, m) by {
        if c.network.contains(m) {
            assert(mail_ok(g, a, m));
            assert(message_ok(c, h, m));
            if m.event is GrantVote && !g.has(m.term) {
                lemma_vouches_frame(c, g, g2, a, a2, term, m.from->0, m.to->0, m.term);
            }
        } else {
            assert(after.outbox.to_set().contains(m));
            let k = choose|k: int| 0 <= k < after.outbox.len() && after.outbox[k] == m;
            assert(after.outbox[k] == m);
        }
    }
    assert forall|k: Seq<char>, t: nat, v: Seq<char>| #[trigger] voter_ok(h, g2, a2, k, t, v) by {
        assert(voter_ok(h, g, a, k, t, v));
        assert(voters_ok(c, h, k, t));
        if h.voters(k, t).contains(v) && !(g.has(t) && g.leader(t) != k) {
            assert(vote_ok(c, h, v, t));
            lemma_vouches_frame(c, g, g2, a, a2, term, v, k, t);
        }
    }
    assert forall|x: Seq<char>| #[trigger] lead_ok(c2, a2, x) by {
        assert(lead_ok(c, a, x));
        assert(leader_ok(c, g, x));
        if c2.has(x) && c2.nodes[x].role is Leader {
            let at = c.nodes[x];
            assert(c.node_wf(x));
            if x != id {
                assert(at.term != term);
            }
            if has_entry(c2.nodes[x].log.entries, c2.nodes[x].log.commit_index, c2.nodes[x].term) {
                assert(has_entry(at.log.entries, at.log.commit_index, at.term));
                assert forall|v: Seq<char>| #[trigger] a2.acked(v, at.term) >= a.acked(v, at.term) by {}
                lemma_ackers_grow(c, c2, a, a2, at.term, at.log.commit_index);
            }
            assert forall|i: int| 0 <= i < at.peers.len() implies (
            #[trigger] c2.nodes[x].role->Leader_0.peer_last_index[i]) <= a2.acked(
                c2.nodes[x].peers[i],
                c2.nodes[x].term,
            ) by {
                assert(at.role->Leader_0.peer_last_index[i] <= a.acked(at.peers[i], at.term));
                assert(at.peers.to_set().contains(at.peers[i]));
            }
        }
    }
}

/// A log that follows the ledgers never falls in term.
pub proof fn lemma_follows_rising(g: Ledgers, log: Seq<EntryView>)
    requires
        forall|i: int| 0 <= i < log.len() ==> #[trigger] follows(g, log, i),
        forall|term: nat| #[trigger] rising_ok(g, term),
    ensures
        rising(log),
{
    assert forall|i: int, j: int| 0 <= i <= j < log.len() implies (#[trigger] log[i]).term <= (
    #[trigger] log[j]).term by {
        let t = log[j].term;
        assert(follows(g, log, j));
        assert(rising_ok(g, t));
        assert(log.take(j + 1)[i] == log[i]);
        assert(log.take(j + 1)[j] == log[j]);
        assert(g.log(t).take(j + 1)[i] == g.log(t)[i]);
        assert(g.log(t).take(j + 1)[j] == g.log(t)[j]);
    }
}

/// A log that is at least as up to date as a log that holds an entry of an
/// earlier leader's own holds that entry, where the ledgers of the terms
/// in between hold it.
pub proof fn lemma_up_to_date_holds(
    g: Ledgers,
    mine: Seq<EntryView>,
    theirs: Seq<EntryView>,
    election: nat,
    term: nat,
    index: nat,
)
    requires
        forall|i: int| 0 <= i < mine.len() ==> #[trigger] follows(g, mine, i),
        forall|i: int| 0 <= i < theirs.len() ==> follows(g, theirs, i) && (#[trigger] theirs[i]).term < election,
        forall|t: nat| #[trigger] rising_ok(g, t),
        has_entry(mine, index, term),
        own_entry(g, term, index),
        up_to_date(
            term_before(theirs, theirs.len()),
            theirs.len(),
            term_before(mine, mine.len()),
            mine.len(),
        ),
        kept_upto(g, term, (election - 1) as nat, index),
        term < election,
    ensures
        has_entry(theirs, index, term),
{
    lemma_follows_rising(g, mine);
    let lv = mine.len() as int;
    let lc = theirs.len() as int;
    let tv = mine[lv - 1].term;
    assert(mine[index - 1].term <= mine[lv - 1].term);
    assert(rising_ok(g, term));
    assert(lc >= 1);
    let tc = theirs[lc - 1].term;
    assert(follows(g, theirs, lc - 1));
    assert(follows(g, mine, lv - 1));
    assert(theirs.take(lc)[index - 1] == theirs[index - 1] || index > lc);
    if tc == tv {
        assert(lc >= lv);
        assert(mine.take(lv)[index - 1] == mine[index - 1]);
        assert(g.log(tc).take(lv)[index - 1] == g.log(tc)[index - 1]);
        assert(g.log(tc).take(lc)[index - 1] == g.log(tc)[index - 1]);
        assert(theirs.take(lc)[index - 1] == theirs[index - 1]);
    } else {
        assert(tc > tv);
        assert(g.has(tc));
        assert(has_entry(g.log(tc), index, term));
        assert(rising_ok(g, tc));
        assert(theirs.take(lc)[lc - 1] == theirs[lc - 1]);
        assert(g.log(tc).take(lc)[lc - 1] == g.log(tc)[lc - 1]);
        if index - 1 >= lc - 1 {
            assert(g.log(tc)[lc - 1].term <= g.log(tc)[index - 1].term);
        }
        assert(g.log(tc).take(lc)[index - 1] == g.log(tc)[index - 1]);
        assert(theirs.take(lc)[index - 1] == theirs[index - 1]);
    }
}

/// The peers that are known to hold an entry, as a set of as many nodes.
pub proof fn lemma_counted_peers(peers: Seq<Seq<char>>, last: Seq<nat>, index: nat) -> (s: Set<Seq<char>>)
    requires
        peers.no_duplicates(),
        last.len() == peers.len(),
    ensures
        s.finite(),
        s.len() == replicated(last, index),
        forall|x: Seq<char>|
            s.contains(x) ==> exists|i: int| 0 <= i < peers.len() && peers[i] == x && #[trigger] last[i] >= index,
    decreases peers.len(),
{
    if peers.len() == 0 {
        Set::empty()
    } else {
        let rest = lemma_counted_peers(peers.drop_last(), last.drop_last(), index);
        let n = peers.len() - 1;
        assert forall|x: Seq<char>| rest.contains(x) implies exists|i: int|
            0 <= i < peers.len() && peers[i] == x && #[trigger] last[i] >= index by {
            let i = choose|i: int|
                0 <= i < peers.drop_last().len() && peers.drop_last()[i] == x && #[trigger] last.drop_last()[i]
                    >= index;
            assert(peers[i] == x && last[i] >= index);
        }
        if last.last() >= index {
            assert(!rest.contains(peers.last())) by {
                if rest.contains(peers.last()) {
                    let i = choose|i: int|
                        0 <= i < peers.len() && peers[i] == peers.last() && #[trigger] last[i] >= index
                            && i < n;
                    assert(peers[i] == peers[n]);
                }
            }
            let s = rest.insert(peers.last());
            assert forall|x: Seq<char>| s.contains(x) implies exists|i: int|
                0 <= i < peers.len() && peers[i] == x && #[trigger] last[i] >= index by {
                if x == peers.last() {
                    assert(peers[n] == x && last[n] >= index);
                }
            }
            s
        } else {
            rest
        }
    }
}

/// Where each peer has held what the leader knows it to hold, and the leader
/// has held an entry, the nodes that have held the entry are the leader and
/// at least the peers that are known to hold it.
pub proof fn lemma_replicated_acked(c: Cluster, a: Annals, id: Seq<char>, last: Seq<nat>, term: nat, index: nat)
    requires
        c.wf(),
        c.has(id),
        last.len() == c.nodes[id].peers.len(),
        forall|i: int|
            0 <= i < last.len() ==> (#[trigger] last[i]) <= a.acked(c.nodes[id].peers[i], term),
        a.acked(id, term) >= index,
    ensures
        ackers(c, a, term, index).len() >= replicated(last, index) + 1,
{
    let node = c.nodes[id];
    assert(c.node_wf(id));
    let s = lemma_counted_peers(node.peers, last, index);
    let all = ackers(c, a, term, index);
    assert(!s.contains(id)) by {
        if s.contains(id) {
            let i = choose|i: int| 0 <= i < node.peers.len() && node.peers[i] == id && #[trigger] last[i] >= index;
            assert(node.peers.contains(id));
        }
    }
    let with_me = s.insert(id);
    assert forall|x: Seq<char>| with_me.contains(x) implies all.contains(x) by {
        if x != id {
            let i = choose|i: int| 0 <= i < node.peers.len() && node.peers[i] == x && #[trigger] last[i] >= index;
            assert(node.peers.to_set().contains(node.peers[i]));
            assert(last[i] <= a.acked(node.peers[i], term));
        }
    }
    vstd::set_lib::lemma_set_subset_finite(c.nodes.dom(), all);
    lemma_len_subset(with_me, all);
}

/// The greater of two indices.
pub open spec fn later(a: nat, b: nat) -> nat {
    if a >= b {
        a
    } else {
        b
    }
}

/// What the delivery of `msg` makes of the annals: a follower that accepts
/// entries has held the ledger up to the last of them, and a candidate that
/// wins has held its log.
pub open spec fn step_annals(c: Cluster, a: Annals, msg: MessageView, timeout: nat) -> Annals {
    let id = msg.to->0;
    let node = c.nodes[id];
    match node.step(msg, timeout) {
        None => a,
        Some(after) => if accepted(node, msg, after) {
            a.with_ack(
                id,
                after.term,
                later(
                    a.acked(id, after.term),
                    msg.event->ReplicateEntries_base_index + msg.event->ReplicateEntries_entries.len(),
                ),
            )
        } else if node.role is Candidate && after.role is Leader {
            a.with_ack(id, after.term, after.log.entries.len())
        } else {
            a
        },
    }
}

/// What a follower that accepts the entries of a message shares with the
/// ledger of the term of the message.
pub proof fn lemma_accept_shares(c: Cluster, h: Ballots, g: Ledgers, msg: MessageView)
    requires
        crate::matching::inv(c, h, g),
        c.network.contains(msg),
        msg.to is Some,
        c.has(msg.to->0),
        msg.event is ReplicateEntries,
        msg.event->ReplicateEntries_base_index == 0 || c.nodes[msg.to->0].log.has(
            msg.event->ReplicateEntries_base_index,
            msg.event->ReplicateEntries_base_term,
        ),
        msg.event->ReplicateEntries_base_index <= c.nodes[msg.to->0].log.entries.len(),
    ensures
        ({
            let log = c.nodes[msg.to->0].log.entries;
            let ledger = g.log(msg.term);
            let base = msg.event->ReplicateEntries_base_index;
            &&& g.has(msg.term)
            &&& base + msg.event->ReplicateEntries_entries.len() <= ledger.len()
            &&& msg.event->ReplicateEntries_entries == ledger.subrange(
                base as int,
                (base + msg.event->ReplicateEntries_entries.len()) as int,
            )
            &&& log.take(base as int) == ledger.take(base as int)
            &&& forall|j: int|
                0 <= j < log.len() && j < ledger.len() && (#[trigger] log[j]).term == ledger[j].term
                    ==> log.take(j + 1) == ledger.take(j + 1)
        }),
{
    let id = msg.to->0;
    let node = c.nodes[id];
    let base = msg.event->ReplicateEntries_base_index;
    let term = msg.term;
    let ledger = g.log(term);
    assert(replicate_ok(g, msg));
    assert forall|j: int|
        0 <= j < node.log.entries.len() && j < ledger.len() && (#[trigger] node.log.entries[j]).term
            == ledger[j].term implies node.log.entries.take(j + 1) == ledger.take(j + 1) by {
        assert(entry_ok(c, g, id, j));
        assert(ledger_ok(g, term, j));
    }
    if base > 0 {
        assert(node.log.entries[base - 1].term == ledger[base - 1].term);
        assert(node.log.entries.take((base - 1) + 1) == ledger.take((base - 1) + 1));
    } else {
        assert(node.log.entries.take(0) =~= ledger.take(0));
    }
}

/// A follower that accepts entries still holds what it has held.
pub proof fn lemma_accept_keeps(
    c: Cluster,
    h: Ballots,
    g: Ledgers,
    a: Annals,
    msg: MessageView,
    after: NodeView,
    term: nat,
    index: nat,
)
    requires
        inv(c, h, g, a),
        c.network.contains(msg),
        msg.to is Some,
        c.has(msg.to->0),
        accepted(c.nodes[msg.to->0], msg, after),
        c.nodes[msg.to->0].term <= after.term,
        own_entry(g, term, index),
        kept_upto(g, term, after.term, index),
        term <= after.term,
        index <= a.acked(msg.to->0, term) || (term == after.term && index
            <= msg.event->ReplicateEntries_base_index + msg.event->ReplicateEntries_entries.len()),
    ensures
        has_entry(after.log.entries, index, term),
{
    let id = msg.to->0;
    let node = c.nodes[id];
    let base = msg.event->ReplicateEntries_base_index;
    let entries = msg.event->ReplicateEntries_entries;
    let ledger = g.log(msg.term);
    lemma_accept_shares(c, h, g, msg);
    if term == after.term && index <= base + entries.len() {
        lemma_splice_holds(node.log, ledger, base, entries);
        let end = (base + entries.len()) as int;
        assert(after.log.entries.take(end)[index - 1] == after.log.entries[index - 1]);
        assert(ledger.take(end)[index - 1] == ledger[index - 1]);
    } else {
        assert(ack_ok(c, g, a, id, term, index));
        assert(has_entry(node.log.entries, index, term));
        assert(entry_ok(c, g, id, index - 1));
        assert(node.log.entries.take(index as int) == g.log(term).take(index as int));
        if term < msg.term {
            assert(has_entry(ledger, index, term));
            assert(ledger_ok(g, msg.term, index - 1));
        }
        assert(node.log.entries.take(index as int) == ledger.take(index as int));
        lemma_splice_keeps(node.log, ledger, base, entries, index);
        assert(after.log.entries.take(index as int)[index - 1] == after.log.entries[index - 1]);
        assert(node.log.entries.take(index as int)[index - 1] == node.log.entries[index - 1]);
    }
}

/// The vote that a follower grants vouches for the log of the candidate,
/// unless the term has a leader.
pub proof fn lemma_grant_vouches(c: Cluster, h: Ballots, g: Ledgers, a: Annals, msg: MessageView, timeout: nat)
    requires
        inv(c, h, g, a),
        c.enabled(Action::Deliver { msg, timeout }),
        c.nodes[msg.to->0].step(msg, timeout) matches Some(after) && grants_vote(c.nodes[msg.to->0], after),
    ensures
        g.has(msg.term) || vouches(g, a, msg.to->0, msg.from->0, msg.term),
{
    let id = msg.to->0;
    let node = c.nodes[id];
    let after = node.step(msg, timeout)->0;
    let from = msg.from->0;
    let term = msg.term;
    assert(c.node_wf(id));
    lemma_step_summary(node, msg, timeout);
    lemma_grant_up_to_date(node, msg, timeout);
    assert(mail_ok(g, a, msg));
    assert(message_ok(c, h, msg));
    assert(campaign_ok(c, g, a, from, term));
    let theirs = a.campaign(from, term)->0;
    let mine = node.log.entries;
    if !g.has(term) {
        assert forall|t: nat, n: nat|
            #![trigger own_entry(g, t, n)]
            t < term && own_entry(g, t, n) && n <= a.acked(id, t) && kept_upto(
                g,
                t,
                (term - 1) as nat,
                n,
            ) implies has_entry(theirs, n, t) by {
            assert(ack_ok(c, g, a, id, t, n));
            assert(kept_upto(g, t, node.term, n));
            assert(has_entry(mine, n, t));
            assert forall|i: int| 0 <= i < mine.len() implies #[trigger] follows(g, mine, i) by {
                assert(entry_ok(c, g, id, i));
            }
            lemma_up_to_date_holds(g, mine, theirs, term, t, n);
        }
    }
}

/// A cluster after the delivery of a message agrees with the annals.
pub proof fn lemma_deliver_inv3(c: Cluster, h: Ballots, g: Ledgers, a: Annals, msg: MessageView, timeout: nat)
    requires
        inv(c, h, g, a),
        c.enabled(Action::Deliver { msg, timeout }),
    ensures
        inv(
            c.next(Action::Deliver { msg, timeout }),
            step_ballots(c, h, msg, timeout),
            step_ledgers(c, g, msg, timeout),
            step_annals(c, a, msg, timeout),
        ),
{
    let id = msg.to->0;
    let node = c.nodes[id];
    let c2 = c.next(Action::Deliver { msg, timeout });
    let h2 = step_ballots(c, h, msg, timeout);
    let g2 = step_ledgers(c, g, msg, timeout);
    let a2 = step_annals(c, a, msg, timeout);
    assert(c.node_wf(id));
    match node.step(msg, timeout) {
        None => {
            lemma_lose_inv3(c, h, g, a, msg);
        },
        Some(after) => {
            lemma_deliver_inv2(c, h, g, msg, timeout);
            lemma_deliver_inv(c, h, msg, timeout);
            lemma_step_wf(node, msg, timeout);
            lemma_step_summary(node, msg, timeout);
            lemma_step_log_summary(node, msg, timeout);
            lemma_step_acks_summary(node, msg, timeout);
            law_step_emits(node, msg, timeout);
            if node.role is Leader {
                lemma_leader_stays(node, msg, timeout);
            }
            let rest = c.network.remove(msg);
            assert(c2 == c.settle(id, after, rest));
            assert(c2.nodes.dom() =~= c.nodes.dom());
            let term = after.term;
            let from = msg.from->0;
            let won = node.role is Candidate && after.role is Leader;
            let acc = accepted(node, msg, after);
            let granted = grants_vote(node, after);
            let counted = !granted && node.role is Candidate && node.counts_vote(msg) && after.term
                == node.term;
            assert(message_ok(c, h, msg));
            assert(mail_ok(g, a, msg));
            assert(leader_ok(c, g, id));
            assert(lead_ok(c, a, id));
            assert(campaign_ok(c, g, a, id, term));
            assert(led_ok(c, h, g, term));
            if won {
                lemma_new_leader(c, h, g, msg, timeout);
                assert(g2 == g.with(term, id, after.log.entries));
            } else {
                assert(g2 == g);
                lemma_grown_same(g, term);
            }
            assert(grown(g, g2, term));
            assert(tail_own(g, g2, term));
            assert forall|v: Seq<char>, t: nat| #[trigger] a2.acked(v, t) >= a.acked(v, t) by {
                assert(ack_ok(c, g, a, id, term, 0));
            }
            assert forall|t: nat| #[trigger] rising_ok(g2, t) by {
                assert(rising_ok(g, t));
                if won && t == term {
                    assert forall|i: int| 0 <= i < node.log.entries.len() implies #[trigger] follows(
                        g,
                        node.log.entries,
                        i,
                    ) by {
                        assert(entry_ok(c, g, id, i));
                    }
                    lemma_follows_rising(g, node.log.entries);
                    assert forall|i: int| 0 <= i < node.log.entries.len() implies (
                    #[trigger] node.log.entries[i]).term <= term by {
                        assert(entry_ok(c, g, id, i));
                    }
                    lemma_rising_push(node.log.entries, EntryView { term, command: None });
                }
            }
            assert forall|v: Seq<char>, t: nat, index: nat| #[trigger] ack_ok(c2, g2, a2, v, t, index) by {
                assert(ack_ok(c, g, a, v, t, index));
                if v != id {
                    lemma_ack_frame(c, c2, g, g2, a, a2, term, v, t, index);
                } else if won && t == term {
                } else if acc {
                    if a2.acked(id, t) > 0 {
                        assert(replicate_ok(g, msg));
                        if own_entry(g2, t, index) && index <= a2.acked(id, t) && kept_upto(
                            g2,
                            t,
                            term,
                            index,
                        ) {
                            lemma_accept_keeps(c, h, g, a, msg, after, t, index);
                        }
                    }
                } else {
                    lemma_ack_frame(c, c2, g, g2, a, a2, term, v, t, index);
                }
            }
            assert forall|k: Seq<char>, t: nat| #[trigger] campaign_ok(c2, g2, a2, k, t) by {
                assert(campaign_ok(c, g, a, k, t));
                if let Some(log) = a.campaign(k, t) {
                    assert forall|i: int| 0 <= i < log.len() implies follows(g2, log, i) && (
                    #[trigger] log[i]).term < t by {
                        lemma_follows_grown(g, g2, log, i, term);
                    }
                    if won && t == term && k == id {
                        assert(g2.log(t).take(log.len() as int) =~= log);
                    }
                }
            }
            assert forall|m: MessageView| after.outbox.to_set().contains(m) implies {
                &&& m.from == Some(id)
                &&& m.term == after.term
                &&& !(m.event is SolicitVote)
                &&& m.event is GrantVote ==> granted && m == grant(id, from, after.term)
                &&& m.event matches EventView::AcceptEntries { last_index } ==> acc && last_index
                    == msg.event->ReplicateEntries_base_index
                    + msg.event->ReplicateEntries_entries.len()
            } by {
                let k = choose|k: int| 0 <= k < after.outbox.len() && after.outbox[k] == m;
                assert(after.outbox[k] == m);
            }
            if granted {
                lemma_grant_vouches(c, h, g, a, msg, timeout);
            }
            assert forall|m: MessageView| #[trigger] c2.network.contains(m) implies mail_ok(g2, a2, m) by {
                if rest.contains(m) {
                    assert(c.network.contains(m));
                    assert(mail_ok(g, a, m));
                    assert(message_ok(c, h, m));
                    if m.event is GrantVote && !g.has(m.term) {
                        lemma_vouches_frame(c, g, g2, a, a2, term, m.from->0, m.to->0, m.term);
                    }
                    if m.event is AcceptEntries {
                        assert(a2.acked(m.from->0, m.term) >= a.acked(m.from->0, m.term));
                    }
                } else {
                    assert(after.outbox.to_set().contains(m));
                }
            }
            assert forall|k: Seq<char>, t: nat, v: Seq<char>| #[trigger] voter_ok(h2, g2, a2, k, t, v) by {
                assert(voter_ok(h, g, a, k, t, v));
                assert(voters_ok(c, h, k, t));
                if h2.voters(k, t).contains(v) {
                    if h.voters(k, t).contains(v) {
                        assert(vote_ok(c, h, v, t));
                        if !(g.has(t) && g.leader(t) != k) {
                            lemma_vouches_frame(c, g, g2, a, a2, term, v, k, t);
                        }
                    } else {
                        assert(counted && k == id && t == node.term && v == from);
                        if !g.has(t) {
                            lemma_vouches_frame(c, g, g2, a, a2, term, v, k, t);
                        }
                    }
                }
            }
            assert forall|x: Seq<char>| #[trigger] lead_ok(c2, a2, x) by {
                assert(lead_ok(c, a, x));
                assert(leader_ok(c, g, x));
                if c2.has(x) && c2.nodes[x].role is Leader {
                    assert(c.node_wf(x));
                    let now = c2.nodes[x];
                    let l2 = now.role->Leader_0;
                    if x != id {
                        let at = c.nodes[x];
                        assert forall|i: int| 0 <= i < at.peers.len() implies (
                        #[trigger] l2.peer_last_index[i]) <= a2.acked(now.peers[i], now.term) by {
                            assert(at.role->Leader_0.peer_last_index[i] <= a.acked(at.peers[i], at.term));
                            assert(a2.acked(at.peers[i], at.term) >= a.acked(at.peers[i], at.term));
                        }
                        if has_entry(now.log.entries, now.log.commit_index, now.term) {
                            lemma_ackers_grow(c, c2, a, a2, at.term, at.log.commit_index);
                        }
                    } else if won {
                        if has_entry(now.log.entries, now.log.commit_index, now.term) {
                            assert(entry_ok(c, g, id, now.log.commit_index - 1));
                        }
                    } else {
                        let l = node.role->Leader_0;
                        assert(a2 == a);
                        assert forall|i: int| 0 <= i < node.peers.len() implies (
                        #[trigger] l2.peer_last_index[i]) <= a.acked(node.peers[i], node.term) by {
                            assert(l.peer_last_index[i] <= a.acked(node.peers[i], node.term));
                        }
                        if has_entry(now.log.entries, now.log.commit_index, now.term) {
                            if now.log.commit_index == node.log.commit_index {
                                lemma_ackers_same(c, c2, a, a2, node.term, node.log.commit_index);
                            } else {
                                lemma_replicated_acked(
                                    c,
                                    a,
                                    id,
                                    l2.peer_last_index,
                                    node.term,
                                    now.log.commit_index,
                                );
                                lemma_cluster_size(c, id);
                                lemma_ackers_same(c, c2, a, a2, node.term, now.log.commit_index);
                            }
                        }
                    }
                }
            }
        },
    }
}

/// No annals.
pub open spec fn no_annals() -> Annals {
    Annals { acks: Map::empty(), campaigns: Map::empty() }
}

/// A cluster at its first start agrees with no annals.
pub proof fn lemma_genesis_inv3(c: Cluster)
    requires
        c.genesis(),
    ensures
        inv(c, first_ballots(c), no_ledgers(), no_annals()),
{
    lemma_genesis_inv(c);
    let h = first_ballots(c);
    assert forall|k: Seq<char>, term: nat, v: Seq<char>| #[trigger]
        voter_ok(h, no_ledgers(), no_annals(), k, term, v) by {
        assert(h.voters(k, term) == Set::<Seq<char>>::empty());
    }
}

/// What the actions of an execution make of the annals.
pub open spec fn annals_after(c: Cluster, actions: Seq<Action>) -> Annals
    decreases actions.len(),
{
    if actions.len() == 0 {
        no_annals()
    } else {
        let at = c.play(actions.drop_last());
        let a = annals_after(c, actions.drop_last());
        match actions.last() {
            Action::Tick { id, timeout } => tick_annals(at, a, id, timeout),
            Action::Deliver { msg, timeout } => step_annals(at, a, msg, timeout),
            Action::Propose { id, command } => propose_annals(at, a, id),
            Action::Drop { msg } => a,
        }
    }
}

/// A cluster agrees with the annals after every execution.
pub proof fn lemma_play_inv3(c: Cluster, actions: Seq<Action>)
    requires
        c.genesis(),
        c.playable(actions),
    ensures
        inv(
            c.play(actions),
            ballots_after(c, actions),
            ledgers_after(c, actions),
            annals_after(c, actions),
        ),
    decreases actions.len(),
{
    if actions.len() == 0 {
        lemma_genesis_inv3(c);
    } else {
        lemma_play_inv3(c, actions.drop_last());
        let at = c.play(actions.drop_last());
        let h = ballots_after(c, actions.drop_last());
        let g = ledgers_after(c, actions.drop_last());
        let a = annals_after(c, actions.drop_last());
        match actions.last() {
            Action::Tick { id, timeout } => lemma_tick_inv3(at, h, g, a, id, timeout),
            Action::Deliver { msg, timeout } => lemma_deliver_inv3(at, h, g, a, msg, timeout),
            Action::Drop { msg } => lemma_lose_inv3(at, h, g, a, msg),
            Action::Propose { id, command } => lemma_propose_inv3(at, h, g, a, id, command),
        }
    }
}

/// Whether the ledgers `g2` hold what the ledgers `g` hold, and the nodes
/// have held in `a2` what they have held in `a`.
pub open spec fn extends(g: Ledgers, a: Annals, g2: Ledgers, a2: Annals) -> bool {
    &&& forall|t: nat| #[trigger]
        g.has(t) ==> g2.has(t) && g.log(t).len() <= g2.log(t).len() && g2.log(t).take(
            g.log(t).len() as int,
        ) == g.log(t)
    &&& forall|v: Seq<char>, t: nat| #[trigger] a2.acked(v, t) >= a.acked(v, t)
}

/// The ledgers and the annals of an execution hold what they held after any
/// part of it, and the nodes of the cluster stay the same.
pub proof fn lemma_play_extends(c: Cluster, actions: Seq<Action>, k: int)
    requires
        c.genesis(),
        c.playable(actions),
        0 <= k <= actions.len(),
    ensures
        c.playable(actions.take(k)),
        extends(
            ledgers_after(c, actions.take(k)),
            annals_after(c, actions.take(k)),
            ledgers_after(c, actions),
            annals_after(c, actions),
        ),
        c.play(actions).nodes.dom() == c.play(actions.take(k)).nodes.dom(),
    decreases actions.len(),
{
    if k == actions.len() {
        assert(actions.take(k) =~= actions);
        let g = ledgers_after(c, actions);
        assert forall|t: nat| #[trigger] g.has(t) implies g.log(t).take(g.log(t).len() as int) == g.log(
            t,
        ) by {
            assert(g.log(t).take(g.log(t).len() as int) =~= g.log(t));
        }
    } else {
        let before = actions.drop_last();
        assert(before.take(k) =~= actions.take(k));
        lemma_play_extends(c, before, k);
        lemma_play_inv3(c, before);
        let at = c.play(before);
        let h = ballots_after(c, before);
        let g = ledgers_after(c, before);
        let a = annals_after(c, before);
        let g0 = ledgers_after(c, actions.take(k));
        let g2 = ledgers_after(c, actions);
        let a2 = annals_after(c, actions);
        let c2 = c.play(actions);
        // One action extends the ledgers and the annals.
        match actions.last() {
            Action::Tick { id, timeout } => {
                assert(at.node_wf(id));
                lemma_tick_wf(at.nodes[id], timeout);
                assert(c2.nodes.dom() =~= at.nodes.dom());
            },
            Action::Deliver { msg, timeout } => {
                let id = msg.to->0;
                let node = at.nodes[id];
                assert(at.node_wf(id));
                assert(ack_ok(at, g, a, id, node.term, 0));
                if let Some(after) = node.step(msg, timeout) {
                    lemma_step_summary(node, msg, timeout);
                    assert(ack_ok(at, g, a, id, after.term, 0));
                    if node.role is Candidate && after.role is Leader {
                        lemma_new_leader(at, h, g, msg, timeout);
                    }
                    assert(c2.nodes.dom() =~= at.nodes.dom());
                }
            },
            Action::Drop { msg } => {},
            Action::Propose { id, command } => {
                assert(leader_ok(at, g, id));
                assert(lead_ok(at, a, id));
                assert(g2.log(at.nodes[id].term).take(g.log(at.nodes[id].term).len() as int) =~= g.log(
                    at.nodes[id].term,
                ));
                assert(c2.nodes.dom() =~= at.nodes.dom());
            },
        }
        assert forall|t: nat| #[trigger] g.has(t) implies g2.has(t) && g.log(t).len() <= g2.log(t).len()
            && g2.log(t).take(g.log(t).len() as int) == g.log(t) by {
            assert(g.log(t).take(g.log(t).len() as int) =~= g.log(t));
        }
        let a0 = annals_after(c, actions.take(k));
        assert forall|v: Seq<char>, t: nat| #[trigger] a2.acked(v, t) >= a.acked(v, t) by {}
        assert forall|v: Seq<char>, t: nat| #[trigger] a2.acked(v, t) >= a0.acked(v, t) by {
            assert(a2.acked(v, t) >= a.acked(v, t));
            assert(a.acked(v, t) >= a0.acked(v, t));
        }
        assert forall|t: nat| #[trigger] g0.has(t) implies g2.has(t) && g0.log(t).len() <= g2.log(t).len()
            && g2.log(t).take(g0.log(t).len() as int) == g0.log(t) by {
            assert(g.has(t));
            assert(g2.log(t).take(g0.log(t).len() as int) =~= g2.log(t).take(g.log(t).len() as int).take(
                g0.log(t).len() as int,
            ));
        }
    }
}

/// Whether what a leader of `past` has committed of its own term is in the
/// log of every leader of a later term in `now`.
pub open spec fn committed_kept(past: Cluster, now: Cluster) -> bool {
    forall|a: Seq<char>, b: Seq<char>|
        #![trigger past.has(a), now.has(b)]
        past.has(a) && now.has(b) && past.nodes[a].role is Leader && now.nodes[b].role is Leader
            && past.nodes[a].term < now.nodes[b].term && has_entry(
            past.nodes[a].log.entries,
            past.nodes[a].log.commit_index,
            past.nodes[a].term,
        ) ==> {
            &&& past.nodes[a].log.commit_index <= now.nodes[b].log.entries.len()
            &&& now.nodes[b].log.entries.take(past.nodes[a].log.commit_index as int)
                == past.nodes[a].log.entries.take(past.nodes[a].log.commit_index as int)
        }
}

/// Leader completeness: in a cluster that starts with empty logs, whatever
/// ticks, deliveries, losses and commands follow, the entries up to one that
/// a leader has committed in its own term, at any point of the execution, are
/// in the log of every node that leads a later term at the end of it.
pub proof fn law_leader_completeness(c: Cluster, actions: Seq<Action>, k: int)
    requires
        c.genesis(),
        c.playable(actions),
        0 <= k <= actions.len(),
    ensures
        committed_kept(c.play(actions.take(k)), c.play(actions)),
{
    lemma_play_extends(c, actions, k);
    lemma_play_inv3(c, actions);
    lemma_play_inv3(c, actions.take(k));
    let past = c.play(actions.take(k));
    let now = c.play(actions);
    let h = ballots_after(c, actions);
    let g = ledgers_after(c, actions);
    let an = annals_after(c, actions);
    let g0 = ledgers_after(c, actions.take(k));
    let a0 = annals_after(c, actions.take(k));
    assert forall|a: Seq<char>, b: Seq<char>|
        #![trigger past.has(a), now.has(b)]
        past.has(a) && now.has(b) && past.nodes[a].role is Leader && now.nodes[b].role is Leader
            && past.nodes[a].term < now.nodes[b].term && has_entry(
            past.nodes[a].log.entries,
            past.nodes[a].log.commit_index,
            past.nodes[a].term,
        ) implies {
        &&& past.nodes[a].log.commit_index <= now.nodes[b].log.entries.len()
        &&& now.nodes[b].log.entries.take(past.nodes[a].log.commit_index as int)
            == past.nodes[a].log.entries.take(past.nodes[a].log.commit_index as int)
    } by {
        let old = past.nodes[a];
        let new = now.nodes[b];
        let term = old.term;
        let index = old.log.commit_index;
        assert(lead_ok(past, a0, a));
        assert(leader_ok(past, g0, a));
        assert(leader_ok(now, g, b));
        assert(g0.has(term));
        assert(g.log(term).take(g0.log(term).len() as int)[index - 1] == g.log(term)[index - 1]);
        assert(own_entry(g, term, index));
        // A quorum has held the entry, then and now.
        let then = ackers(past, a0, term, index);
        let all = ackers(now, an, term, index);
        assert forall|v: Seq<char>| then.contains(v) implies all.contains(v) by {
            assert(an.acked(v, term) >= a0.acked(v, term));
        }
        vstd::set_lib::lemma_set_subset_finite(now.nodes.dom(), all);
        lemma_len_subset(then, all);
        assert(quorum_acked(now, an, term, index));
        lemma_later_ledgers_hold(now, h, g, an, term, index, new.term);
        assert(entry_ok(now, g, b, index - 1));
        assert(new.log.entries.take(index as int) == g.log(term).take(index as int));
        assert(g.log(term).take(index as int) =~= g.log(term).take(g0.log(term).len() as int).take(
            index as int,
        ));
    }
}

} // verus!
