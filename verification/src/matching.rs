//! Log matching: in a cluster, logs that hold an entry of the same term at
//! the same index are the same up to that entry.
//!
//! The proof keeps, for every term in which a node has led, the log of that
//! leader, and shows that every log in the cluster and every run of entries
//! in flight follows the log of the leader of the term of each of its
//! entries.

use crate::cluster::{Action, Cluster};
use crate::election::{
    ballots_after, first_ballots, lemma_cluster_size, lemma_deliver_inv, lemma_init_inv,
    lemma_lose_inv, lemma_propose_inv, lemma_quorums_meet, lemma_tick_inv, node_ok,
    step_ballots, tick_ballots, voters_ok, Ballots,
};
use crate::laws::{
    carries_log, law_step_emits, law_tick_emits, lemma_leader_append, lemma_leader_stays,
    lemma_splice_follows, lemma_step_log_summary, lemma_step_summary, lemma_step_wf,
    lemma_tick_log_summary, lemma_tick_summary, lemma_tick_wf,
};
use crate::model::{valid_timeout, EntryView, EventView, MessageView, NodeView};
use vstd::prelude::*;

verus! {

/// The node that led in a term, and its log as far as it got while it led.
pub struct Ledger {
    pub leader: Seq<char>,
    pub entries: Seq<EntryView>,
}

/// The ledgers of the terms in which a node has led.
pub struct Ledgers {
    pub books: Map<nat, Ledger>,
}

impl Ledgers {
    pub open spec fn has(self, term: nat) -> bool {
        self.books.dom().contains(term)
    }

    pub open spec fn log(self, term: nat) -> Seq<EntryView> {
        self.books[term].entries
    }

    pub open spec fn leader(self, term: nat) -> Seq<char> {
        self.books[term].leader
    }

    pub open spec fn with(self, term: nat, leader: Seq<char>, entries: Seq<EntryView>) -> Ledgers {
        Ledgers { books: self.books.insert(term, Ledger { leader, entries }) }
    }
}

/// The term of entry `index` of `entries`, 0 where there is none.
pub open spec fn term_before(entries: Seq<EntryView>, index: nat) -> nat {
    if 1 <= index <= entries.len() {
        entries[index - 1].term
    } else {
        0
    }
}

/// Whether `log`, up to its entry at position `i`, is the ledger of the term
/// of that entry.
pub open spec fn follows(g: Ledgers, log: Seq<EntryView>, i: int) -> bool {
    let term = log[i].term;
    &&& g.has(term)
    &&& i < g.log(term).len()
    &&& log.take(i + 1) == g.log(term).take(i + 1)
}

/// What holds of position `i` of the ledger of `term`: the entry is of that
/// term or an earlier one, and up to an entry of an earlier term the ledger
/// is the ledger of that term.
pub open spec fn ledger_ok(g: Ledgers, term: nat, i: int) -> bool {
    g.has(term) && 0 <= i < g.log(term).len() ==> {
        &&& g.log(term)[i].term <= term
        &&& g.log(term)[i].term < term ==> follows(g, g.log(term), i)
    }
}

/// What holds of position `i` of the log of node `id`: up to that entry the
/// log is the ledger of the term of the entry, which is not ahead of the
/// node, and behind a candidate.
pub open spec fn entry_ok(c: Cluster, g: Ledgers, id: Seq<char>, i: int) -> bool {
    c.has(id) && 0 <= i < c.nodes[id].log.entries.len() ==> {
        let node = c.nodes[id];
        &&& follows(g, node.log.entries, i)
        &&& node.log.entries[i].term <= node.term
        &&& node.role is Candidate ==> node.log.entries[i].term < node.term
    }
}

/// What holds of entries in flight: they are a run of the ledger of the term
/// of their message, behind the entry that the message names.
pub open spec fn replicate_ok(g: Ledgers, m: MessageView) -> bool {
    m.event matches EventView::ReplicateEntries { base_index, base_term, entries } ==> {
        &&& g.has(m.term)
        &&& base_index + entries.len() <= g.log(m.term).len()
        &&& entries == g.log(m.term).subrange(base_index as int, (base_index + entries.len()) as int)
        &&& base_term == term_before(g.log(m.term), base_index)
    }
}

/// What holds of the ledger of `term`: its leader is a node of the cluster
/// that has counted a quorum of votes in that term, has reached the term, and
/// leads while it is in it.
pub open spec fn led_ok(c: Cluster, h: Ballots, g: Ledgers, term: nat) -> bool {
    g.has(term) ==> {
        let l = g.leader(term);
        &&& c.has(l)
        &&& h.voters(l, term).len() >= c.nodes[l].quorum()
        &&& term <= c.nodes[l].term
        &&& c.nodes[l].term == term ==> c.nodes[l].role is Leader
    }
}

/// What holds of a leader: the ledger of its term is its log.
pub open spec fn leader_ok(c: Cluster, g: Ledgers, id: Seq<char>) -> bool {
    c.has(id) && c.nodes[id].role is Leader ==> {
        let node = c.nodes[id];
        &&& g.has(node.term)
        &&& g.leader(node.term) == id
        &&& g.log(node.term) == node.log.entries
    }
}

/// The cluster, the record of its votes and the ledgers agree.
pub open spec fn inv(c: Cluster, h: Ballots, g: Ledgers) -> bool {
    &&& crate::election::inv(c, h)
    &&& forall|term: nat, i: int| #[trigger] ledger_ok(g, term, i)
    &&& forall|id: Seq<char>, i: int| #[trigger] entry_ok(c, g, id, i)
    &&& forall|m: MessageView| #[trigger] c.network.contains(m) ==> replicate_ok(g, m)
    &&& forall|term: nat| #[trigger] led_ok(c, h, g, term)
    &&& forall|id: Seq<char>| #[trigger] leader_ok(c, g, id)
}

/// Where the cluster and the ledgers agree, the logs match.
pub proof fn lemma_inv_matching(c: Cluster, h: Ballots, g: Ledgers)
    requires
        inv(c, h, g),
    ensures
        c.log_matching(),
{
    assert forall|a: Seq<char>, b: Seq<char>, i: int|
        #![trigger c.nodes[a].log.entries[i], c.nodes[b].log.entries[i]]
        c.has(a) && c.has(b) && 0 <= i < c.nodes[a].log.entries.len() && i
            < c.nodes[b].log.entries.len() && c.nodes[a].log.entries[i].term
            == c.nodes[b].log.entries[i].term implies c.nodes[a].log.entries.take(i + 1)
        == c.nodes[b].log.entries.take(i + 1) by {
        assert(entry_ok(c, g, a, i));
        assert(entry_ok(c, g, b, i));
    }
}

/// No ledgers.
pub open spec fn no_ledgers() -> Ledgers {
    Ledgers { books: Map::empty() }
}

/// A cluster at its first start agrees with no ledgers.
pub proof fn lemma_genesis_inv(c: Cluster)
    requires
        c.genesis(),
    ensures
        inv(c, first_ballots(c), no_ledgers()),
{
    lemma_init_inv(c);
}

/// A log that follows the ledgers follows them where a ledger has been
/// added or has grown.
pub proof fn lemma_follows_grown(g: Ledgers, g2: Ledgers, log: Seq<EntryView>, i: int, term: nat)
    requires
        0 <= i < log.len(),
        follows(g, log, i),
        forall|t: nat| t != term && g.has(t) ==> g2.has(t) && g2.log(t) == g.log(t),
        g.has(term) ==> g2.has(term) && g.log(term).len() <= g2.log(term).len() && g2.log(term).take(
            g.log(term).len() as int,
        ) == g.log(term),
    ensures
        follows(g2, log, i),
{
    let t = log[i].term;
    if t == term {
        assert(g2.log(term).take(i + 1) =~= g2.log(term).take(g.log(term).len() as int).take(i + 1));
    }
}

/// How the ledgers may change in one action: the ledger of one term is added,
/// or grows at its end, and the others stay.
pub open spec fn grown(g: Ledgers, g2: Ledgers, term: nat) -> bool {
    &&& forall|t: nat| t != term ==> g2.has(t) == g.has(t) && (g.has(t) ==> g2.books[t] == g.books[t])
    &&& g.has(term) ==> {
        &&& g2.has(term)
        &&& g2.leader(term) == g.leader(term)
        &&& g.log(term).len() <= g2.log(term).len()
        &&& g2.log(term).take(g.log(term).len() as int) == g.log(term)
    }
}

/// Ledgers that stay as they are have grown by nothing.
pub proof fn lemma_grown_same(g: Ledgers, term: nat)
    ensures
        grown(g, g, term),
{
    if g.has(term) {
        assert(g.log(term).take(g.log(term).len() as int) =~= g.log(term));
    }
}

/// What was in order before the ledger of `term` was added or grew is in
/// order after: the ledgers of the other terms, the logs of the nodes that
/// kept them, and the entries in flight.
pub proof fn lemma_grown_frame(c: Cluster, c2: Cluster, h: Ballots, g: Ledgers, g2: Ledgers, term: nat)
    requires
        inv(c, h, g),
        grown(g, g2, term),
    ensures
        forall|t: nat, i: int| t != term ==> #[trigger] ledger_ok(g2, t, i),
        forall|id: Seq<char>, i: int|
            c.has(id) && c2.has(id) && c2.nodes[id].log.entries == c.nodes[id].log.entries && 0 <= i
                < c.nodes[id].log.entries.len() ==> #[trigger] follows(g2, c2.nodes[id].log.entries, i),
        forall|m: MessageView| #[trigger] c.network.contains(m) ==> replicate_ok(g2, m),
{
    assert forall|t: nat, i: int| t != term implies #[trigger] ledger_ok(g2, t, i) by {
        assert(ledger_ok(g, t, i));
        if g2.has(t) && 0 <= i < g2.log(t).len() && g2.log(t)[i].term < t {
            assert(follows(g, g.log(t), i));
            lemma_follows_grown(g, g2, g.log(t), i, term);
        }
    }
    assert forall|id: Seq<char>, i: int|
        c.has(id) && c2.has(id) && c2.nodes[id].log.entries == c.nodes[id].log.entries && 0 <= i
            < c.nodes[id].log.entries.len() implies #[trigger] follows(
        g2,
        c2.nodes[id].log.entries,
        i,
    ) by {
        assert(entry_ok(c, g, id, i));
        lemma_follows_grown(g, g2, c.nodes[id].log.entries, i, term);
    }
    assert forall|m: MessageView| #[trigger] c.network.contains(m) implies replicate_ok(g2, m) by {
        assert(replicate_ok(g, m));
        if let EventView::ReplicateEntries { base_index, base_term, entries } = m.event {
            if m.term == term {
                let old = g.log(term);
                let new = g2.log(term);
                assert(new.take(old.len() as int) == old);
                assert forall|j: int| 0 <= j < old.len() implies #[trigger] new[j] == old[j] by {
                    assert(new.take(old.len() as int)[j] == new[j]);
                }
                assert(new.subrange(base_index as int, (base_index + entries.len()) as int) =~= old.subrange(
                    base_index as int,
                    (base_index + entries.len()) as int,
                ));
                if 1 <= base_index {
                    assert(new.take(old.len() as int)[base_index - 1] == new[base_index - 1]);
                }
            }
        }
    }
}

/// Entries of the log of a leader that are sent in its term are a run of
/// the ledger of the term.
pub proof fn lemma_carried_ok(g: Ledgers, m: MessageView, node: NodeView)
    requires
        carries_log(m, node.log),
        m.term == node.term,
        g.has(node.term),
        g.log(node.term) == node.log.entries,
    ensures
        replicate_ok(g, m),
{
    if let EventView::ReplicateEntries { base_index, base_term, entries } = m.event {
        assert(node.log.entries.skip(base_index as int) =~= node.log.entries.subrange(
            base_index as int,
            (base_index + entries.len()) as int,
        ));
    }
}

/// What a tick makes of the ledgers: nothing.
pub proof fn lemma_tick_inv2(c: Cluster, h: Ballots, g: Ledgers, id: Seq<char>, timeout: nat)
    requires
        inv(c, h, g),
        c.has(id),
        valid_timeout(timeout),
    ensures
        inv(c.next(Action::Tick { id, timeout }), tick_ballots(c, h, id, timeout), g),
{
    let node = c.nodes[id];
    let after = node.tick(timeout);
    let c2 = c.next(Action::Tick { id, timeout });
    let h2 = tick_ballots(c, h, id, timeout);
    lemma_tick_inv(c, h, id, timeout);
    assert(c.node_wf(id));
    lemma_tick_wf(node, timeout);
    lemma_tick_summary(node, timeout);
    lemma_tick_log_summary(node, timeout);
    law_tick_emits(node, timeout);
    if node.role is Leader {
        lemma_leader_stays(node, arbitrary(), timeout);
    }
    assert(c2 == c.settle(id, after, c.network));
    lemma_grown_same(g, 0);
    lemma_grown_frame(c, c2, h, g, g, 0);
    assert forall|term: nat, i: int| #[trigger] ledger_ok(g, term, i) by {
        assert(ledger_ok(g, term, i));
    }
    assert(leader_ok(c, g, id));
    assert forall|x: Seq<char>, i: int| #[trigger] entry_ok(c2, g, x, i) by {
        assert(entry_ok(c, g, x, i));
    }
    assert forall|m: MessageView| #[trigger] c2.network.contains(m) implies replicate_ok(g, m) by {
        if !c.network.contains(m) {
            assert(after.outbox.to_set().contains(m));
            let k = choose|k: int| 0 <= k < after.outbox.len() && after.outbox[k] == m;
            assert(after.outbox[k] == m);
            if m.event is ReplicateEntries {
                lemma_carried_ok(g, m, after);
            }
        } else {
            assert(replicate_ok(g, m));
        }
    }
    assert forall|term: nat| #[trigger] led_ok(c2, h2, g, term) by {
        assert(led_ok(c, h, g, term));
        if g.has(term) {
            let l = g.leader(term);
            assert(c.has(l));
            if l == id && after.term != node.term {
                assert(h2.voters(l, term) == h.voters(l, term));
            }
        }
    }
    assert forall|x: Seq<char>| #[trigger] leader_ok(c2, g, x) by {
        assert(leader_ok(c, g, x));
    }
}

/// What the loss of a message makes of the ledgers: nothing.
pub proof fn lemma_lose_inv2(c: Cluster, h: Ballots, g: Ledgers, msg: MessageView)
    requires
        inv(c, h, g),
    ensures
        inv(Cluster { network: c.network.remove(msg), ..c }, h, g),
{
    let c2 = Cluster { network: c.network.remove(msg), ..c };
    lemma_lose_inv(c, h, msg);
    assert forall|term: nat, i: int| #[trigger] ledger_ok(g, term, i) by {
        assert(ledger_ok(g, term, i));
    }
    assert forall|x: Seq<char>, i: int| #[trigger] entry_ok(c2, g, x, i) by {
        assert(entry_ok(c, g, x, i));
    }
    assert forall|m: MessageView| #[trigger] c2.network.contains(m) implies replicate_ok(g, m) by {
        assert(c.network.contains(m));
    }
    assert forall|term: nat| #[trigger] led_ok(c2, h, g, term) by {
        assert(led_ok(c, h, g, term));
    }
    assert forall|x: Seq<char>| #[trigger] leader_ok(c2, g, x) by {
        assert(leader_ok(c, g, x));
    }
}

/// What a command for a leader makes of the ledgers: the ledger of the
/// leader's term grows by the entry that the leader appends.
pub open spec fn propose_ledgers(c: Cluster, g: Ledgers, id: Seq<char>, command: Seq<u8>) -> Ledgers {
    let node = c.nodes[id];
    g.with(node.term, id, node.log.entries.push(EntryView { term: node.term, command: Some(command) }))
}

/// A cluster after a leader has been handed a command agrees with the
/// ledgers.
pub proof fn lemma_propose_inv2(c: Cluster, h: Ballots, g: Ledgers, id: Seq<char>, command: Seq<u8>)
    requires
        inv(c, h, g),
        c.enabled(Action::Propose { id, command }),
    ensures
        inv(c.next(Action::Propose { id, command }), h, propose_ledgers(c, g, id, command)),
{
    let node = c.nodes[id];
    let after = node.leader_append(node.role->Leader_0, Some(command));
    let c2 = c.next(Action::Propose { id, command });
    let g2 = propose_ledgers(c, g, id, command);
    let term = node.term;
    lemma_propose_inv(c, h, id, command);
    assert(c.node_wf(id));
    lemma_leader_append(node, Some(command));
    assert(c2 == c.settle(id, after, c.network));
    assert(leader_ok(c, g, id));
    assert(g2.log(term) == after.log.entries);
    assert(g2.log(term).take(g.log(term).len() as int) =~= g.log(term));
    assert(grown(g, g2, term));
    lemma_grown_frame(c, c2, h, g, g2, term);
    assert forall|i: int| 0 <= i < node.log.entries.len() implies (#[trigger] g2.log(term)[i]).term
        <= term && (g2.log(term)[i].term < term ==> follows(g, g2.log(term), i)) by {
        assert(ledger_ok(g, term, i));
        assert(g2.log(term).take(i + 1) =~= g.log(term).take(i + 1));
    }
    lemma_own_ledger_ok(c, h, g, g2, term, node.log.entries.len() as int);
    assert forall|t: nat, i: int| #[trigger] ledger_ok(g2, t, i) by {
        if t != term {
            assert(ledger_ok(g2, t, i));
        }
    }
    assert forall|x: Seq<char>, i: int| #[trigger] entry_ok(c2, g2, x, i) by {
        assert(entry_ok(c, g, x, i));
        if c2.has(x) && 0 <= i < c2.nodes[x].log.entries.len() {
            if x == id {
                assert(ledger_ok(g2, term, i));
                assert(g2.log(term).take(i + 1) == after.log.entries.take(i + 1));
            } else {
                assert(follows(g2, c2.nodes[x].log.entries, i));
            }
        }
    }
    assert forall|m: MessageView| #[trigger] c2.network.contains(m) implies replicate_ok(g2, m) by {
        if !c.network.contains(m) {
            assert(after.outbox.to_set().contains(m));
            let k = choose|k: int| 0 <= k < after.outbox.len() && after.outbox[k] == m;
            assert(after.outbox[k] == m);
            lemma_carried_ok(g2, m, after);
        }
    }
    assert forall|t: nat| #[trigger] led_ok(c2, h, g2, t) by {
        assert(led_ok(c, h, g, t));
    }
    assert forall|x: Seq<char>| #[trigger] leader_ok(c2, g2, x) by {
        assert(leader_ok(c, g, x));
        if c2.has(x) && c2.nodes[x].role is Leader && x != id {
            assert(c2.nodes[x].term != term) by {
                if c.nodes[x].term == term {
                    assert(g.leader(term) == x);
                }
            }
        }
    }
}

/// The ledger of `term`, where it is the old one or the log of a node that
/// followed the ledgers with entries of earlier terms, and an entry of
/// `term` at its end, is in order.
pub proof fn lemma_own_ledger_ok(c: Cluster, h: Ballots, g: Ledgers, g2: Ledgers, term: nat, kept: int)
    requires
        inv(c, h, g),
        grown(g, g2, term),
        g2.has(term),
        0 <= kept <= g2.log(term).len(),
        forall|i: int| kept <= i < g2.log(term).len() ==> (#[trigger] g2.log(term)[i]).term == term,
        forall|i: int|
            0 <= i < kept ==> (#[trigger] g2.log(term)[i]).term <= term && (g2.log(term)[i].term < term
                ==> follows(g, g2.log(term), i)),
    ensures
        forall|i: int| #[trigger] ledger_ok(g2, term, i),
{
    assert forall|i: int| #[trigger] ledger_ok(g2, term, i) by {
        if 0 <= i < g2.log(term).len() {
            if i < kept {
                assert(g2.log(term)[i].term <= term);
                if g2.log(term)[i].term < term {
                    lemma_follows_grown(g, g2, g2.log(term), i, term);
                }
            }
        }
    }
}

/// What the delivery of `msg` makes of the ledgers: a candidate that wins
/// opens the ledger of its term with its log.
pub open spec fn step_ledgers(c: Cluster, g: Ledgers, msg: MessageView, timeout: nat) -> Ledgers {
    let id = msg.to->0;
    let node = c.nodes[id];
    match node.step(msg, timeout) {
        None => g,
        Some(after) => if node.role is Candidate && after.role is Leader {
            g.with(after.term, id, after.log.entries)
        } else {
            g
        },
    }
}

/// A candidate wins a term that nobody has led.
pub proof fn lemma_new_leader(c: Cluster, h: Ballots, g: Ledgers, msg: MessageView, timeout: nat)
    requires
        inv(c, h, g),
        c.enabled(Action::Deliver { msg, timeout }),
        c.nodes[msg.to->0].role is Candidate,
        c.nodes[msg.to->0].step(msg, timeout) matches Some(after) && after.role is Leader,
    ensures
        !g.has(c.nodes[msg.to->0].term),
{
    let id = msg.to->0;
    let node = c.nodes[id];
    let after = node.step(msg, timeout)->0;
    let term = node.term;
    let c2 = c.next(Action::Deliver { msg, timeout });
    let h2 = step_ballots(c, h, msg, timeout);
    assert(c.node_wf(id));
    lemma_deliver_inv(c, h, msg, timeout);
    lemma_step_summary(node, msg, timeout);
    lemma_step_wf(node, msg, timeout);
    if g.has(term) {
        let l = g.leader(term);
        assert(led_ok(c, h, g, term));
        assert(l != id);
        assert(c2.has(id));
        assert(c2.has(l));
        assert(node_ok(c2, h2, id));
        assert(voters_ok(c2, h2, id, term));
        assert(voters_ok(c2, h2, l, term));
        assert(h2.voters(l, term) == h.voters(l, term));
        lemma_cluster_size(c, id);
        lemma_cluster_size(c, l);
        let v = lemma_quorums_meet(
            c2.nodes.dom(),
            h2.voters(id, term),
            h2.voters(l, term),
            node.quorum(),
        );
        assert(h2.vote(v, term) == Some(id));
        assert(h2.vote(v, term) == Some(l));
    }
}

/// A cluster after the delivery of a message agrees with the ledgers.
pub proof fn lemma_deliver_inv2(c: Cluster, h: Ballots, g: Ledgers, msg: MessageView, timeout: nat)
    requires
        inv(c, h, g),
        c.enabled(Action::Deliver { msg, timeout }),
    ensures
        inv(
            c.next(Action::Deliver { msg, timeout }),
            step_ballots(c, h, msg, timeout),
            step_ledgers(c, g, msg, timeout),
        ),
{
    let id = msg.to->0;
    let node = c.nodes[id];
    let c2 = c.next(Action::Deliver { msg, timeout });
    let h2 = step_ballots(c, h, msg, timeout);
    let g2 = step_ledgers(c, g, msg, timeout);
    assert(c.node_wf(id));
    match node.step(msg, timeout) {
        None => {
            lemma_lose_inv2(c, h, g, msg);
        },
        Some(after) => {
            lemma_deliver_inv(c, h, msg, timeout);
            lemma_step_wf(node, msg, timeout);
            lemma_step_summary(node, msg, timeout);
            lemma_step_log_summary(node, msg, timeout);
            law_step_emits(node, msg, timeout);
            if node.role is Leader {
                lemma_leader_stays(node, msg, timeout);
            }
            let rest = c.network.remove(msg);
            assert(c2 == c.settle(id, after, rest));
            let won = node.role is Candidate && after.role is Leader;
            let term = after.term;
            assert(replicate_ok(g, msg));
            assert(leader_ok(c, g, id));
            if won {
                lemma_new_leader(c, h, g, msg, timeout);
                assert(g2 == g.with(term, id, after.log.entries));
                assert(grown(g, g2, term));
                assert forall|i: int| 0 <= i < node.log.entries.len() implies (
                #[trigger] g2.log(term)[i]).term <= term && (g2.log(term)[i].term < term ==> follows(
                    g,
                    g2.log(term),
                    i,
                )) by {
                    assert(entry_ok(c, g, id, i));
                    assert(g2.log(term).take(i + 1) =~= node.log.entries.take(i + 1));
                }
                lemma_own_ledger_ok(c, h, g, g2, term, node.log.entries.len() as int);
            } else {
                assert(g2 == g);
                lemma_grown_same(g, term);
                assert forall|i: int| #[trigger] ledger_ok(g2, term, i) by {
                    assert(ledger_ok(g, term, i));
                }
            }
            lemma_grown_frame(c, c2, h, g, g2, term);
            assert forall|t: nat, i: int| #[trigger] ledger_ok(g2, t, i) by {
                if t != term {
                    assert(ledger_ok(g2, t, i));
                }
            }
            // The log of the node that took the step.
            assert forall|i: int| 0 <= i < after.log.entries.len() implies follows(
                g2,
                after.log.entries,
                i,
            ) && after.log.entries[i].term <= after.term && (after.role is Candidate
                ==> after.log.entries[i].term < after.term) by {
                if after.log.entries == node.log.entries {
                    assert(entry_ok(c, g, id, i));
                    assert(follows(g2, c2.nodes[id].log.entries, i));
                } else if won {
                    assert(ledger_ok(g2, term, i));
                    if i < node.log.entries.len() {
                        assert(entry_ok(c, g, id, i));
                    }
                } else {
                    lemma_accepted_follows(c, h, g, msg, after, i);
                }
            }
            assert forall|x: Seq<char>, i: int| #[trigger] entry_ok(c2, g2, x, i) by {
                assert(entry_ok(c, g, x, i));
                if c2.has(x) && 0 <= i < c2.nodes[x].log.entries.len() {
                    if x != id {
                        assert(follows(g2, c2.nodes[x].log.entries, i));
                    }
                }
            }
            assert forall|m: MessageView| #[trigger] c2.network.contains(m) implies replicate_ok(
                g2,
                m,
            ) by {
                if !rest.contains(m) {
                    assert(after.outbox.to_set().contains(m));
                    let k = choose|k: int| 0 <= k < after.outbox.len() && after.outbox[k] == m;
                    assert(after.outbox[k] == m);
                    if m.event is ReplicateEntries {
                        lemma_carried_ok(g2, m, after);
                    }
                } else {
                    assert(c.network.contains(m));
                }
            }
            assert forall|t: nat| #[trigger] led_ok(c2, h2, g2, t) by {
                assert(led_ok(c, h, g, t));
                assert(c2.has(id));
                assert(node_ok(c2, h2, id));
                if g2.has(t) && !(won && t == term) {
                    let l = g.leader(t);
                    assert(h2.voters(l, t).len() >= h.voters(l, t).len()) by {
                        assert(voters_ok(c, h, l, t));
                        lemma_voters_grow(c, h, msg, timeout, l, t);
                    }
                }
            }
            assert forall|x: Seq<char>| #[trigger] leader_ok(c2, g2, x) by {
                assert(leader_ok(c, g, x));
                if c2.has(x) && c2.nodes[x].role is Leader && x != id && won {
                    assert(c.nodes[x].term != term);
                }
            }
        },
    }
}

/// The voters that a candidate has counted are not fewer after a delivery.
pub proof fn lemma_voters_grow(c: Cluster, h: Ballots, msg: MessageView, timeout: nat, l: Seq<char>, t: nat)
    requires
        h.voters(l, t).finite(),
    ensures
        step_ballots(c, h, msg, timeout).voters(l, t).len() >= h.voters(l, t).len(),
{
    let h2 = step_ballots(c, h, msg, timeout);
    let from = msg.from->0;
    if h2.voters(l, t) != h.voters(l, t) {
        assert(h2.voters(l, t) == h.voters(l, t).insert(from));
    }
}

/// The log of a follower that has accepted entries follows the ledgers.
pub proof fn lemma_accepted_follows(c: Cluster, h: Ballots, g: Ledgers, msg: MessageView, after: NodeView, i: int)
    requires
        inv(c, h, g),
        c.network.contains(msg),
        msg.to is Some,
        c.has(msg.to->0),
        msg.event is ReplicateEntries,
        msg.term == after.term,
        c.nodes[msg.to->0].term <= after.term,
        msg.event->ReplicateEntries_base_index == 0 || c.nodes[msg.to->0].log.has(
            msg.event->ReplicateEntries_base_index,
            msg.event->ReplicateEntries_base_term,
        ),
        msg.event->ReplicateEntries_base_index <= c.nodes[msg.to->0].log.entries.len(),
        after.log.entries == c.nodes[msg.to->0].log.splice(
            msg.event->ReplicateEntries_base_index,
            msg.event->ReplicateEntries_entries,
        ).entries,
        0 <= i < after.log.entries.len(),
    ensures
        follows(g, after.log.entries, i),
        after.log.entries[i].term <= after.term,
{
    let id = msg.to->0;
    let node = c.nodes[id];
    let base = msg.event->ReplicateEntries_base_index;
    let base_term = msg.event->ReplicateEntries_base_term;
    let entries = msg.event->ReplicateEntries_entries;
    let term = msg.term;
    let ledger = g.log(term);
    assert(replicate_ok(g, msg));
    assert forall|j: int|
        0 <= j < node.log.entries.len() && j < ledger.len() && (#[trigger] node.log.entries[j]).term
            == ledger[j].term implies node.log.entries.take(j + 1) == ledger.take(j + 1) by {
        assert(entry_ok(c, g, id, j));
        assert(ledger_ok(g, term, j));
    }
    assert(node.log.entries.take(base as int) == ledger.take(base as int)) by {
        if base > 0 {
            assert(node.log.entries[base - 1].term == ledger[base - 1].term);
            assert(node.log.entries.take((base - 1) + 1) == ledger.take((base - 1) + 1));
        } else {
            assert(node.log.entries.take(0) =~= ledger.take(0));
        }
    }
    lemma_splice_follows(node.log, ledger, base, entries);
    if node.log.matching(base, entries, 0) < entries.len() {
        assert(after.log.entries == ledger.take((base + entries.len()) as int));
        assert(ledger_ok(g, term, i));
        assert(after.log.entries.take(i + 1) =~= ledger.take(i + 1));
    } else {
        assert(entry_ok(c, g, id, i));
        assert(c.node_wf(id));
    }
}

/// What the actions of an execution make of the ledgers.
pub open spec fn ledgers_after(c: Cluster, actions: Seq<Action>) -> Ledgers
    decreases actions.len(),
{
    if actions.len() == 0 {
        no_ledgers()
    } else {
        let at = c.play(actions.drop_last());
        let g = ledgers_after(c, actions.drop_last());
        match actions.last() {
            Action::Deliver { msg, timeout } => step_ledgers(at, g, msg, timeout),
            Action::Propose { id, command } => propose_ledgers(at, g, id, command),
            _ => g,
        }
    }
}

/// A cluster agrees with the ledgers after every execution.
pub proof fn lemma_play_inv2(c: Cluster, actions: Seq<Action>)
    requires
        c.genesis(),
        c.playable(actions),
    ensures
        inv(c.play(actions), ballots_after(c, actions), ledgers_after(c, actions)),
    decreases actions.len(),
{
    if actions.len() == 0 {
        lemma_genesis_inv(c);
    } else {
        lemma_play_inv2(c, actions.drop_last());
        let at = c.play(actions.drop_last());
        let h = ballots_after(c, actions.drop_last());
        let g = ledgers_after(c, actions.drop_last());
        match actions.last() {
            Action::Tick { id, timeout } => lemma_tick_inv2(at, h, g, id, timeout),
            Action::Deliver { msg, timeout } => lemma_deliver_inv2(at, h, g, msg, timeout),
            Action::Drop { msg } => lemma_lose_inv2(at, h, g, msg),
            Action::Propose { id, command } => lemma_propose_inv2(at, h, g, id, command),
        }
    }
}

/// Log matching: in a cluster that starts with empty logs, whatever ticks,
/// deliveries, losses and commands follow, two logs that hold an entry of
/// the same term at the same index are the same up to that entry.
pub proof fn law_log_matching(c: Cluster, actions: Seq<Action>)
    requires
        c.genesis(),
        c.playable(actions),
    ensures
        c.play(actions).log_matching(),
{
    lemma_play_inv2(c, actions);
    lemma_inv_matching(c.play(actions), ballots_after(c, actions), ledgers_after(c, actions));
}

} // verus!
