//! What holds of every node, proved over the model.
//!
//! The handlers of the executable node return what the model's `step` and
//! `tick` give, so what is proved here of the model holds of every node that
//! the library hands out.

use crate::model::{
    valid_inputs, valid_timeout, CandidateView, EntryView, EventView, Input, LogView, MessageView,
    NodeView, RoleView,
};
use vstd::prelude::*;

verus! {

/// The entries that a splice keeps lie within the new entries and within
/// the log.
pub proof fn lemma_matching_bounds(log: LogView, base: nat, entries: Seq<EntryView>, k: nat)
    requires
        k <= entries.len(),
        base + k <= log.entries.len(),
    ensures
        k <= log.matching(base, entries, k) <= entries.len(),
        base + log.matching(base, entries, k) <= log.entries.len(),
    decreases entries.len() - k,
{
    if k < entries.len() && base + k < log.entries.len() && log.entries[(base + k) as int].term
        == entries[k as int].term {
        lemma_matching_bounds(log, base, entries, k + 1);
    }
}

/// A splice that replaces no committed entry leaves a well-formed log that
/// ends with the last of the new entries or behind it.
pub proof fn lemma_splice_wf(log: LogView, base: nat, entries: Seq<EntryView>)
    requires
        log.wf(),
        base <= log.entries.len(),
        !log.splice_conflicts(base, entries),
    ensures
        log.splice(base, entries).wf(),
        log.splice(base, entries).entries.len() >= base + entries.len(),
        log.splice(base, entries).commit_index == log.commit_index,
        log.splice(base, entries).apply_index == log.apply_index,
{
    lemma_matching_bounds(log, base, entries, 0);
}

/// A node that starts an election is a well-formed candidate.
pub proof fn lemma_campaign_wf(node: NodeView, timeout: nat)
    requires
        node.wf(),
        valid_timeout(timeout),
    ensures
        node.campaign(timeout).wf(),
        node.campaign(timeout).role is Candidate,
        node.follower_tick(timeout).wf(),
{
}

/// A follower's step keeps the invariant, and leaves a follower.
pub proof fn lemma_follower_step_wf(node: NodeView, msg: MessageView, timeout: nat)
    requires
        node.wf(),
        node.role is Follower,
        valid_timeout(timeout),
    ensures
        node.follower_step(msg, timeout) matches Some(after) ==> after.wf() && after.role is Follower,
{
    if node.accepts(msg) && msg.from is Some {
        let from = msg.from->0;
        let at = if msg.term > node.term {
            node.adopt(msg.term, from, timeout)
        } else {
            node
        };
        assert(at.wf());
        if let EventView::ReplicateEntries { base_index, base_term, entries } = msg.event {
            if !(base_index > 0 && !at.log.has(base_index, base_term)) {
                if !at.log.splice_conflicts(base_index, entries) {
                    lemma_splice_wf(at.log, base_index, entries);
                }
            }
        }
    }
}

/// A node that takes over a term and follows its sender is a well-formed
/// follower.
pub proof fn lemma_adopt_wf(node: NodeView, term: nat, leader: Seq<char>, timeout: nat)
    requires
        node.wf(),
        valid_timeout(timeout),
    ensures
        node.adopt(term, leader, timeout).wf(),
        node.adopt(term, leader, timeout).role is Follower,
{
}

/// The index that a leader commits lies between its commit index and the
/// end of its log, and is the commit index itself or a committable index
/// that no committable index up to `from` exceeds.
pub proof fn lemma_commit_target_bounds(node: NodeView, l: crate::model::LeaderView, from: nat)
    requires
        node.log.wf(),
        from <= node.log.last_index(),
    ensures
        node.log.commit_index <= node.commit_target(l, from) <= node.log.last_index(),
        node.commit_target(l, from) == node.log.commit_index || node.committable(
            l,
            node.commit_target(l, from),
        ),
        forall|n: nat| n <= from && node.committable(l, n) ==> n <= node.commit_target(l, from),
    decreases from,
{
    if from > node.log.commit_index && !node.committable(l, from) {
        lemma_commit_target_bounds(node, l, (from - 1) as nat);
    }
}

/// A leader's step keeps the invariant.
pub proof fn lemma_leader_step_wf(node: NodeView, msg: MessageView, timeout: nat)
    requires
        node.wf(),
        node.role is Leader,
        valid_timeout(timeout),
    ensures
        node.leader_step(msg, timeout) matches Some(after) ==> after.wf(),
{
    let l = node.role->Leader_0;
    if node.accepts(msg) && msg.from is Some {
        let from = msg.from->0;
        if msg.term > node.term {
            lemma_adopt_wf(node, msg.term, from, timeout);
            lemma_follower_step_wf(node.adopt(msg.term, from, timeout), node.addressed(msg), timeout);
        } else if node.peers.contains(from) {
            let i = node.peers.index_of(from);
            assert(0 <= i < node.peers.len());
            assert(l.peer_last_index[i] < l.peer_next_index[i]);
            if let EventView::AcceptEntries { last_index } = msg.event {
                if l.peer_last_index[i] < last_index <= node.log.last_index() {
                    let l2 = crate::model::LeaderView {
                        peer_last_index: l.peer_last_index.update(i, last_index),
                        peer_next_index: l.peer_next_index.update(i, last_index + 1),
                        ..l
                    };
                    lemma_commit_target_bounds(
                        node.with_role(crate::model::RoleView::Leader(l2)),
                        l2,
                        node.log.last_index(),
                    );
                }
            }
        }
    }
}

/// A leader's tick keeps the invariant.
pub proof fn lemma_leader_tick_wf(node: NodeView)
    requires
        node.wf(),
        node.role is Leader,
    ensures
        node.leader_tick().wf(),
        node.leader_tick().role is Leader,
{
}

/// A candidate that follows the sender of a message, in the candidate's own
/// term or in a greater one, is a well-formed follower.
pub proof fn lemma_follow_wf(node: NodeView, term: nat, leader: Seq<char>, timeout: nat)
    requires
        node.wf(),
        valid_timeout(timeout),
    ensures
        node.adopt(term, leader, timeout).wf(),
        node.follow(leader, timeout).wf(),
{
}

/// A candidate that has won is a well-formed leader.
pub proof fn lemma_become_leader_wf(node: NodeView)
    requires
        node.campaigns(),
    ensures
        node.become_leader().wf(),
        node.become_leader().role is Leader,
        node.with_role(
            crate::model::RoleView::Leader(
                crate::model::LeaderView::fresh(node.peers.len(), node.log.last_index()),
            ),
        ).wf(),
{
}

/// A candidate's step keeps the invariant.
pub proof fn lemma_candidate_step_wf(node: NodeView, msg: MessageView, timeout: nat)
    requires
        node.wf(),
        node.role is Candidate,
        valid_timeout(timeout),
    ensures
        node.candidate_step(msg, timeout) matches Some(after) ==> after.wf(),
{
    let c = node.role->Candidate_0;
    if node.accepts(msg) {
        if msg.term > node.term && msg.from is Some {
            lemma_follow_wf(node, msg.term, msg.from->0, timeout);
            lemma_follower_step_wf(
                node.adopt(msg.term, msg.from->0, timeout),
                node.addressed(msg),
                timeout,
            );
        } else if msg.event is Heartbeat && msg.from is Some {
            lemma_follow_wf(node, msg.term, msg.from->0, timeout);
            lemma_follower_step_wf(node.follow(msg.from->0, timeout), node.addressed(msg), timeout);
        } else if msg.event is GrantVote {
            let voted = node.with_role(
                crate::model::RoleView::Candidate(crate::model::CandidateView { votes: c.votes + 1, ..c }),
            );
            if c.votes + 1 >= node.quorum() {
                lemma_become_leader_wf(voted);
            }
        }
    }
}

/// A candidate's tick keeps the invariant, and leaves a candidate.
pub proof fn lemma_candidate_tick_wf(node: NodeView, timeout: nat)
    requires
        node.wf(),
        node.role is Candidate,
        valid_timeout(timeout),
    ensures
        node.candidate_tick(timeout).wf(),
        node.candidate_tick(timeout).role is Candidate,
{
}

/// Every step keeps the invariant of the node.
pub proof fn lemma_step_wf(node: NodeView, msg: MessageView, timeout: nat)
    requires
        node.wf(),
        valid_timeout(timeout),
    ensures
        node.step(msg, timeout) matches Some(after) ==> after.wf(),
{
    match node.role {
        RoleView::Follower(_) => lemma_follower_step_wf(node, msg, timeout),
        RoleView::Candidate(_) => lemma_candidate_step_wf(node, msg, timeout),
        RoleView::Leader(_) => lemma_leader_step_wf(node, msg, timeout),
    }
}

/// Every tick keeps the invariant of the node.
pub proof fn lemma_tick_wf(node: NodeView, timeout: nat)
    requires
        node.wf(),
        valid_timeout(timeout),
    ensures
        node.tick(timeout).wf(),
{
    match node.role {
        RoleView::Follower(_) => lemma_campaign_wf(node, timeout),
        RoleView::Candidate(_) => lemma_candidate_tick_wf(node, timeout),
        RoleView::Leader(_) => lemma_leader_tick_wf(node),
    }
}

/// The inputs of an execution but the last, and the last, bring admissible
/// election timeouts where all inputs do.
pub proof fn lemma_valid_inputs_split(inputs: Seq<Input>)
    requires
        valid_inputs(inputs),
        inputs.len() > 0,
    ensures
        valid_inputs(inputs.drop_last()),
        valid_timeout(inputs.last().timeout()),
{
    assert(valid_timeout(inputs[inputs.len() - 1].timeout()));
    assert forall|i: int| 0 <= i < inputs.drop_last().len() implies valid_timeout(
        #[trigger] inputs.drop_last()[i].timeout(),
    ) by {
        assert(inputs.drop_last()[i] == inputs[i]);
    }
}

/// Every execution keeps the invariant of the node.
pub proof fn lemma_run_wf(node: NodeView, inputs: Seq<Input>)
    requires
        node.wf(),
        valid_inputs(inputs),
    ensures
        node.run(inputs) matches Some(after) ==> after.wf(),
    decreases inputs.len(),
{
    if inputs.len() > 0 {
        lemma_valid_inputs_split(inputs);
        lemma_run_wf(node, inputs.drop_last());
        if let Some(at) = node.run(inputs.drop_last()) {
            match inputs.last() {
                Input::Tick { timeout } => lemma_tick_wf(at, timeout),
                Input::Deliver { msg, timeout } => lemma_step_wf(at, msg, timeout),
            }
        }
    }
}

/// What one input never undoes: the term does not decrease, a vote that the
/// term record holds stays while the term stays, the commit index and the
/// apply index do not decrease, the committed entries stay as they are, and
/// the messages emitted before stay in the outbox.
pub open spec fn advances(before: NodeView, after: NodeView) -> bool {
    &&& before.term <= after.term
    &&& before.id == after.id
    &&& before.peers == after.peers
    &&& after.term == before.term && before.log.voted_for is Some ==> after.log.voted_for
        == before.log.voted_for
    &&& before.log.commit_index <= after.log.commit_index
    &&& before.log.apply_index <= after.log.apply_index
    &&& after.log.entries.take(before.log.commit_index as int) == before.log.entries.take(
        before.log.commit_index as int,
    )
    &&& before.outbox.len() <= after.outbox.len()
    &&& after.outbox.take(before.outbox.len() as int) == before.outbox
}

/// A splice that replaces no committed entry leaves the committed entries as
/// they are.
pub proof fn lemma_splice_keeps_committed(log: LogView, base: nat, entries: Seq<EntryView>)
    requires
        log.wf(),
        base <= log.entries.len(),
        !log.splice_conflicts(base, entries),
    ensures
        log.splice(base, entries).entries.take(log.commit_index as int) == log.entries.take(
            log.commit_index as int,
        ),
{
    lemma_matching_bounds(log, base, entries, 0);
    let keep = log.matching(base, entries, 0);
    if keep < entries.len() {
        assert(log.splice(base, entries).entries.take(log.commit_index as int) =~= log.entries.take(
            log.commit_index as int,
        ));
    }
}

/// Term monotonicity, vote stability, commit monotonicity and apply
/// monotonicity of a step: whatever the message, the node that a step returns
/// is not behind the node that took the step.
pub proof fn law_step_advances(node: NodeView, msg: MessageView, timeout: nat)
    requires
        node.wf(),
        valid_timeout(timeout),
    ensures
        node.step(msg, timeout) matches Some(after) ==> advances(node, after),
{
    assert(node.outbox.take(node.outbox.len() as int) =~= node.outbox);
    if node.accepts(msg) && msg.from is Some {
        let from = msg.from->0;
        let adopted = node.adopt(msg.term, from, timeout);
        let followed = node.follow(from, timeout);
        lemma_follow_wf(node, msg.term, from, timeout);
        lemma_follower_handle_advances(adopted, from, msg.event);
        lemma_follower_handle_advances(followed, from, msg.event);
        if node.role is Follower {
            lemma_follower_handle_advances(node, from, msg.event);
        }
        if let RoleView::Leader(l) = node.role {
            if msg.term <= node.term && node.peers.contains(from) {
                let i = node.peers.index_of(from);
                lemma_leader_handle_advances(node, l, i, msg.event);
            }
        }
    }
    if let RoleView::Candidate(c) = node.role {
        let voted = node.with_role(RoleView::Candidate(CandidateView { votes: c.votes + 1, ..c }));
        lemma_become_leader_advances(voted);
    }
}

/// What a follower makes of an event does not fall behind the follower.
pub proof fn lemma_follower_handle_advances(node: NodeView, from: Seq<char>, event: EventView)
    requires
        node.wf(),
        node.role is Follower,
    ensures
        node.follower_handle(node.role->Follower_0, from, event) matches Some(after) ==> advances(
            node,
            after,
        ),
{
    assert(node.outbox.take(node.outbox.len() as int) =~= node.outbox);
    let f = node.role->Follower_0;
    if let Some(after) = node.follower_handle(f, from, event) {
        assert(after.outbox.take(node.outbox.len() as int) =~= node.outbox);
        if let EventView::ReplicateEntries { base_index, base_term, entries } = event {
            if !(base_index > 0 && !node.log.has(base_index, base_term)) {
                lemma_splice_wf(node.log, base_index, entries);
                lemma_splice_keeps_committed(node.log, base_index, entries);
            }
        }
    }
}

/// What a leader makes of an event does not fall behind the leader.
pub proof fn lemma_leader_handle_advances(node: NodeView, l: crate::model::LeaderView, i: int, event: EventView)
    requires
        node.wf(),
        node.role == RoleView::Leader(l),
        0 <= i < node.peers.len(),
    ensures
        advances(node, node.leader_handle(l, i, event)),
{
    assert(node.outbox.take(node.outbox.len() as int) =~= node.outbox);
    let after = node.leader_handle(l, i, event);
    assert(after.outbox.take(node.outbox.len() as int) =~= node.outbox);
    if let EventView::AcceptEntries { last_index } = event {
        if l.peer_last_index[i] < last_index <= node.log.last_index() {
            let l2 = crate::model::LeaderView {
                peer_last_index: l.peer_last_index.update(i, last_index),
                peer_next_index: l.peer_next_index.update(i, last_index + 1),
                ..l
            };
            lemma_commit_target_bounds(node.with_role(RoleView::Leader(l2)), l2, node.log.last_index());
        }
    }
}

/// A candidate that becomes leader does not fall behind the candidate.
pub proof fn lemma_become_leader_advances(node: NodeView)
    requires
        node.campaigns(),
    ensures
        advances(node, node.become_leader()),
{
    let after = node.become_leader();
    assert(after.outbox.take(node.outbox.len() as int) =~= node.outbox);
    assert(after.log.entries.take(node.log.commit_index as int) =~= node.log.entries.take(
        node.log.commit_index as int,
    ));
}

/// Term monotonicity, vote stability, commit monotonicity and apply
/// monotonicity of a tick.
pub proof fn law_tick_advances(node: NodeView, timeout: nat)
    requires
        node.wf(),
        valid_timeout(timeout),
    ensures
        advances(node, node.tick(timeout)),
{
    let after = node.tick(timeout);
    assert(after.outbox.take(node.outbox.len() as int) =~= node.outbox);
}

/// `advances` is transitive.
pub proof fn lemma_advances_transitive(a: NodeView, b: NodeView, c: NodeView)
    requires
        advances(a, b),
        advances(b, c),
        a.log.wf(),
        b.log.wf(),
        c.log.wf(),
    ensures
        advances(a, c),
{
    assert(c.outbox.take(a.outbox.len() as int) =~= b.outbox.take(a.outbox.len() as int));
    assert(c.log.entries.take(a.log.commit_index as int) =~= c.log.entries.take(
        b.log.commit_index as int,
    ).take(a.log.commit_index as int));
    assert(b.log.entries.take(a.log.commit_index as int) =~= b.log.entries.take(
        b.log.commit_index as int,
    ).take(a.log.commit_index as int));
}

/// Term monotonicity, vote stability and commit monotonicity of an
/// execution: across any sequence of steps and ticks the term of a node does
/// not decrease; while the term stays, a vote that the term record holds
/// stays; the commit index and the apply index do not decrease; and the
/// committed entries stay as they are.
pub proof fn law_run_advances(node: NodeView, inputs: Seq<Input>)
    requires
        node.wf(),
        valid_inputs(inputs),
    ensures
        node.run(inputs) matches Some(after) ==> advances(node, after),
    decreases inputs.len(),
{
    assert(node.outbox.take(node.outbox.len() as int) =~= node.outbox);
    if inputs.len() > 0 {
        lemma_valid_inputs_split(inputs);
        law_run_advances(node, inputs.drop_last());
        lemma_run_wf(node, inputs.drop_last());
        lemma_run_wf(node, inputs);
        if let Some(at) = node.run(inputs.drop_last()) {
            match inputs.last() {
                Input::Tick { timeout } => {
                    law_tick_advances(at, timeout);
                    lemma_advances_transitive(node, at, at.tick(timeout));
                },
                Input::Deliver { msg, timeout } => {
                    law_step_advances(at, msg, timeout);
                    if let Some(after) = at.step(msg, timeout) {
                        lemma_advances_transitive(node, at, after);
                    }
                },
            }
        }
    }
}

/// What holds of the messages that an input makes a node emit: each
/// carries the node as its sender, a recipient, and the term that the node
/// has after the input; and a vote is granted only to the node that the term
/// record then names, which is the node that it named before where it named
/// one in the same term.
pub open spec fn emits_well(before: NodeView, after: NodeView) -> bool {
    &&& before.outbox.len() <= after.outbox.len()
    &&& forall|k: int|
        before.outbox.len() <= k < after.outbox.len() ==> {
            let m = #[trigger] after.outbox[k];
            &&& m.from == Some(after.id)
            &&& m.term == after.term
            &&& m.term == after.log.term
            &&& m.to is Some
            &&& m.event is GrantVote ==> {
                &&& after.log.voted_for == m.to
                &&& after.term == before.term ==> before.log.voted_for is None || before.log.voted_for
                    == m.to
            }
        }
}

/// What a follower emits on an event is emitted well.
pub proof fn lemma_follower_handle_emits(node: NodeView, from: Seq<char>, event: EventView)
    requires
        node.wf(),
        node.role is Follower,
    ensures
        node.follower_handle(node.role->Follower_0, from, event) matches Some(after) ==> emits_well(
            node,
            after,
        ) && after.term == node.term,
{
}

/// What a leader emits on an event is emitted well, and grants no vote.
pub proof fn lemma_leader_handle_emits(node: NodeView, l: crate::model::LeaderView, i: int, event: EventView)
    requires
        node.wf(),
        node.role == RoleView::Leader(l),
        0 <= i < node.peers.len(),
    ensures
        emits_well(node, node.leader_handle(l, i, event)),
        node.leader_handle(l, i, event).term == node.term,
{
}

/// What a new leader emits is emitted well, and grants no vote.
pub proof fn lemma_become_leader_emits(node: NodeView)
    requires
        node.campaigns(),
    ensures
        emits_well(node, node.become_leader()),
{
    let after = node.become_leader();
    let l = crate::model::LeaderView::fresh(node.peers.len(), node.log.last_index());
    let heartbeat = EventView::Heartbeat {
        commit_index: node.log.commit_index,
        commit_term: node.log.commit_term(),
    };
    let led = node.with_role(RoleView::Leader(l)).broadcast(heartbeat);
    let grown = led.with_log(led.log.append(EntryView { term: led.term, command: None }));
    assert forall|k: int| node.outbox.len() <= k < after.outbox.len() implies {
        let m = #[trigger] after.outbox[k];
        &&& m.from == Some(after.id)
        &&& m.term == after.term
        &&& m.term == after.log.term
        &&& m.to is Some
        &&& !(m.event is GrantVote)
    } by {
        if k < led.outbox.len() {
            assert(after.outbox[k] == node.broadcast_messages(heartbeat)[k - node.outbox.len()]);
        } else {
            assert(after.outbox[k] == grown.replicate_messages(l)[k - led.outbox.len()]);
        }
    }
}

/// What a node that starts an election emits is emitted well, and grants no
/// vote.
pub proof fn lemma_campaign_emits(node: NodeView, timeout: nat)
    requires
        node.wf(),
    ensures
        emits_well(node, node.campaign(timeout)),
{
    let after = node.campaign(timeout);
    let solicit = EventView::SolicitVote {
        last_index: node.log.last_index(),
        last_term: node.log.last_term(),
    };
    let at = node.save_term(node.term + 1, Some(node.id)).with_role(
        RoleView::Candidate(CandidateView::fresh(timeout)),
    );
    assert forall|k: int| node.outbox.len() <= k < after.outbox.len() implies {
        let m = #[trigger] after.outbox[k];
        &&& m.from == Some(after.id)
        &&& m.term == after.term
        &&& m.term == after.log.term
        &&& m.to is Some
        &&& !(m.event is GrantVote)
    } by {
        assert(after.outbox[k] == at.broadcast_messages(solicit)[k - node.outbox.len()]);
    }
}

/// Messages carry the stored term: every message that a step emits names
/// the node as its sender and carries the term that the node has, and has
/// stored in its term record, after the step. A vote is granted only to the
/// node that the term record names after the step.
pub proof fn law_step_emits(node: NodeView, msg: MessageView, timeout: nat)
    requires
        node.wf(),
        valid_timeout(timeout),
    ensures
        node.step(msg, timeout) matches Some(after) ==> emits_well(node, after),
{
    if node.accepts(msg) && msg.from is Some {
        let from = msg.from->0;
        let adopted = node.adopt(msg.term, from, timeout);
        let followed = node.follow(from, timeout);
        lemma_follow_wf(node, msg.term, from, timeout);
        lemma_follower_handle_emits(adopted, from, msg.event);
        lemma_follower_handle_emits(followed, from, msg.event);
        if node.role is Follower {
            lemma_follower_handle_emits(node, from, msg.event);
        }
        if let RoleView::Leader(l) = node.role {
            if msg.term <= node.term && node.peers.contains(from) {
                let i = node.peers.index_of(from);
                lemma_leader_handle_emits(node, l, i, msg.event);
            }
        }
    }
    if let RoleView::Candidate(c) = node.role {
        let voted = node.with_role(RoleView::Candidate(CandidateView { votes: c.votes + 1, ..c }));
        lemma_become_leader_emits(voted);
    }
}

/// Messages carry the stored term: every message that a tick emits names the
/// node as its sender and carries the term that the node has, and has stored
/// in its term record, after the tick. A tick grants no vote.
pub proof fn law_tick_emits(node: NodeView, timeout: nat)
    requires
        node.wf(),
        valid_timeout(timeout),
    ensures
        emits_well(node, node.tick(timeout)),
{
    let after = node.tick(timeout);
    match node.role {
        RoleView::Follower(_) => lemma_campaign_emits(node, timeout),
        RoleView::Candidate(_) => {
            let at = node.with_log(node.log.applied());
            lemma_campaign_emits(at, timeout);
        },
        RoleView::Leader(l) => {
            let at = node.with_log(node.log.applied()).with_role(
                RoleView::Leader(crate::model::LeaderView { heartbeat_ticks: 0, ..l }),
            );
            let heartbeat = EventView::Heartbeat {
                commit_index: at.log.commit_index,
                commit_term: at.log.commit_term(),
            };
            let led = at.broadcast(heartbeat);
            assert forall|k: int| node.outbox.len() <= k < after.outbox.len() implies {
                let m = #[trigger] after.outbox[k];
                &&& m.from == Some(after.id)
                &&& m.term == after.term
                &&& m.term == after.log.term
                &&& m.to is Some
                &&& !(m.event is GrantVote)
            } by {
                if k < led.outbox.len() {
                    assert(after.outbox[k] == at.broadcast_messages(heartbeat)[k - node.outbox.len()]);
                } else {
                    assert(after.outbox[k] == led.replicate_messages(l)[k - led.outbox.len()]);
                }
            }
        },
    }
}

/// The votes in the outbox of a node agree with its term record: no vote
/// was granted in a term ahead of the node, the votes of the node's own term
/// went to the node that the term record names, and the votes of any one
/// term went to one node.
pub open spec fn votes_consistent(node: NodeView) -> bool {
    &&& forall|i: int|
        0 <= i < node.outbox.len() && (#[trigger] node.outbox[i]).event is GrantVote ==> {
            &&& node.outbox[i].to is Some
            &&& node.outbox[i].term <= node.term
            &&& node.outbox[i].term == node.term ==> node.log.voted_for == node.outbox[i].to
        }
    &&& forall|i: int, j: int|
        0 <= i < node.outbox.len() && 0 <= j < node.outbox.len() && (#[trigger] node.outbox[i]).event is GrantVote
            && (#[trigger] node.outbox[j]).event is GrantVote && node.outbox[i].term
            == node.outbox[j].term ==> node.outbox[i].to == node.outbox[j].to
}

/// An input that does not undo anything and emits well keeps the votes in
/// the outbox consistent.
pub proof fn lemma_votes_frame(before: NodeView, after: NodeView)
    requires
        votes_consistent(before),
        advances(before, after),
        emits_well(before, after),
    ensures
        votes_consistent(after),
{
    assert forall|i: int| 0 <= i < before.outbox.len() implies #[trigger] after.outbox[i]
        == before.outbox[i] by {
        assert(after.outbox.take(before.outbox.len() as int)[i] == after.outbox[i]);
    }
}

/// Vote uniqueness of a step: where the votes that a node has granted agree
/// with its term record before a step, they do after it. So the votes that a
/// node grants in one term all go to one node.
pub proof fn law_step_votes(node: NodeView, msg: MessageView, timeout: nat)
    requires
        node.wf(),
        valid_timeout(timeout),
        votes_consistent(node),
    ensures
        node.step(msg, timeout) matches Some(after) ==> votes_consistent(after),
{
    law_step_advances(node, msg, timeout);
    law_step_emits(node, msg, timeout);
    if let Some(after) = node.step(msg, timeout) {
        lemma_votes_frame(node, after);
    }
}

/// Vote uniqueness of an execution: a node that has nothing in its outbox
/// grants, across any sequence of steps and ticks, the votes of any one term
/// to one node.
pub proof fn law_run_votes(node: NodeView, inputs: Seq<Input>)
    requires
        node.wf(),
        valid_inputs(inputs),
        votes_consistent(node),
    ensures
        node.run(inputs) matches Some(after) ==> votes_consistent(after),
    decreases inputs.len(),
{
    if inputs.len() > 0 {
        lemma_valid_inputs_split(inputs);
        law_run_votes(node, inputs.drop_last());
        lemma_run_wf(node, inputs.drop_last());
        if let Some(at) = node.run(inputs.drop_last()) {
            match inputs.last() {
                Input::Tick { timeout } => {
                    law_tick_advances(at, timeout);
                    law_tick_emits(at, timeout);
                    lemma_votes_frame(at, at.tick(timeout));
                },
                Input::Deliver { msg, timeout } => {
                    law_step_votes(at, msg, timeout);
                },
            }
        }
    }
}

/// Stale messages are dropped: a message of a term behind the node's leaves
/// the node as it is, in its role, with nothing emitted and nothing applied.
pub proof fn law_stale_message_dropped(node: NodeView, msg: MessageView, timeout: nat)
    requires
        msg.term < node.term,
    ensures
        node.step(msg, timeout) == Some(node),
        node.step_drains(msg) is None,
{
}

/// A message for another node is dropped in the same way.
pub proof fn law_foreign_message_dropped(node: NodeView, msg: MessageView, timeout: nat)
    requires
        msg.to is Some,
        msg.to != Some(node.id),
    ensures
        node.step(msg, timeout) == Some(node),
        node.step_drains(msg) is None,
{
}

/// A candidate that receives a heartbeat of its own term follows the sender
/// in the same term, keeps the vote that its term record holds, and confirms
/// the leader.
pub proof fn law_candidate_follows_heartbeat(node: NodeView, msg: MessageView, timeout: nat)
    requires
        node.wf(),
        node.role is Candidate,
        node.accepts(msg),
        msg.term == node.term,
        msg.from is Some,
        msg.event is Heartbeat,
    ensures
        node.step(msg, timeout) matches Some(after) && {
            &&& after.term == node.term
            &&& after.log.voted_for == node.log.voted_for
            &&& after.log.term == node.log.term
            &&& after.role matches RoleView::Follower(f)
            &&& f.leader == msg.from
            &&& f.voted_for == node.log.voted_for
            &&& f.leader_seen_ticks == 0
            &&& f.election_timeout == timeout
            &&& after.outbox == node.outbox.push(
                after.message(
                    msg.from->0,
                    EventView::ConfirmLeader {
                        commit_index: msg.event->Heartbeat_commit_index,
                        has_committed: node.log.has(
                            msg.event->Heartbeat_commit_index,
                            msg.event->Heartbeat_commit_term,
                        ),
                    },
                ),
            )
        },
{
    let after = node.step(msg, timeout)->0;
    assert(after.outbox =~= node.outbox.push(after.outbox.last()));
}

/// A candidate whose election times out campaigns again: it is a fresh
/// candidate of the next term with the election timeout that it was given,
/// its term record holds that term with a vote for the candidate itself, and
/// what it emits is one request for a vote to each peer, in that term, with
/// the end of its log.
pub proof fn law_candidate_election_timeout(node: NodeView, timeout: nat)
    requires
        node.wf(),
        node.role matches RoleView::Candidate(c) && c.election_ticks + 1 >= c.election_timeout,
    ensures
        ({
            let after = node.tick(timeout);
            &&& after.term == node.term + 1
            &&& after.log.term == node.term + 1
            &&& after.log.voted_for == Some(node.id)
            &&& after.role == RoleView::Candidate(CandidateView::fresh(timeout))
            &&& after.log.entries == node.log.entries
            &&& after.emitted_since(node) == after.broadcast_messages(
                EventView::SolicitVote {
                    last_index: node.log.last_index(),
                    last_term: node.log.last_term(),
                },
            )
        }),
{
    let after = node.tick(timeout);
    let solicit = EventView::SolicitVote {
        last_index: node.log.last_index(),
        last_term: node.log.last_term(),
    };
    assert(after.emitted_since(node) =~= after.broadcast_messages(solicit));
}

/// A candidate whose election has not timed out stays a candidate of its
/// term and emits nothing on a tick.
pub proof fn law_candidate_waits(node: NodeView, timeout: nat)
    requires
        node.wf(),
        node.role matches RoleView::Candidate(c) && c.election_ticks + 1 < c.election_timeout,
    ensures
        ({
            let after = node.tick(timeout);
            &&& after.term == node.term
            &&& after.role matches RoleView::Candidate(c)
            &&& c.election_ticks == node.role->Candidate_0.election_ticks + 1
            &&& c.votes == node.role->Candidate_0.votes
            &&& after.outbox == node.outbox
            &&& after.log == node.log.applied()
        }),
{
}

/// Quorum necessity of a step: a candidate becomes leader on a step exactly
/// where the step counts a vote that brings the votes up to the quorum. A
/// vote that leaves them below the quorum leaves a candidate of the same term
/// that has emitted nothing.
pub proof fn law_promotion_needs_quorum(node: NodeView, msg: MessageView, timeout: nat)
    requires
        node.wf(),
        node.role is Candidate,
        valid_timeout(timeout),
    ensures
        node.step(msg, timeout) matches Some(after) ==> {
            &&& after.role is Leader <==> node.counts_vote(msg) && node.role->Candidate_0.votes + 1
                >= node.quorum()
            &&& after.role is Leader ==> after.term == node.term
            &&& node.counts_vote(msg) && node.role->Candidate_0.votes + 1 < node.quorum() ==> after
                == node.with_role(
                RoleView::Candidate(
                    CandidateView {
                        votes: node.role->Candidate_0.votes + 1,
                        ..node.role->Candidate_0
                    },
                ),
            )
        },
{
    if node.accepts(msg) && msg.from is Some {
        let from = msg.from->0;
        lemma_follow_wf(node, msg.term, from, timeout);
        lemma_follower_step_wf(node.adopt(msg.term, from, timeout), node.addressed(msg), timeout);
        lemma_follower_step_wf(node.follow(from, timeout), node.addressed(msg), timeout);
    }
}

/// The votes that a node may count on: those of a candidate, the quorum for
/// a leader, its own for a follower.
pub open spec fn tally(node: NodeView) -> nat {
    match node.role {
        RoleView::Follower(_) => 1,
        RoleView::Candidate(c) => c.votes,
        RoleView::Leader(_) => node.quorum(),
    }
}

/// How many of `inputs` bring a vote.
pub open spec fn grants(inputs: Seq<Input>) -> nat
    decreases inputs.len(),
{
    if inputs.len() == 0 {
        0
    } else {
        grants(inputs.drop_last()) + if inputs.last() matches Input::Deliver { msg, .. } && msg.event is GrantVote {
            1nat
        } else {
            0nat
        }
    }
}

/// Quorum necessity of an execution: a node leads only after it has been
/// brought the votes that it lacked. A candidate with `v` votes that leads
/// after an execution has been brought at least `quorum() - v` votes in it; a
/// follower, at least `quorum() - 1`.
pub proof fn law_leader_was_voted(node: NodeView, inputs: Seq<Input>)
    requires
        node.wf(),
        valid_inputs(inputs),
    ensures
        node.run(inputs) matches Some(after) ==> tally(after) <= tally(node) + grants(inputs),
    decreases inputs.len(),
{
    if inputs.len() > 0 {
        lemma_valid_inputs_split(inputs);
        law_leader_was_voted(node, inputs.drop_last());
        lemma_run_wf(node, inputs.drop_last());
        law_run_advances(node, inputs.drop_last());
        if let Some(at) = node.run(inputs.drop_last()) {
            match inputs.last() {
                Input::Tick { timeout } => {
                    lemma_tick_wf(at, timeout);
                },
                Input::Deliver { msg, timeout } => {
                    lemma_step_wf(at, msg, timeout);
                    law_step_advances(at, msg, timeout);
                    if at.role is Candidate {
                        law_promotion_needs_quorum(at, msg, timeout);
                    }
                    if at.role is Follower {
                        lemma_follower_step_wf(at, msg, timeout);
                    }
                },
            }
        }
    }
}

/// Whether the messages that `after` has emitted since `before` hold a
/// vote.
pub open spec fn grants_vote(before: NodeView, after: NodeView) -> bool {
    exists|k: int| before.outbox.len() <= k < after.outbox.len() && (#[trigger] after.outbox[k]).event is GrantVote
}

/// What a step does to the part of a node that elections rest on.
pub open spec fn step_summary(node: NodeView, msg: MessageView, after: NodeView) -> bool {
    &&& after.id == node.id
    &&& after.peers == node.peers
    &&& after.term >= node.term
    &&& after.term > node.term ==> after.role is Follower && after.term == msg.term
    &&& node.outbox.len() <= after.outbox.len()
    &&& forall|k: int|
        node.outbox.len() <= k < after.outbox.len() ==> {
            let m = #[trigger] after.outbox[k];
            &&& m.from == Some(node.id)
            &&& m.term == after.term
            &&& m.to is Some
            &&& !(m.event is SolicitVote)
            &&& m.event is GrantVote ==> m.to == msg.from
        }
    &&& if grants_vote(node, after) {
        &&& node.accepts(msg)
        &&& msg.event is SolicitVote
        &&& msg.from is Some
        &&& msg.term == after.term
        &&& after.role is Follower
        &&& after.log.voted_for == msg.from
        &&& after.term == node.term ==> node.log.voted_for is None || node.log.voted_for == msg.from
    } else if after.term > node.term {
        after.log.voted_for is None
    } else {
        after.log.voted_for == node.log.voted_for
    }
    &&& match after.role {
        RoleView::Follower(_) => true,
        RoleView::Candidate(k) => {
            &&& node.role is Candidate
            &&& after.term == node.term
            &&& k.votes == node.role->Candidate_0.votes + if node.counts_vote(msg) {
                1nat
            } else {
                0nat
            }
        },
        RoleView::Leader(_) => {
            &&& after.term == node.term
            &&& node.role is Leader || (node.role is Candidate && node.counts_vote(msg)
                && node.role->Candidate_0.votes + 1 >= node.quorum())
        },
    }
}

/// What a follower makes of an event, summed up.
pub proof fn lemma_follower_handle_summary(node: NodeView, msg: MessageView)
    requires
        node.wf(),
        node.role is Follower,
        msg.from is Some,
        msg.term == node.term,
        node.accepts(msg),
    ensures
        node.follower_handle(node.role->Follower_0, msg.from->0, msg.event) matches Some(after)
            ==> step_summary(node, msg, after),
{
    let f = node.role->Follower_0;
    let from = msg.from->0;
    if let Some(after) = node.follower_handle(f, from, msg.event) {
        if grants_vote(node, after) {
            let k = choose|k: int|
                node.outbox.len() <= k < after.outbox.len() && (#[trigger] after.outbox[k]).event is GrantVote;
            assert(msg.event is SolicitVote);
        } else {
            if let EventView::SolicitVote { last_index, last_term } = msg.event {
                if after != node {
                    assert(after.outbox[node.outbox.len() as int].event is GrantVote);
                }
            }
        }
    }
}

/// Every step does to the part of a node that elections rest on what
/// `step_summary` says.
pub proof fn lemma_step_summary(node: NodeView, msg: MessageView, timeout: nat)
    requires
        node.wf(),
        valid_timeout(timeout),
    ensures
        node.step(msg, timeout) matches Some(after) ==> step_summary(node, msg, after),
{
    if let Some(after) = node.step(msg, timeout) {
        if !node.accepts(msg) || msg.from is None {
            if let RoleView::Candidate(c) = node.role {
                if node.accepts(msg) && msg.event is GrantVote {
                    let voted = node.with_role(
                        RoleView::Candidate(CandidateView { votes: c.votes + 1, ..c }),
                    );
                    lemma_become_leader_emits(voted);
                    assert(!grants_vote(node, after)) by {
                        if grants_vote(node, after) {
                            let k = choose|k: int|
                                node.outbox.len() <= k < after.outbox.len() && (
                                #[trigger] after.outbox[k]).event is GrantVote;
                            lemma_become_leader_sends(voted, k);
                        }
                    }
                    assert forall|k: int| node.outbox.len() <= k < after.outbox.len() implies !((
                    #[trigger] after.outbox[k]).event is SolicitVote) && !(after.outbox[k].event is GrantVote) by {
                        lemma_become_leader_sends(voted, k);
                    }
                }
            }
        } else {
            let from = msg.from->0;
            lemma_follow_wf(node, msg.term, from, timeout);
            let adopted = node.adopt(msg.term, from, timeout);
            let followed = node.follow(from, timeout);
            let to_me = node.addressed(msg);
            if msg.term > node.term {
                lemma_follower_handle_summary(adopted, to_me);
                assert(grants_vote(node, after) == grants_vote(adopted, after));
            } else {
                match node.role {
                    RoleView::Follower(_) => {
                        lemma_follower_handle_summary(node, to_me);
                    },
                    RoleView::Candidate(c) => {
                        if msg.event is Heartbeat {
                            lemma_follower_handle_summary(followed, to_me);
                            assert(grants_vote(node, after) == grants_vote(followed, after));
                        } else if msg.event is GrantVote {
                            let voted = node.with_role(
                                RoleView::Candidate(CandidateView { votes: c.votes + 1, ..c }),
                            );
                            lemma_become_leader_emits(voted);
                            assert(!grants_vote(node, after)) by {
                                if grants_vote(node, after) {
                                    let k = choose|k: int|
                                        node.outbox.len() <= k < after.outbox.len() && (
                                        #[trigger] after.outbox[k]).event is GrantVote;
                                    lemma_become_leader_sends(voted, k);
                                }
                            }
                            assert forall|k: int|
                                node.outbox.len() <= k < after.outbox.len() implies !((
                            #[trigger] after.outbox[k]).event is SolicitVote) && !(after.outbox[k].event is GrantVote) by {
                                lemma_become_leader_sends(voted, k);
                            }
                        }
                    },
                    RoleView::Leader(l) => {
                        if node.peers.contains(from) {
                            let i = node.peers.index_of(from);
                            lemma_leader_handle_emits(node, l, i, msg.event);
                            lemma_leader_handle_sends(node, l, i, msg.event);
                        }
                    },
                }
            }
        }
    }
}

/// A new leader sends heartbeats and entries, nothing else.
pub proof fn lemma_become_leader_sends(node: NodeView, k: int)
    requires
        node.campaigns(),
        node.outbox.len() <= k < node.become_leader().outbox.len(),
    ensures
        node.become_leader().outbox[k].event is Heartbeat || node.become_leader().outbox[k].event is ReplicateEntries,
{
    let after = node.become_leader();
    let l = crate::model::LeaderView::fresh(node.peers.len(), node.log.last_index());
    let heartbeat = EventView::Heartbeat {
        commit_index: node.log.commit_index,
        commit_term: node.log.commit_term(),
    };
    let led = node.with_role(RoleView::Leader(l)).broadcast(heartbeat);
    let grown = led.with_log(led.log.append(EntryView { term: led.term, command: None }));
    if k < led.outbox.len() {
        assert(after.outbox[k] == node.broadcast_messages(heartbeat)[k - node.outbox.len()]);
    } else {
        assert(after.outbox[k] == grown.replicate_messages(l)[k - led.outbox.len()]);
    }
}

/// A leader that handles an event sends entries, nothing else.
pub proof fn lemma_leader_handle_sends(node: NodeView, l: crate::model::LeaderView, i: int, event: EventView)
    requires
        node.wf(),
        node.role == RoleView::Leader(l),
        0 <= i < node.peers.len(),
    ensures
        !grants_vote(node, node.leader_handle(l, i, event)),
        forall|k: int|
            node.outbox.len() <= k < node.leader_handle(l, i, event).outbox.len() ==> (
            #[trigger] node.leader_handle(l, i, event).outbox[k]).event is ReplicateEntries,
        node.leader_handle(l, i, event).role is Leader,
{
}

/// What a tick does to the part of a node that elections rest on: it
/// grants no vote; and either it starts an election, with one request for a
/// vote to each peer, or it asks for no vote and leaves role, term and vote
/// as they are.
pub open spec fn tick_summary(node: NodeView, timeout: nat, after: NodeView) -> bool {
    &&& after.id == node.id
    &&& after.peers == node.peers
    &&& node.outbox.len() <= after.outbox.len()
    &&& forall|k: int|
        node.outbox.len() <= k < after.outbox.len() ==> {
            let m = #[trigger] after.outbox[k];
            &&& m.from == Some(node.id)
            &&& m.term == after.term
            &&& !(m.event is GrantVote)
            &&& m.event is SolicitVote ==> {
                &&& after.term == node.term + 1
                &&& m.to is Some
                &&& node.peers.contains(m.to->0)
                &&& m == after.message(
                    m.to->0,
                    EventView::SolicitVote {
                        last_index: node.log.last_index(),
                        last_term: node.log.last_term(),
                    },
                )
            }
        }
    &&& if after.term == node.term {
        &&& after.log.voted_for == node.log.voted_for
        &&& match after.role {
            RoleView::Follower(_) => node.role is Follower,
            RoleView::Candidate(k) => node.role is Candidate && k.votes == node.role->Candidate_0.votes,
            RoleView::Leader(_) => node.role is Leader,
        }
    } else {
        &&& after.term == node.term + 1
        &&& after.log.voted_for == Some(node.id)
        &&& after.role == RoleView::Candidate(CandidateView::fresh(timeout))
    }
}

/// Every tick does to the part of a node that elections rest on what
/// `tick_summary` says.
pub proof fn lemma_tick_summary(node: NodeView, timeout: nat)
    requires
        node.wf(),
        valid_timeout(timeout),
    ensures
        tick_summary(node, timeout, node.tick(timeout)),
{
    let after = node.tick(timeout);
    let solicit = EventView::SolicitVote {
        last_index: node.log.last_index(),
        last_term: node.log.last_term(),
    };
    match node.role {
        RoleView::Follower(f) => {
            if f.leader_seen_ticks + 1 >= f.election_timeout {
                assert forall|k: int| node.outbox.len() <= k < after.outbox.len() implies {
                    let m = #[trigger] after.outbox[k];
                    m == after.message(node.peers[k - node.outbox.len()], solicit)
                } by {
                    assert(after.outbox[k] == after.broadcast_messages(solicit)[k - node.outbox.len()]);
                }
            }
        },
        RoleView::Candidate(c) => {
            if c.election_ticks + 1 >= c.election_timeout {
                assert forall|k: int| node.outbox.len() <= k < after.outbox.len() implies {
                    let m = #[trigger] after.outbox[k];
                    m == after.message(node.peers[k - node.outbox.len()], solicit)
                } by {
                    assert(after.outbox[k] == after.broadcast_messages(solicit)[k - node.outbox.len()]);
                }
            }
        },
        RoleView::Leader(l) => {
            let at = node.with_log(node.log.applied()).with_role(
                RoleView::Leader(crate::model::LeaderView { heartbeat_ticks: 0, ..l }),
            );
            let heartbeat = EventView::Heartbeat {
                commit_index: at.log.commit_index,
                commit_term: at.log.commit_term(),
            };
            let led = at.broadcast(heartbeat);
            assert forall|k: int| node.outbox.len() <= k < after.outbox.len() implies {
                let m = #[trigger] after.outbox[k];
                &&& m.from == Some(node.id)
                &&& m.term == after.term
                &&& (m.event is Heartbeat || m.event is ReplicateEntries)
            } by {
                if k < led.outbox.len() {
                    assert(after.outbox[k] == at.broadcast_messages(heartbeat)[k - node.outbox.len()]);
                } else {
                    assert(after.outbox[k] == led.replicate_messages(l)[k - led.outbox.len()]);
                }
            }
        },
    }
}

/// Whether `m`, where it brings entries, brings the entries of `log` that
/// follow an entry of `log`, with the term of that entry.
pub open spec fn carries_log(m: MessageView, log: LogView) -> bool {
    m.event matches EventView::ReplicateEntries { base_index, base_term, entries } ==> {
        &&& base_index <= log.entries.len()
        &&& entries == log.entries.skip(base_index as int)
        &&& base_term == log.term_at(base_index)
    }
}

/// A leader that appends an entry stays a well-formed leader of its term,
/// with its vote, and sends entries of its log, nothing else.
pub proof fn lemma_leader_append(node: NodeView, command: Option<Seq<u8>>)
    requires
        node.wf(),
        node.role is Leader,
    ensures
        ({
            let after = node.leader_append(node.role->Leader_0, command);
            &&& after.wf()
            &&& after.role == node.role
            &&& after.id == node.id
            &&& after.peers == node.peers
            &&& after.term == node.term
            &&& after.log.voted_for == node.log.voted_for
            &&& after.log.entries == node.log.entries.push(EntryView { term: node.term, command })
            &&& node.outbox.len() <= after.outbox.len()
            &&& forall|k: int|
                node.outbox.len() <= k < after.outbox.len() ==> {
                    let m = #[trigger] after.outbox[k];
                    &&& m.from == Some(node.id)
                    &&& m.to is Some
                    &&& m.term == node.term
                    &&& m.event is ReplicateEntries
                    &&& carries_log(m, after.log)
                }
        }),
{
    let l = node.role->Leader_0;
    let after = node.leader_append(l, command);
    let grown = node.with_log(node.log.append(EntryView { term: node.term, command }));
    assert forall|k: int| node.outbox.len() <= k < after.outbox.len() implies {
        let m = #[trigger] after.outbox[k];
        &&& m.from == Some(node.id)
        &&& m.to is Some
        &&& m.term == node.term
        &&& m.event is ReplicateEntries
        &&& carries_log(m, after.log)
    } by {
        let i = k - node.outbox.len();
        assert(after.outbox[k] == grown.replicate_messages(l)[i]);
        assert(l.peer_last_index[i] < l.peer_next_index[i]);
    }
}

/// What a step does to the entries of a log, and which entries it sends.
pub open spec fn step_log_summary(node: NodeView, msg: MessageView, after: NodeView) -> bool {
    &&& node.outbox.len() <= after.outbox.len()
    &&& forall|k: int|
        node.outbox.len() <= k < after.outbox.len() ==> {
            let m = #[trigger] after.outbox[k];
            m.event is ReplicateEntries ==> after.role is Leader && carries_log(m, after.log)
        }
    &&& {
        ||| after.log.entries == node.log.entries
        ||| {
            &&& node.role is Candidate
            &&& after.role is Leader
            &&& after.term == node.term
            &&& after.log.entries == node.log.entries.push(EntryView { term: node.term, command: None })
        }
        ||| {
            &&& msg.event matches EventView::ReplicateEntries { base_index, base_term, entries }
            &&& msg.term == after.term
            &&& after.role is Follower
            &&& base_index == 0 || node.log.has(base_index, base_term)
            &&& base_index <= node.log.entries.len()
            &&& after.log.entries == node.log.splice(base_index, entries).entries
        }
    }
    &&& node.role is Leader && after.role is Leader ==> after.log.entries == node.log.entries
}

/// What a leader sends on an event are entries of its log.
pub proof fn lemma_leader_handle_log(node: NodeView, l: crate::model::LeaderView, i: int, event: EventView)
    requires
        node.wf(),
        node.role == RoleView::Leader(l),
        0 <= i < node.peers.len(),
    ensures
        ({
            let after = node.leader_handle(l, i, event);
            &&& after.log.entries == node.log.entries
            &&& forall|k: int|
                node.outbox.len() <= k < after.outbox.len() ==> carries_log(#[trigger] after.outbox[k], after.log)
        }),
{
    let after = node.leader_handle(l, i, event);
    assert(l.peer_last_index[i] < l.peer_next_index[i]);
}

/// What a new leader sends are entries of its log.
pub proof fn lemma_become_leader_log(node: NodeView, k: int)
    requires
        node.campaigns(),
        node.outbox.len() <= k < node.become_leader().outbox.len(),
    ensures
        carries_log(node.become_leader().outbox[k], node.become_leader().log),
        node.become_leader().log.entries == node.log.entries.push(
            EntryView { term: node.term, command: None },
        ),
{
    let after = node.become_leader();
    let l = crate::model::LeaderView::fresh(node.peers.len(), node.log.last_index());
    let heartbeat = EventView::Heartbeat {
        commit_index: node.log.commit_index,
        commit_term: node.log.commit_term(),
    };
    let led = node.with_role(RoleView::Leader(l)).broadcast(heartbeat);
    let grown = led.with_log(led.log.append(EntryView { term: led.term, command: None }));
    if k < led.outbox.len() {
        assert(after.outbox[k] == node.broadcast_messages(heartbeat)[k - node.outbox.len()]);
    } else {
        assert(after.outbox[k] == grown.replicate_messages(l)[k - led.outbox.len()]);
    }
}

/// What a follower does to its log on an event, and that it sends no entries.
pub proof fn lemma_follower_handle_log(node: NodeView, msg: MessageView)
    requires
        node.wf(),
        node.role is Follower,
        msg.from is Some,
        msg.term == node.term,
    ensures
        node.follower_handle(node.role->Follower_0, msg.from->0, msg.event) matches Some(after)
            ==> step_log_summary(node, msg, after),
{
}

/// What a splice keeps depends on the entries of the log alone.
pub proof fn lemma_matching_entries(a: LogView, b: LogView, base: nat, entries: Seq<EntryView>, k: nat)
    requires
        a.entries == b.entries,
    ensures
        a.matching(base, entries, k) == b.matching(base, entries, k),
    decreases entries.len() - k,
{
    if k < entries.len() && base + k < a.entries.len() && a.entries[(base + k) as int].term
        == entries[k as int].term {
        lemma_matching_entries(a, b, base, entries, k + 1);
    }
}

/// Every step does to the entries of a log what `step_log_summary` says.
pub proof fn lemma_step_log_summary(node: NodeView, msg: MessageView, timeout: nat)
    requires
        node.wf(),
        valid_timeout(timeout),
    ensures
        node.step(msg, timeout) matches Some(after) ==> step_log_summary(node, msg, after),
{
    if let Some(after) = node.step(msg, timeout) {
        if let RoleView::Candidate(c) = node.role {
            if node.counts_vote(msg) && c.votes + 1 >= node.quorum() {
                let voted = node.with_role(RoleView::Candidate(CandidateView { votes: c.votes + 1, ..c }));
                assert forall|k: int| node.outbox.len() <= k < after.outbox.len() implies carries_log(
                    #[trigger] after.outbox[k],
                    after.log,
                ) by {
                    lemma_become_leader_log(voted, k);
                }
                if node.peers.len() > 0 {
                    lemma_become_leader_log(voted, node.outbox.len() as int);
                }
            }
        }
        if node.accepts(msg) && msg.from is Some {
            let from = msg.from->0;
            lemma_follow_wf(node, msg.term, from, timeout);
            let adopted = node.adopt(msg.term, from, timeout);
            let followed = node.follow(from, timeout);
            let to_me = node.addressed(msg);
            if let EventView::ReplicateEntries { base_index, base_term, entries } = msg.event {
                lemma_matching_entries(adopted.log, node.log, base_index, entries, 0);
            }
            if msg.term > node.term {
                lemma_follower_handle_log(adopted, to_me);
            } else {
                match node.role {
                    RoleView::Follower(_) => {
                        lemma_follower_handle_log(node, to_me);
                    },
                    RoleView::Candidate(c) => {
                        if msg.event is Heartbeat {
                            lemma_follower_handle_log(followed, to_me);
                        }
                    },
                    RoleView::Leader(l) => {
                        if node.peers.contains(from) {
                            let i = node.peers.index_of(from);
                            lemma_leader_handle_log(node, l, i, msg.event);
                        }
                    },
                }
            }
        }
    }
}

/// A tick leaves the entries of a log as they are, and what entries it
/// sends are entries of the log of a leader.
pub proof fn lemma_tick_log_summary(node: NodeView, timeout: nat)
    requires
        node.wf(),
        valid_timeout(timeout),
    ensures
        ({
            let after = node.tick(timeout);
            &&& after.log.entries == node.log.entries
            &&& node.outbox.len() <= after.outbox.len()
            &&& forall|k: int|
                node.outbox.len() <= k < after.outbox.len() ==> {
                    let m = #[trigger] after.outbox[k];
                    m.event is ReplicateEntries ==> after.role is Leader && after.term == node.term
                        && carries_log(m, after.log)
                }
        }),
{
    let after = node.tick(timeout);
    let solicit = EventView::SolicitVote {
        last_index: node.log.last_index(),
        last_term: node.log.last_term(),
    };
    match node.role {
        RoleView::Follower(f) => {
            if f.leader_seen_ticks + 1 >= f.election_timeout {
                assert forall|k: int| node.outbox.len() <= k < after.outbox.len() implies (
                #[trigger] after.outbox[k]).event is SolicitVote by {
                    assert(after.outbox[k] == after.broadcast_messages(solicit)[k - node.outbox.len()]);
                }
            }
        },
        RoleView::Candidate(c) => {
            if c.election_ticks + 1 >= c.election_timeout {
                assert forall|k: int| node.outbox.len() <= k < after.outbox.len() implies (
                #[trigger] after.outbox[k]).event is SolicitVote by {
                    assert(after.outbox[k] == after.broadcast_messages(solicit)[k - node.outbox.len()]);
                }
            }
        },
        RoleView::Leader(l) => {
            let at = node.with_log(node.log.applied()).with_role(
                RoleView::Leader(crate::model::LeaderView { heartbeat_ticks: 0, ..l }),
            );
            let heartbeat = EventView::Heartbeat {
                commit_index: at.log.commit_index,
                commit_term: at.log.commit_term(),
            };
            let led = at.broadcast(heartbeat);
            assert forall|k: int| node.outbox.len() <= k < after.outbox.len() implies carries_log(
                #[trigger] after.outbox[k],
                after.log,
            ) by {
                if k < led.outbox.len() {
                    assert(after.outbox[k] == at.broadcast_messages(heartbeat)[k - node.outbox.len()]);
                } else {
                    let i = k - led.outbox.len();
                    assert(after.outbox[k] == led.replicate_messages(l)[i]);
                    assert(l.peer_last_index[i] < l.peer_next_index[i]);
                }
            }
        },
    }
}

/// A leader leads until it sees a greater term: a step leaves it the leader
/// of its term or takes it to a greater term, and a tick leaves it the leader
/// of its term.
pub proof fn lemma_leader_stays(node: NodeView, msg: MessageView, timeout: nat)
    requires
        node.wf(),
        node.role is Leader,
        valid_timeout(timeout),
    ensures
        node.step(msg, timeout) matches Some(after) ==> (after.term == node.term ==> after.role is Leader),
        node.tick(timeout).role is Leader,
        node.tick(timeout).term == node.term,
{
    let l = node.role->Leader_0;
    if node.accepts(msg) && msg.from is Some {
        let from = msg.from->0;
        if msg.term > node.term {
            lemma_step_summary(node, msg, timeout);
        } else if node.peers.contains(from) {
            lemma_leader_handle_sends(node, l, node.peers.index_of(from), msg.event);
        }
    }
}

/// The entries that a splice keeps are entries that the log holds with the
/// terms of the new ones.
pub proof fn lemma_matching_terms(log: LogView, base: nat, entries: Seq<EntryView>, k: nat)
    requires
        k <= entries.len(),
    ensures
        k <= log.matching(base, entries, k) <= entries.len(),
        forall|j: int|
            k <= j < log.matching(base, entries, k) ==> base + j < log.entries.len() && (
            #[trigger] log.entries[base + j]).term == entries[j].term,
        log.matching(base, entries, k) < entries.len() ==> {
            let keep = log.matching(base, entries, k);
            base + keep >= log.entries.len() || log.entries[(base + keep) as int].term != entries[keep as int].term
        },
    decreases entries.len() - k,
{
    if k < entries.len() && base + k < log.entries.len() && log.entries[(base + k) as int].term
        == entries[k as int].term {
        lemma_matching_terms(log, base, entries, k + 1);
        assert forall|j: int| k <= j < log.matching(base, entries, k) implies base + j
            < log.entries.len() && (#[trigger] log.entries[base + j]).term == entries[j].term by {
            if j == k {
            }
        }
    }
}

/// A log that follows a longer one wherever their terms agree, spliced with
/// entries of the longer one behind an entry that both hold, is the longer
/// one up to the last of these entries, or holds them already.
pub proof fn lemma_splice_follows(log: LogView, ledger: Seq<EntryView>, base: nat, entries: Seq<EntryView>)
    requires
        base <= log.entries.len(),
        base + entries.len() <= ledger.len(),
        entries == ledger.subrange(base as int, (base + entries.len()) as int),
        log.entries.take(base as int) == ledger.take(base as int),
        forall|j: int|
            0 <= j < log.entries.len() && j < ledger.len() && (#[trigger] log.entries[j]).term
                == ledger[j].term ==> log.entries.take(j + 1) == ledger.take(j + 1),
    ensures
        log.matching(base, entries, 0) < entries.len() ==> log.splice(base, entries).entries
            == ledger.take((base + entries.len()) as int),
        log.matching(base, entries, 0) >= entries.len() ==> log.splice(base, entries).entries
            == log.entries,
{
    lemma_matching_terms(log, base, entries, 0);
    let keep = log.matching(base, entries, 0);
    if keep < entries.len() {
        assert(log.entries.take((base + keep) as int) == ledger.take((base + keep) as int)) by {
            if keep > 0 {
                let j = base + keep - 1;
                assert(log.entries[base + (keep - 1)].term == entries[keep - 1].term);
                assert(entries[keep - 1] == ledger[j]);
                assert(log.entries.take(j + 1) == ledger.take(j + 1));
            }
        }
        assert(log.splice(base, entries).entries =~= ledger.take((base + entries.len()) as int));
    }
}

/// Whether a step has made a follower accept the entries of `msg`: the
/// follower holds the entry that they follow, and its log is the old one with
/// the entries spliced in.
pub open spec fn accepted(node: NodeView, msg: MessageView, after: NodeView) -> bool {
    &&& msg.event matches EventView::ReplicateEntries { base_index, base_term, entries }
    &&& msg.term == after.term
    &&& after.role is Follower
    &&& base_index == 0 || node.log.has(base_index, base_term)
    &&& base_index <= node.log.entries.len()
    &&& after.log.entries == node.log.splice(base_index, entries).entries
}

/// What a step does to what a leader knows of its peers, and which entries a
/// follower says that it holds.
pub open spec fn step_acks_summary(node: NodeView, msg: MessageView, after: NodeView) -> bool {
    &&& node.outbox.len() <= after.outbox.len()
    &&& forall|k: int|
        node.outbox.len() <= k < after.outbox.len() ==> {
            let m = #[trigger] after.outbox[k];
            m.event matches EventView::AcceptEntries { last_index } ==> accepted(node, msg, after)
                && last_index == msg.event->ReplicateEntries_base_index
                + msg.event->ReplicateEntries_entries.len()
        }
    &&& after.log.entries != node.log.entries && after.role is Follower ==> accepted(node, msg, after)
    &&& node.role is Candidate && after.role is Leader ==> {
        &&& after.log.commit_index == node.log.commit_index
        &&& after.role->Leader_0.peer_last_index.len() == node.peers.len()
        &&& forall|j: int|
            0 <= j < node.peers.len() ==> (#[trigger] after.role->Leader_0.peer_last_index[j]) == 0
    }
    &&& node.role is Leader && after.role is Leader ==> {
        let l = node.role->Leader_0;
        let l2 = after.role->Leader_0;
        &&& after.term == node.term
        &&& l2.peer_last_index.len() == l.peer_last_index.len()
        &&& forall|j: int|
            0 <= j < l.peer_last_index.len() ==> (#[trigger] l2.peer_last_index[j])
                == l.peer_last_index[j] || {
                &&& msg.event matches EventView::AcceptEntries { last_index }
                &&& msg.from == Some(node.peers[j])
                &&& msg.term == node.term
                &&& l2.peer_last_index[j] == last_index
            }
        &&& after.log.commit_index == node.log.commit_index || {
            &&& node.log.commit_index < after.log.commit_index <= after.log.entries.len()
            &&& after.log.term_at(after.log.commit_index) == node.term
            &&& crate::model::replicated(l2.peer_last_index, after.log.commit_index) + 1
                >= node.quorum()
        }
    }
}

/// Every step does to what a leader knows of its peers what
/// `step_acks_summary` says.
pub proof fn lemma_step_acks_summary(node: NodeView, msg: MessageView, timeout: nat)
    requires
        node.wf(),
        valid_timeout(timeout),
    ensures
        node.step(msg, timeout) matches Some(after) ==> step_acks_summary(node, msg, after),
{
    if let Some(after) = node.step(msg, timeout) {
        lemma_step_log_summary(node, msg, timeout);
        lemma_step_summary(node, msg, timeout);
        if let RoleView::Candidate(c) = node.role {
            if node.counts_vote(msg) && c.votes + 1 >= node.quorum() {
                let voted = node.with_role(RoleView::Candidate(CandidateView { votes: c.votes + 1, ..c }));
                assert forall|k: int| node.outbox.len() <= k < after.outbox.len() implies !((
                #[trigger] after.outbox[k]).event is AcceptEntries) by {
                    lemma_become_leader_sends(voted, k);
                }
            }
        }
        if node.accepts(msg) && msg.from is Some {
            let from = msg.from->0;
            lemma_follow_wf(node, msg.term, from, timeout);
            let adopted = node.adopt(msg.term, from, timeout);
            let followed = node.follow(from, timeout);
            if let EventView::ReplicateEntries { base_index, base_term, entries } = msg.event {
                lemma_matching_entries(adopted.log, node.log, base_index, entries, 0);
            }
            if let RoleView::Leader(l) = node.role {
                if msg.term <= node.term && node.peers.contains(from) {
                    let i = node.peers.index_of(from);
                    lemma_leader_handle_sends(node, l, i, msg.event);
                    if let EventView::AcceptEntries { last_index } = msg.event {
                        if l.peer_last_index[i] < last_index <= node.log.last_index() {
                            let l2 = crate::model::LeaderView {
                                peer_last_index: l.peer_last_index.update(i, last_index),
                                peer_next_index: l.peer_next_index.update(i, last_index + 1),
                                ..l
                            };
                            let at = node.with_role(RoleView::Leader(l2));
                            lemma_commit_target_bounds(at, l2, node.log.last_index());
                        }
                    }
                }
            }
        }
    }
}

/// A log that follows a longer one wherever their terms agree, spliced with
/// entries of the longer one behind an entry that both hold, is the longer
/// one up to the last of these entries.
pub proof fn lemma_splice_holds(log: LogView, ledger: Seq<EntryView>, base: nat, entries: Seq<EntryView>)
    requires
        base <= log.entries.len(),
        base + entries.len() <= ledger.len(),
        entries == ledger.subrange(base as int, (base + entries.len()) as int),
        log.entries.take(base as int) == ledger.take(base as int),
        forall|j: int|
            0 <= j < log.entries.len() && j < ledger.len() && (#[trigger] log.entries[j]).term
                == ledger[j].term ==> log.entries.take(j + 1) == ledger.take(j + 1),
    ensures
        log.splice(base, entries).entries.len() >= base + entries.len(),
        log.splice(base, entries).entries.take((base + entries.len()) as int) == ledger.take(
            (base + entries.len()) as int,
        ),
{
    lemma_matching_terms(log, base, entries, 0);
    lemma_splice_follows(log, ledger, base, entries);
    let keep = log.matching(base, entries, 0);
    let end = base + entries.len();
    if keep < entries.len() {
        assert(ledger.take(end as int).take(end as int) =~= ledger.take(end as int));
    } else {
        if entries.len() > 0 {
            let j = end - 1;
            assert(log.entries[base + (entries.len() - 1)].term == entries[entries.len() - 1].term);
            assert(entries[entries.len() - 1] == ledger[j]);
            assert(log.entries.take(j + 1) == ledger.take(j + 1));
        }
    }
}

/// A splice with entries of a log that the spliced log shares up to `kept`
/// leaves the spliced log as it is up to `kept`.
pub proof fn lemma_splice_keeps(log: LogView, ledger: Seq<EntryView>, base: nat, entries: Seq<EntryView>, kept: nat)
    requires
        base <= log.entries.len(),
        base + entries.len() <= ledger.len(),
        entries == ledger.subrange(base as int, (base + entries.len()) as int),
        kept <= log.entries.len(),
        kept <= ledger.len(),
        log.entries.take(kept as int) == ledger.take(kept as int),
    ensures
        log.splice(base, entries).entries.len() >= kept,
        log.splice(base, entries).entries.take(kept as int) == log.entries.take(kept as int),
{
    lemma_matching_terms(log, base, entries, 0);
    lemma_matching_bounds(log, base, entries, 0);
    let keep = log.matching(base, entries, 0);
    if keep < entries.len() {
        if base + keep < kept {
            let x = (base + keep) as int;
            assert(log.entries.take(kept as int)[x] == log.entries[x]);
            assert(ledger.take(kept as int)[x] == ledger[x]);
            assert(entries[keep as int] == ledger[x]);
            assert(log.entries[x].term == entries[keep as int].term);
            assert(false);
        }
        let spliced = log.splice(base, entries).entries;
        assert(spliced == log.entries.take((base + keep) as int) + entries.skip(keep as int));
        assert(spliced.take(kept as int) =~= log.entries.take(kept as int));
    }
}

/// A tick sends requests for votes, heartbeats and entries, nothing else,
/// and leaves what a leader knows of its peers, and what it has committed, as
/// it is.
pub proof fn lemma_tick_kinds(node: NodeView, timeout: nat)
    requires
        node.wf(),
        valid_timeout(timeout),
    ensures
        ({
            let after = node.tick(timeout);
            &&& forall|k: int|
                node.outbox.len() <= k < after.outbox.len() ==> {
                    let m = #[trigger] after.outbox[k];
                    m.event is SolicitVote || m.event is Heartbeat || m.event is ReplicateEntries
                }
            &&& node.role is Leader ==> {
                &&& after.role is Leader
                &&& after.role->Leader_0.peer_last_index == node.role->Leader_0.peer_last_index
                &&& after.log.commit_index == node.log.commit_index
            }
        }),
{
    let after = node.tick(timeout);
    let solicit = EventView::SolicitVote {
        last_index: node.log.last_index(),
        last_term: node.log.last_term(),
    };
    match node.role {
        RoleView::Follower(f) => {
            if f.leader_seen_ticks + 1 >= f.election_timeout {
                assert forall|k: int| node.outbox.len() <= k < after.outbox.len() implies (
                #[trigger] after.outbox[k]).event is SolicitVote by {
                    assert(after.outbox[k] == after.broadcast_messages(solicit)[k - node.outbox.len()]);
                }
            }
        },
        RoleView::Candidate(c) => {
            if c.election_ticks + 1 >= c.election_timeout {
                assert forall|k: int| node.outbox.len() <= k < after.outbox.len() implies (
                #[trigger] after.outbox[k]).event is SolicitVote by {
                    assert(after.outbox[k] == after.broadcast_messages(solicit)[k - node.outbox.len()]);
                }
            }
        },
        RoleView::Leader(l) => {
            let at = node.with_log(node.log.applied()).with_role(
                RoleView::Leader(crate::model::LeaderView { heartbeat_ticks: 0, ..l }),
            );
            let heartbeat = EventView::Heartbeat {
                commit_index: at.log.commit_index,
                commit_term: at.log.commit_term(),
            };
            let led = at.broadcast(heartbeat);
            assert forall|k: int| node.outbox.len() <= k < after.outbox.len() implies {
                let m = #[trigger] after.outbox[k];
                m.event is Heartbeat || m.event is ReplicateEntries
            } by {
                if k < led.outbox.len() {
                    assert(after.outbox[k] == at.broadcast_messages(heartbeat)[k - node.outbox.len()]);
                } else {
                    assert(after.outbox[k] == led.replicate_messages(l)[k - led.outbox.len()]);
                }
            }
        },
    }
}

/// A step grants a vote only to a candidate whose log is at least as up to
/// date as the log of the node, and leaves the log as it is.
pub proof fn lemma_grant_up_to_date(node: NodeView, msg: MessageView, timeout: nat)
    requires
        node.wf(),
        valid_timeout(timeout),
    ensures
        node.step(msg, timeout) matches Some(after) ==> (grants_vote(node, after) ==> {
            &&& msg.event matches EventView::SolicitVote { last_index, last_term }
            &&& crate::model::up_to_date(
                last_term,
                last_index,
                node.log.last_term(),
                node.log.last_index(),
            )
            &&& after.log.entries == node.log.entries
        }),
{
    if let Some(after) = node.step(msg, timeout) {
        lemma_step_summary(node, msg, timeout);
        lemma_step_log_summary(node, msg, timeout);
        if grants_vote(node, after) {
            let k = choose|k: int|
                node.outbox.len() <= k < after.outbox.len() && (#[trigger] after.outbox[k]).event is GrantVote;
            let from = msg.from->0;
            lemma_follow_wf(node, msg.term, from, timeout);
        }
    }
}

} // verus!
