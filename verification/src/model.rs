//! The mathematical model of a node.
//!
//! Everything here is specification: plain values (`nat`, `Seq`, `Option`)
//! and functions on them. The executable types view themselves as these
//! values, and each handler promises to compute what the function of the same
//! name computes here. Terms and indices are unbounded naturals; the
//! executable code states separately that they fit its machine integers.

use vstd::prelude::*;

verus! {

/// The interval between leader heartbeats, in ticks.
pub const HEARTBEAT_INTERVAL: u64 = 1;

/// The least election timeout, in ticks.
pub const ELECTION_TIMEOUT_MIN: u64 = 8;

/// The bound that every election timeout stays below, in ticks.
pub const ELECTION_TIMEOUT_MAX: u64 = 15;

/// Whether `timeout` is an admissible election timeout.
pub open spec fn valid_timeout(timeout: nat) -> bool {
    ELECTION_TIMEOUT_MIN <= timeout < ELECTION_TIMEOUT_MAX
}

/// The number of votes that wins an election in a cluster of `peers` peers
/// and the node itself: a strict majority.
pub open spec fn quorum(peers: nat) -> nat {
    (peers + 1) / 2 + 1
}

/// One slot of the replicated log: the term it was created in, and a command
/// for the state machine, or none for a no-op.
pub struct EntryView {
    pub term: nat,
    pub command: Option<Seq<u8>>,
}

/// What a message says.
pub enum EventView {
    Heartbeat { commit_index: nat, commit_term: nat },
    ConfirmLeader { commit_index: nat, has_committed: bool },
    SolicitVote { last_index: nat, last_term: nat },
    GrantVote,
    ReplicateEntries { base_index: nat, base_term: nat, entries: Seq<EntryView> },
    AcceptEntries { last_index: nat },
    RejectEntries,
    QueryState { id: Seq<u8>, command: Seq<u8> },
    MutateState { id: Seq<u8>, command: Seq<u8> },
    RespondState { id: Seq<u8>, response: Seq<u8> },
    RespondError { id: Seq<u8>, error: Seq<char> },
}

/// A message between nodes. A missing `to` addresses every peer; a missing
/// `from` marks a message that originated locally.
pub struct MessageView {
    pub from: Option<Seq<char>>,
    pub to: Option<Seq<char>>,
    pub term: nat,
    pub event: EventView,
}

/// Whether a log whose last entry is `(last_term, last_index)` is at least as
/// up to date as one whose last entry is `(other_term, other_index)`: terms are
/// compared first, then indices.
pub open spec fn up_to_date(last_term: nat, last_index: nat, other_term: nat, other_index: nat) -> bool {
    last_term > other_term || (last_term == other_term && last_index >= other_index)
}

/// The replicated log with its commit pointer, its apply cursor and the
/// term record `(term, voted_for)` that is stored with it. Entries are
/// numbered from 1: entry `i` is `entries[i - 1]`.
pub struct LogView {
    pub entries: Seq<EntryView>,
    pub commit_index: nat,
    pub apply_index: nat,
    pub term: nat,
    pub voted_for: Option<Seq<char>>,
}

impl LogView {
    /// The empty log at term 0.
    pub open spec fn empty() -> LogView {
        LogView { entries: Seq::empty(), commit_index: 0, apply_index: 0, term: 0, voted_for: None }
    }

    /// Nothing is applied before it is committed, nothing is committed that
    /// the log does not hold.
    pub open spec fn wf(self) -> bool {
        self.apply_index <= self.commit_index <= self.entries.len()
    }

    pub open spec fn last_index(self) -> nat {
        self.entries.len()
    }

    /// The term of entry `index`, 0 where the log holds no such entry.
    pub open spec fn term_at(self, index: nat) -> nat {
        if 1 <= index <= self.entries.len() {
            self.entries[index - 1].term
        } else {
            0
        }
    }

    pub open spec fn last_term(self) -> nat {
        self.term_at(self.last_index())
    }

    pub open spec fn commit_term(self) -> nat {
        self.term_at(self.commit_index)
    }

    pub open spec fn apply_term(self) -> nat {
        self.term_at(self.apply_index)
    }

    /// Whether the log holds an entry `index` of term `term`. The position
    /// before the first entry counts as held with term 0.
    pub open spec fn has(self, index: nat, term: nat) -> bool {
        if index == 0 {
            term == 0
        } else {
            index <= self.entries.len() && self.entries[index - 1].term == term
        }
    }

    pub open spec fn append(self, entry: EntryView) -> LogView {
        LogView { entries: self.entries.push(entry), ..self }
    }

    pub open spec fn commit(self, index: nat) -> LogView {
        LogView { commit_index: index, ..self }
    }

    pub open spec fn save_term(self, term: nat, voted_for: Option<Seq<char>>) -> LogView {
        LogView { term, voted_for, ..self }
    }

    /// The log once every committed entry has been applied.
    pub open spec fn applied(self) -> LogView {
        LogView { apply_index: self.commit_index, ..self }
    }

    /// The entries from entry `index` on.
    pub open spec fn from_index(self, index: nat) -> Seq<EntryView> {
        if index <= 1 {
            self.entries
        } else if index > self.entries.len() {
            Seq::empty()
        } else {
            self.entries.skip(index - 1)
        }
    }

    /// How many of `entries`, counted from position `k`, the log already
    /// holds behind `base` with the same terms, plus `k`.
    pub open spec fn matching(self, base: nat, entries: Seq<EntryView>, k: nat) -> nat
        decreases entries.len() - k,
    {
        if k < entries.len() && base + k < self.entries.len() && self.entries[(base + k) as int].term
            == entries[k as int].term {
            self.matching(base, entries, k + 1)
        } else {
            k
        }
    }

    /// Whether splicing `entries` behind `base` would replace an entry that is
    /// already committed.
    pub open spec fn splice_conflicts(self, base: nat, entries: Seq<EntryView>) -> bool {
        let keep = self.matching(base, entries, 0);
        keep < entries.len() && base + keep < self.commit_index
    }

    /// The log after `entries` have been spliced in behind entry `base`:
    /// entries that the log already holds with the same term stay; from the
    /// first one that it lacks or holds with another term on, the log's own
    /// entries are dropped and the new ones appended.
    pub open spec fn splice(self, base: nat, entries: Seq<EntryView>) -> LogView {
        let keep = self.matching(base, entries, 0);
        if keep < entries.len() {
            LogView { entries: self.entries.take((base + keep) as int) + entries.skip(keep as int), ..self }
        } else {
            self
        }
    }
}

/// What a follower keeps besides the shared context.
pub struct FollowerView {
    pub leader: Option<Seq<char>>,
    pub voted_for: Option<Seq<char>>,
    pub leader_seen_ticks: nat,
    pub election_timeout: nat,
}

/// What a candidate keeps besides the shared context.
pub struct CandidateView {
    pub election_ticks: nat,
    pub election_timeout: nat,
    pub votes: nat,
}

/// What a leader keeps besides the shared context. Position `i` of both
/// sequences belongs to peer `i`.
pub struct LeaderView {
    pub peer_next_index: Seq<nat>,
    pub peer_last_index: Seq<nat>,
    pub heartbeat_ticks: nat,
}

pub enum RoleView {
    Follower(FollowerView),
    Candidate(CandidateView),
    Leader(LeaderView),
}

/// A node: the shared context, the messages it has emitted and not yet
/// handed over, and its role.
pub struct NodeView {
    pub id: Seq<char>,
    pub peers: Seq<Seq<char>>,
    pub term: nat,
    pub log: LogView,
    pub outbox: Seq<MessageView>,
    pub role: RoleView,
}

/// How many positions of `last` hold at least `index`.
pub open spec fn replicated(last: Seq<nat>, index: nat) -> nat
    decreases last.len(),
{
    if last.len() == 0 {
        0
    } else {
        replicated(last.drop_last(), index) + if last.last() >= index {
            1nat
        } else {
            0nat
        }
    }
}

/// A fixed set of peers: at least one, without the node itself, each once.
pub open spec fn valid_cluster(id: Seq<char>, peers: Seq<Seq<char>>) -> bool {
    peers.len() >= 1 && !peers.contains(id) && peers.no_duplicates()
}

impl FollowerView {
    pub open spec fn fresh(leader: Option<Seq<char>>, voted_for: Option<Seq<char>>, timeout: nat) -> FollowerView {
        FollowerView { leader, voted_for, leader_seen_ticks: 0, election_timeout: timeout }
    }
}

impl CandidateView {
    pub open spec fn fresh(timeout: nat) -> CandidateView {
        CandidateView { election_ticks: 0, election_timeout: timeout, votes: 1 }
    }
}

impl LeaderView {
    pub open spec fn fresh(peers: nat, last_index: nat) -> LeaderView {
        LeaderView {
            peer_next_index: Seq::new(peers, |i: int| last_index + 1),
            peer_last_index: Seq::new(peers, |i: int| 0nat),
            heartbeat_ticks: 0,
        }
    }

    pub open spec fn wf(self, peers: nat, last_index: nat) -> bool {
        &&& self.heartbeat_ticks < HEARTBEAT_INTERVAL
        &&& self.peer_next_index.len() == peers
        &&& self.peer_last_index.len() == peers
        &&& forall|i: int|
            0 <= i < peers ==> self.peer_last_index[i] < #[trigger] self.peer_next_index[i] <= last_index
                + 1
    }
}

impl NodeView {
    pub open spec fn quorum(self) -> nat {
        quorum(self.peers.len())
    }

    /// What holds of a node whatever its role data: a valid cluster, and a
    /// well-formed log whose term record carries the node's term.
    pub open spec fn campaigns(self) -> bool {
        &&& valid_cluster(self.id, self.peers)
        &&& self.log.wf()
        &&& self.log.term == self.term
    }

    /// The invariant of a node: a valid cluster, a well-formed log whose
    /// term record carries the node's term, and role data within its bounds.
    pub open spec fn wf(self) -> bool {
        &&& self.campaigns()
        &&& match self.role {
            RoleView::Follower(f) => {
                &&& f.leader_seen_ticks < f.election_timeout
                &&& f.voted_for == self.log.voted_for
            },
            RoleView::Candidate(c) => {
                &&& c.election_ticks < c.election_timeout
                &&& 1 <= c.votes < self.quorum()
            },
            RoleView::Leader(l) => l.wf(self.peers.len(), self.log.last_index()),
        }
    }

    /// Whether the node takes `msg` in: it is addressed to this node or to
    /// nobody, and its term is not behind the node's.
    pub open spec fn accepts(self, msg: MessageView) -> bool {
        (msg.to is None || msg.to == Some(self.id)) && msg.term >= self.term
    }

    /// `msg`, addressed to this node.
    pub open spec fn addressed(self, msg: MessageView) -> MessageView {
        MessageView { to: Some(self.id), ..msg }
    }

    /// The message that carries `event` from this node to `to`.
    pub open spec fn message(self, to: Seq<char>, event: EventView) -> MessageView {
        MessageView { from: Some(self.id), to: Some(to), term: self.term, event }
    }

    pub open spec fn emit(self, messages: Seq<MessageView>) -> NodeView {
        NodeView { outbox: self.outbox + messages, ..self }
    }

    pub open spec fn send(self, to: Seq<char>, event: EventView) -> NodeView {
        self.emit(seq![self.message(to, event)])
    }

    /// One message with `event` for each peer, in the order of `peers`.
    pub open spec fn broadcast_messages(self, event: EventView) -> Seq<MessageView> {
        Seq::new(self.peers.len(), |i: int| self.message(self.peers[i], event))
    }

    pub open spec fn broadcast(self, event: EventView) -> NodeView {
        self.emit(self.broadcast_messages(event))
    }

    pub open spec fn save_term(self, term: nat, voted_for: Option<Seq<char>>) -> NodeView {
        NodeView { term, log: self.log.save_term(term, voted_for), ..self }
    }

    pub open spec fn with_role(self, role: RoleView) -> NodeView {
        NodeView { role, ..self }
    }

    pub open spec fn with_log(self, log: LogView) -> NodeView {
        NodeView { log, ..self }
    }

    /// The node as a fresh follower of `leader`, with the vote that the term
    /// record holds.
    pub open spec fn follow(self, leader: Seq<char>, timeout: nat) -> NodeView {
        self.with_role(RoleView::Follower(FollowerView::fresh(Some(leader), self.log.voted_for, timeout)))
    }

    /// The node after it has taken over the greater term `term` from a
    /// message of `leader`: the term is stored without a vote, and the node
    /// follows `leader`.
    pub open spec fn adopt(self, term: nat, leader: Seq<char>, timeout: nat) -> NodeView {
        self.save_term(term, None).follow(leader, timeout)
    }

    /// The node after it has started an election: the next term is stored
    /// with a vote for the node itself, the node is a fresh candidate, and
    /// every peer is asked for its vote.
    pub open spec fn campaign(self, timeout: nat) -> NodeView {
        self.save_term(self.term + 1, Some(self.id)).with_role(
            RoleView::Candidate(CandidateView::fresh(timeout)),
        ).broadcast(
            EventView::SolicitVote { last_index: self.log.last_index(), last_term: self.log.last_term() },
        )
    }

    /// The log of a follower after a heartbeat that announces
    /// `(commit_index, commit_term)`, before anything is applied: the commit
    /// index moves up to `commit_index` where the log holds that entry.
    pub open spec fn heartbeat_log(self, commit_index: nat, commit_term: nat) -> LogView {
        if self.log.has(commit_index, commit_term) && commit_index > self.log.commit_index {
            self.log.commit(commit_index)
        } else {
            self.log
        }
    }

    /// What a follower with role data `f` makes of `event`, sent by `from` in
    /// the follower's own term. `None` stands for a fatal failure.
    pub open spec fn follower_handle(self, f: FollowerView, from: Seq<char>, event: EventView) -> Option<
        NodeView,
    > {
        match event {
            EventView::Heartbeat { commit_index, commit_term } => Some(
                self.with_log(self.heartbeat_log(commit_index, commit_term).applied()).with_role(
                    RoleView::Follower(FollowerView { leader: Some(from), leader_seen_ticks: 0, ..f }),
                ).send(
                    from,
                    EventView::ConfirmLeader {
                        commit_index,
                        has_committed: self.log.has(commit_index, commit_term),
                    },
                ),
            ),
            EventView::SolicitVote { last_index, last_term } => if (f.voted_for is None || f.voted_for
                == Some(from)) && up_to_date(
                last_term,
                last_index,
                self.log.last_term(),
                self.log.last_index(),
            ) {
                Some(
                    self.save_term(self.term, Some(from)).with_role(
                        RoleView::Follower(FollowerView { voted_for: Some(from), ..f }),
                    ).send(from, EventView::GrantVote),
                )
            } else {
                Some(self)
            },
            EventView::ReplicateEntries { base_index, base_term, entries } => if base_index > 0
                && !self.log.has(base_index, base_term) {
                Some(self.send(from, EventView::RejectEntries))
            } else if self.log.splice_conflicts(base_index, entries) {
                None
            } else {
                Some(
                    self.with_log(self.log.splice(base_index, entries)).send(
                        from,
                        EventView::AcceptEntries { last_index: base_index + entries.len() },
                    ),
                )
            },
            _ => Some(self),
        }
    }

    /// A follower's step.
    pub open spec fn follower_step(self, msg: MessageView, timeout: nat) -> Option<NodeView> {
        if !self.accepts(msg) {
            Some(self)
        } else {
            match msg.from {
                None => Some(self),
                Some(from) => {
                    let node = if msg.term > self.term {
                        self.adopt(msg.term, from, timeout)
                    } else {
                        self
                    };
                    match node.role {
                        RoleView::Follower(f) => node.follower_handle(f, from, msg.event),
                        _ => Some(node),
                    }
                },
            }
        }
    }

    /// A follower's tick.
    pub open spec fn follower_tick(self, timeout: nat) -> NodeView {
        match self.role {
            RoleView::Follower(f) => if f.leader_seen_ticks + 1 >= f.election_timeout {
                self.campaign(timeout)
            } else {
                self.with_role(
                    RoleView::Follower(FollowerView { leader_seen_ticks: f.leader_seen_ticks + 1, ..f }),
                )
            },
            _ => self,
        }
    }

    /// The message that sends peer `i` the entries from its next index on.
    pub open spec fn replicate_message(self, l: LeaderView, i: int) -> MessageView {
        let base = (l.peer_next_index[i] - 1) as nat;
        self.message(
            self.peers[i],
            EventView::ReplicateEntries {
                base_index: base,
                base_term: self.log.term_at(base),
                entries: self.log.entries.skip(base as int),
            },
        )
    }

    /// One `replicate_message` for each peer, in the order of `peers`.
    pub open spec fn replicate_messages(self, l: LeaderView) -> Seq<MessageView> {
        Seq::new(self.peers.len(), |i: int| self.replicate_message(l, i))
    }

    /// A leader appends an entry with `command` in its term and sends every
    /// peer the entries that it lacks.
    pub open spec fn leader_append(self, l: LeaderView, command: Option<Seq<u8>>) -> NodeView {
        let node = self.with_log(self.log.append(EntryView { term: self.term, command }));
        node.emit(node.replicate_messages(l))
    }

    /// A candidate that has won: it leads, announces itself with a heartbeat
    /// and appends a no-op entry in its term.
    pub open spec fn become_leader(self) -> NodeView {
        let l = LeaderView::fresh(self.peers.len(), self.log.last_index());
        self.with_role(RoleView::Leader(l)).broadcast(
            EventView::Heartbeat {
                commit_index: self.log.commit_index,
                commit_term: self.log.commit_term(),
            },
        ).leader_append(l, None)
    }

    /// A candidate's step.
    pub open spec fn candidate_step(self, msg: MessageView, timeout: nat) -> Option<NodeView> {
        match self.role {
            RoleView::Candidate(c) => if !self.accepts(msg) {
                Some(self)
            } else if msg.term > self.term && msg.from is Some {
                self.adopt(msg.term, msg.from->0, timeout).follower_step(self.addressed(msg), timeout)
            } else {
                match msg.event {
                    EventView::Heartbeat { .. } => match msg.from {
                        Some(from) => self.follow(from, timeout).follower_step(
                            self.addressed(msg),
                            timeout,
                        ),
                        None => Some(self),
                    },
                    EventView::GrantVote => {
                        let node = self.with_role(
                            RoleView::Candidate(CandidateView { votes: c.votes + 1, ..c }),
                        );
                        if c.votes + 1 >= self.quorum() {
                            Some(node.become_leader())
                        } else {
                            Some(node)
                        }
                    },
                    _ => Some(self),
                }
            },
            _ => Some(self),
        }
    }

    /// Whether a candidate counts `msg` as a vote: it takes the message in,
    /// the message does not make it a follower, and the message grants a
    /// vote.
    pub open spec fn counts_vote(self, msg: MessageView) -> bool {
        self.accepts(msg) && !(msg.term > self.term && msg.from is Some) && msg.event is GrantVote
    }

    /// A candidate's tick.
    pub open spec fn candidate_tick(self, timeout: nat) -> NodeView {
        match self.role {
            RoleView::Candidate(c) => {
                let node = self.with_log(self.log.applied());
                if c.election_ticks + 1 >= c.election_timeout {
                    node.campaign(timeout)
                } else {
                    node.with_role(
                        RoleView::Candidate(CandidateView { election_ticks: c.election_ticks + 1, ..c }),
                    )
                }
            },
            _ => self,
        }
    }

    /// Whether a leader with role data `l` may commit entry `index`: it lies
    /// behind the commit index, was created in the leader's own term, and a
    /// quorum, the leader included, holds it.
    pub open spec fn committable(self, l: LeaderView, index: nat) -> bool {
        &&& self.log.commit_index < index <= self.log.last_index()
        &&& self.log.term_at(index) == self.term
        &&& replicated(l.peer_last_index, index) + 1 >= self.quorum()
    }

    /// The greatest committable index that is at most `from`, or the commit
    /// index where there is none.
    pub open spec fn commit_target(self, l: LeaderView, from: nat) -> nat
        decreases from,
    {
        if from <= self.log.commit_index {
            self.log.commit_index
        } else if self.committable(l, from) {
            from
        } else {
            self.commit_target(l, (from - 1) as nat)
        }
    }

    /// What a leader with role data `l` makes of `event`, sent by peer `i` in
    /// the leader's own term.
    pub open spec fn leader_handle(self, l: LeaderView, i: int, event: EventView) -> NodeView {
        match event {
            EventView::ConfirmLeader { commit_index, has_committed } => if !has_committed {
                self.emit(seq![self.replicate_message(l, i)])
            } else {
                self
            },
            EventView::AcceptEntries { last_index } => if l.peer_last_index[i] < last_index
                <= self.log.last_index() {
                let l2 = LeaderView {
                    peer_last_index: l.peer_last_index.update(i, last_index),
                    peer_next_index: l.peer_next_index.update(i, last_index + 1),
                    ..l
                };
                let node = self.with_role(RoleView::Leader(l2));
                node.with_log(node.log.commit(node.commit_target(l2, node.log.last_index())))
            } else {
                self
            },
            EventView::RejectEntries => if l.peer_next_index[i] > l.peer_last_index[i] + 1 {
                let l2 = LeaderView {
                    peer_next_index: l.peer_next_index.update(i, (l.peer_next_index[i] - 1) as nat),
                    ..l
                };
                let node = self.with_role(RoleView::Leader(l2));
                node.emit(seq![node.replicate_message(l2, i)])
            } else {
                self
            },
            _ => self,
        }
    }

    /// A leader's step.
    pub open spec fn leader_step(self, msg: MessageView, timeout: nat) -> Option<NodeView> {
        match self.role {
            RoleView::Leader(l) => if !self.accepts(msg) {
                Some(self)
            } else {
                match msg.from {
                    None => Some(self),
                    Some(from) => if msg.term > self.term {
                        self.adopt(msg.term, from, timeout).follower_step(self.addressed(msg), timeout)
                    } else if self.peers.contains(from) {
                        Some(self.leader_handle(l, self.peers.index_of(from), msg.event))
                    } else {
                        Some(self)
                    },
                }
            },
            _ => Some(self),
        }
    }

    /// A leader's tick.
    pub open spec fn leader_tick(self) -> NodeView {
        match self.role {
            RoleView::Leader(l) => {
                let node = self.with_log(self.log.applied());
                if l.heartbeat_ticks + 1 >= HEARTBEAT_INTERVAL {
                    let node = node.with_role(RoleView::Leader(LeaderView { heartbeat_ticks: 0, ..l }));
                    let node = node.broadcast(
                        EventView::Heartbeat {
                            commit_index: node.log.commit_index,
                            commit_term: node.log.commit_term(),
                        },
                    );
                    node.emit(node.replicate_messages(l))
                } else {
                    node.with_role(
                        RoleView::Leader(LeaderView { heartbeat_ticks: l.heartbeat_ticks + 1, ..l }),
                    )
                }
            },
            _ => self,
        }
    }

    /// The node after it has processed `msg`, in whatever role it is.
    /// `timeout` is the election timeout that a role entered by this step
    /// gets. `None` stands for a fatal failure.
    pub open spec fn step(self, msg: MessageView, timeout: nat) -> Option<NodeView> {
        match self.role {
            RoleView::Follower(_) => self.follower_step(msg, timeout),
            RoleView::Candidate(_) => self.candidate_step(msg, timeout),
            RoleView::Leader(_) => self.leader_step(msg, timeout),
        }
    }

    /// The node after one tick of the logical clock.
    pub open spec fn tick(self, timeout: nat) -> NodeView {
        match self.role {
            RoleView::Follower(_) => self.follower_tick(timeout),
            RoleView::Candidate(_) => self.candidate_tick(timeout),
            RoleView::Leader(_) => self.leader_tick(),
        }
    }

    /// The log whose pending entries a step on `msg` applies to the state
    /// machine, if the step applies any: a heartbeat that the node, as a
    /// follower, takes from its sender.
    pub open spec fn step_drains(self, msg: MessageView) -> Option<LogView> {
        if self.accepts(msg) && msg.from is Some && msg.event is Heartbeat && (msg.term > self.term
            || !(self.role is Leader)) {
            let log = if msg.term > self.term {
                self.log.save_term(msg.term, None)
            } else {
                self.log
            };
            Some(
                self.with_log(log).heartbeat_log(
                    msg.event->Heartbeat_commit_index,
                    msg.event->Heartbeat_commit_term,
                ),
            )
        } else {
            None
        }
    }

    /// The log whose pending entries a tick applies to the state machine, if
    /// the tick applies any.
    pub open spec fn tick_drains(self) -> Option<LogView> {
        if self.role is Follower {
            None
        } else {
            Some(self.log)
        }
    }
}

/// One input to a node: a tick of the clock, or a message. `timeout` is the
/// election timeout that a role entered on this input gets.
pub enum Input {
    Tick { timeout: nat },
    Deliver { msg: MessageView, timeout: nat },
}

impl Input {
    pub open spec fn timeout(self) -> nat {
        match self {
            Input::Tick { timeout } => timeout,
            Input::Deliver { timeout, .. } => timeout,
        }
    }
}

/// Whether every input brings an admissible election timeout.
pub open spec fn valid_inputs(inputs: Seq<Input>) -> bool {
    forall|i: int| 0 <= i < inputs.len() ==> valid_timeout(#[trigger] inputs[i].timeout())
}

impl NodeView {
    /// The node after one input. `None` stands for a fatal failure.
    pub open spec fn react(self, input: Input) -> Option<NodeView> {
        match input {
            Input::Tick { timeout } => Some(self.tick(timeout)),
            Input::Deliver { msg, timeout } => self.step(msg, timeout),
        }
    }

    /// The node after the inputs of an execution, taken in order.
    pub open spec fn run(self, inputs: Seq<Input>) -> Option<NodeView>
        decreases inputs.len(),
    {
        if inputs.len() == 0 {
            Some(self)
        } else {
            match self.run(inputs.drop_last()) {
                Some(node) => node.react(inputs.last()),
                None => None,
            }
        }
    }

    /// The messages that the node has emitted since it was `before`.
    pub open spec fn emitted_since(self, before: NodeView) -> Seq<MessageView> {
        self.outbox.skip(before.outbox.len() as int)
    }
}

} // verus!
