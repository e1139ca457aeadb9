//! The node: the context that all roles share, and the node in any role.

use crate::error::{Error, ErrorKind, ErrorView};
use crate::log::{pending_failed, pending_ran, splice_refused, Log};
use crate::message::{messages_view, name_view, names_view, Event, Message};
use crate::model::{
    valid_cluster, valid_timeout, FollowerView, LogView, MessageView, NodeView, RoleView,
    ELECTION_TIMEOUT_MIN,
};
use crate::timeout::election_timeout;
use crate::node::candidate::Candidate;
use crate::node::follower::Follower;
use crate::node::leader::Leader;
use crate::state::State;
use vstd::prelude::*;

pub mod candidate;
pub mod follower;
pub mod leader;

verus! {

/// What a role keeps besides the shared context.
pub trait Role {
    /// The role data as a plain value.
    spec fn role_view(&self) -> RoleView;
}

/// A node in role `R`, with the state machine `S`.
pub struct RoleNode<R, S> {
    id: String,
    peers: Vec<String>,
    term: u64,
    log: Log,
    state: S,
    outbox: Vec<Message>,
    role: R,
}

impl<R: Role, S> View for RoleNode<R, S> {
    type V = NodeView;

    closed spec fn view(&self) -> NodeView {
        NodeView {
            id: self.id@,
            peers: names_view(self.peers@),
            term: self.term as nat,
            log: self.log@,
            outbox: messages_view(self.outbox@),
            role: self.role.role_view(),
        }
    }
}

/// Whether `name` is one of `names`.
pub fn contains_name(names: &Vec<String>, name: &String) -> (r: bool)
    ensures
        r == names_view(names@).contains(name@),
{
    let mut i: usize = 0;
    while i < names.len()
        invariant
            i <= names.len(),
            forall|j: int| 0 <= j < i ==> names_view(names@)[j] != name@,
        decreases names.len() - i,
    {
        if names[i] == *name {
            assert(names_view(names@)[i as int] == name@);
            return true;
        }
        i += 1;
    }
    false
}

/// Whether no name occurs twice in `names`.
pub fn distinct_names(names: &Vec<String>) -> (r: bool)
    ensures
        r == names_view(names@).no_duplicates(),
{
    let ghost view = names_view(names@);
    let mut i: usize = 0;
    while i < names.len()
        invariant
            i <= names.len(),
            view == names_view(names@),
            forall|a: int, b: int| 0 <= a < b < i ==> view[a] != view[b],
        decreases names.len() - i,
    {
        let mut j: usize = 0;
        while j < i
            invariant
                j <= i < names.len(),
                view == names_view(names@),
                forall|a: int| 0 <= a < j ==> view[a] != view[i as int],
            decreases i - j,
        {
            if names[j] == names[i] {
                assert(view[j as int] == view[i as int]);
                return false;
            }
            j += 1;
        }
        i += 1;
    }
    true
}

/// What the constructors return for an invalid cluster.
pub open spec fn invalid_cluster() -> ErrorView {
    ErrorView {
        kind: ErrorKind::Config,
        text: "peers must be distinct, at least one, and must not include the node itself"@,
    }
}

impl<R: Role, S> RoleNode<R, S> {
    /// The state machine of the node.
    pub closed spec fn state(&self) -> S {
        self.state
    }

    /// Creates a node with the identity `id` in the cluster of `peers`, in
    /// the term that `log` has stored, with nothing to send. The cluster is
    /// invalid, and refused, where `peers` is empty, names a node twice or
    /// names `id`.
    pub fn new(id: String, peers: Vec<String>, log: Log, state: S, role: R) -> (r: Result<Self, Error>)
        requires
            log.wf(),
            peers.len() < u64::MAX,
        ensures
            match r {
                Ok(node) => {
                    &&& valid_cluster(id@, names_view(peers@))
                    &&& node@ == (NodeView {
                        id: id@,
                        peers: names_view(peers@),
                        term: log@.term,
                        log: log@,
                        outbox: Seq::empty(),
                        role: role.role_view(),
                    })
                    &&& node.state() == state
                    &&& node.fits()
                    &&& node@.campaigns()
                },
                Err(e) => !valid_cluster(id@, names_view(peers@)) && e@ == invalid_cluster(),
            },
    {
        if peers.len() == 0 || contains_name(&peers, &id) || !distinct_names(&peers) {
            return Err(
                Error::config("peers must be distinct, at least one, and must not include the node itself"),
            );
        }
        let (term, _) = log.load_term();
        let node = RoleNode { id, peers, term, log, state, outbox: Vec::new(), role };
        assert(node@.outbox =~= Seq::empty());
        Ok(node)
    }

    /// The identity of the node.
    pub fn id(&self) -> (r: &String)
        ensures
            r@ == self@.id,
    {
        &self.id
    }

    /// The other nodes of the cluster.
    pub fn peers(&self) -> (r: &Vec<String>)
        ensures
            names_view(r@) == self@.peers,
    {
        &self.peers
    }

    /// The current term.
    pub fn term(&self) -> (r: u64)
        ensures
            r == self@.term,
    {
        self.term
    }

    /// The log.
    pub fn log(&self) -> (r: &Log)
        ensures
            r@ == self@.log,
            self.fits() ==> r.wf(),
    {
        &self.log
    }

    /// The state machine.
    pub fn state_machine(&self) -> (r: &S)
        ensures
            *r == self.state(),
    {
        &self.state
    }

    /// The role data.
    pub fn role(&self) -> (r: &R)
        ensures
            r.role_view() == self@.role,
    {
        &self.role
    }

    /// The messages that the node has emitted and not yet handed over, oldest
    /// first.
    pub fn outbox(&self) -> (r: &Vec<Message>)
        ensures
            messages_view(r@) == self@.outbox,
    {
        &self.outbox
    }

    /// Hands over the messages that the node has emitted, oldest first, and
    /// leaves the outbox empty.
    pub fn take_outbox(&mut self) -> (r: Vec<Message>)
        ensures
            messages_view(r@) == old(self)@.outbox,
            final(self)@ == (NodeView { outbox: Seq::empty(), ..old(self)@ }),
            final(self).state() == old(self).state(),
            final(self).fits() == old(self).fits(),
    {
        let mut taken: Vec<Message> = Vec::new();
        core::mem::swap(&mut self.outbox, &mut taken);
        assert(messages_view(self.outbox@) =~= Seq::empty());
        taken
    }

    /// What the executable representation needs beyond the model's
    /// invariant: a well-formed log, and a number of peers that leaves room
    /// for the node itself in a `u64`.
    pub closed spec fn fits(&self) -> bool {
        self.log.wf() && self.peers.len() < u64::MAX
    }

    /// The invariant of a node.
    pub open spec fn wf(&self) -> bool {
        self.fits() && self@.wf()
    }

    /// The number of votes that wins an election: a strict majority of the
    /// cluster.
    pub fn quorum(&self) -> (r: u64)
        requires
            self.fits(),
        ensures
            r == self@.quorum(),
    {
        (self.peers.len() as u64 + 1) / 2 + 1
    }

    /// Decides whether `msg` is taken in: a message for another node, or of
    /// a term behind the node's, is not. A message that is taken in and
    /// names no recipient is addressed to this node.
    pub fn normalize_message(&self, msg: &mut Message) -> (r: bool)
        ensures
            r == self@.accepts(old(msg)@),
            r ==> final(msg)@ == self@.addressed(old(msg)@),
            !r ==> final(msg)@ == old(msg)@,
    {
        match &msg.to {
            Some(to) => {
                if !(*to == self.id) {
                    return false;
                }
            },
            None => {},
        }
        if msg.term < self.term {
            return false;
        }
        if msg.to.is_none() {
            msg.to = Some(self.id.clone());
        }
        true
    }

    /// Stores `(term, voted_for)` in the term record and takes over `term`.
    pub(crate) fn save_term(&mut self, term: u64, voted_for: Option<String>)
        requires
            old(self).fits(),
        ensures
            final(self).fits(),
            final(self)@ == old(self)@.save_term(term as nat, name_view(voted_for)),
            final(self).state() == old(self).state(),
    {
        self.log.save_term(term, voted_for);
        self.term = term;
    }

    /// The same node in another role. The old role data is dropped.
    pub(crate) fn become_role<T: Role>(self, role: T) -> (r: RoleNode<T, S>)
        ensures
            r@ == self@.with_role(role.role_view()),
            r.state() == self.state(),
            r.fits() == self.fits(),
    {
        RoleNode {
            id: self.id,
            peers: self.peers,
            term: self.term,
            log: self.log,
            state: self.state,
            outbox: self.outbox,
            role,
        }
    }

    /// Emits `event` for `to`, in the node's term.
    pub(crate) fn send(&mut self, to: &String, event: Event)
        ensures
            final(self)@ == old(self)@.send(to@, event@),
            final(self).state() == old(self).state(),
            final(self).fits() == old(self).fits(),
    {
        let msg = Message { from: Some(self.id.clone()), to: Some(to.clone()), term: self.term, event };
        self.outbox.push(msg);
        assert(messages_view(self.outbox@) =~= messages_view(old(self).outbox@) + seq![msg@]);
    }

    /// Emits `event` for every peer, in the order of the peers.
    pub(crate) fn broadcast(&mut self, event: Event)
        ensures
            final(self)@ == old(self)@.broadcast(event@),
            final(self).state() == old(self).state(),
            final(self).fits() == old(self).fits(),
    {
        let ghost before = self@;
        let ghost all = before.broadcast_messages(event@);
        let mut i: usize = 0;
        while i < self.peers.len()
            invariant
                i <= self.peers.len(),
                self.id == old(self).id,
                self.peers == old(self).peers,
                self.term == old(self).term,
                self.log == old(self).log,
                self.state == old(self).state,
                self.role == old(self).role,
                before == old(self)@,
                all == before.broadcast_messages(event@),
                messages_view(self.outbox@) == before.outbox + all.take(i as int),
            decreases self.peers.len() - i,
        {
            let msg = Message {
                from: Some(self.id.clone()),
                to: Some(self.peers[i].clone()),
                term: self.term,
                event: event.clone(),
            };
            assert(msg@ == all[i as int]);
            let ghost prior = self.outbox@;
            self.outbox.push(msg);
            assert(messages_view(self.outbox@) =~= messages_view(prior).push(msg@));
            assert(all.take(i + 1) =~= all.take(i as int).push(all[i as int]));
            assert(messages_view(self.outbox@) =~= before.outbox + all.take(i + 1));
            i += 1;
        }
        assert(all.take(i as int) =~= all);
    }
}

/// The node in whatever role it is.
pub enum Node<S> {
    Candidate(RoleNode<Candidate, S>),
    Follower(RoleNode<Follower, S>),
    Leader(RoleNode<Leader, S>),
}

impl<S> View for Node<S> {
    type V = NodeView;

    open spec fn view(&self) -> NodeView {
        match self {
            Node::Candidate(n) => n@,
            Node::Follower(n) => n@,
            Node::Leader(n) => n@,
        }
    }
}

impl<S> Node<S> {
    /// The state machine of the node.
    pub open spec fn state(&self) -> S {
        match self {
            Node::Candidate(n) => n.state(),
            Node::Follower(n) => n.state(),
            Node::Leader(n) => n.state(),
        }
    }

    /// The invariant of a node.
    pub open spec fn wf(&self) -> bool {
        match self {
            Node::Candidate(n) => n.wf() && n@.role is Candidate,
            Node::Follower(n) => n.wf() && n@.role is Follower,
            Node::Leader(n) => n.wf() && n@.role is Leader,
        }
    }

    /// The identity of the node.
    pub fn id(&self) -> (r: &String)
        ensures
            r@ == self@.id,
    {
        match self {
            Node::Candidate(n) => n.id(),
            Node::Follower(n) => n.id(),
            Node::Leader(n) => n.id(),
        }
    }

    /// The current term.
    pub fn term(&self) -> (r: u64)
        ensures
            r == self@.term,
    {
        match self {
            Node::Candidate(n) => n.term(),
            Node::Follower(n) => n.term(),
            Node::Leader(n) => n.term(),
        }
    }

    /// The log.
    pub fn log(&self) -> (r: &Log)
        ensures
            r@ == self@.log,
            self.wf() ==> r.wf(),
    {
        match self {
            Node::Candidate(n) => n.log(),
            Node::Follower(n) => n.log(),
            Node::Leader(n) => n.log(),
        }
    }

    /// The state machine.
    pub fn state_machine(&self) -> (r: &S)
        ensures
            *r == self.state(),
    {
        match self {
            Node::Candidate(n) => n.state_machine(),
            Node::Follower(n) => n.state_machine(),
            Node::Leader(n) => n.state_machine(),
        }
    }

    pub fn is_candidate(&self) -> (r: bool)
        ensures
            r == (self@.role is Candidate),
    {
        match self {
            Node::Candidate(_) => true,
            _ => false,
        }
    }

    pub fn is_follower(&self) -> (r: bool)
        ensures
            r == (self@.role is Follower),
    {
        match self {
            Node::Follower(_) => true,
            _ => false,
        }
    }

    pub fn is_leader(&self) -> (r: bool)
        ensures
            r == (self@.role is Leader),
    {
        match self {
            Node::Leader(_) => true,
            _ => false,
        }
    }

    /// The messages that the node has emitted and not yet handed over, oldest
    /// first.
    pub fn outbox(&self) -> (r: &Vec<Message>)
        ensures
            messages_view(r@) == self@.outbox,
    {
        match self {
            Node::Candidate(n) => n.outbox(),
            Node::Follower(n) => n.outbox(),
            Node::Leader(n) => n.outbox(),
        }
    }

    /// Hands over the messages that the node has emitted, oldest first, and
    /// leaves the outbox empty.
    pub fn take_outbox(&mut self) -> (r: Vec<Message>)
        ensures
            messages_view(r@) == old(self)@.outbox,
            final(self)@ == (NodeView { outbox: Seq::empty(), ..old(self)@ }),
            final(self).state() == old(self).state(),
            old(self).wf() ==> final(self).wf(),
    {
        match self {
            Node::Candidate(n) => n.take_outbox(),
            Node::Follower(n) => n.take_outbox(),
            Node::Leader(n) => n.take_outbox(),
        }
    }
}

impl<S: State> Node<S> {
    /// Creates a node that starts as a follower without a leader, in the
    /// term and with the vote that `log` has stored, and with a random
    /// election timeout. An invalid cluster is refused.
    pub fn new(id: String, peers: Vec<String>, log: Log, state: S) -> (r: Result<Self, Error>)
        requires
            log.wf(),
            peers.len() < u64::MAX,
        ensures
            exists|timeout: nat|
                valid_timeout(timeout) && started(id@, names_view(peers@), log@, state, timeout, r),
    {
        let timeout = election_timeout();
        Self::with_timeout(id, peers, log, state, timeout)
    }

    /// Creates a node that starts as a follower without a leader, in the
    /// term and with the vote that `log` has stored, and with the election
    /// timeout `timeout`. An invalid cluster is refused.
    pub fn with_timeout(id: String, peers: Vec<String>, log: Log, state: S, timeout: u64) -> (r: Result<
        Self,
        Error,
    >)
        requires
            log.wf(),
            peers.len() < u64::MAX,
            valid_timeout(timeout as nat),
        ensures
            started(id@, names_view(peers@), log@, state, timeout as nat, r),
    {
        let (_, voted_for) = log.load_term();
        match RoleNode::new(id, peers, log, state, Follower::with_timeout(None, voted_for, timeout)) {
            Ok(node) => Ok(Node::Follower(node)),
            Err(e) => Err(e),
        }
    }

    /// Processes a message. A role that this step enters gets a random
    /// election timeout.
    pub fn step(self, msg: Message) -> (r: Result<Self, Error>)
        requires
            self.wf(),
            step_fits(self@, msg@),
        ensures
            exists|timeout: nat| valid_timeout(timeout) && step_result(self@, self.state(), msg@, timeout, r),
    {
        match self {
            Node::Candidate(n) => n.step(msg),
            Node::Follower(n) => n.step(msg),
            Node::Leader(n) => n.step(msg),
        }
    }

    /// Processes a message. A role that this step enters gets the election
    /// timeout `timeout`.
    pub fn step_with_timeout(self, msg: Message, timeout: u64) -> (r: Result<Self, Error>)
        requires
            self.wf(),
            step_fits(self@, msg@),
            valid_timeout(timeout as nat),
        ensures
            step_result(self@, self.state(), msg@, timeout as nat, r),
    {
        match self {
            Node::Candidate(n) => n.step_with_timeout(msg, timeout),
            Node::Follower(n) => n.step_with_timeout(msg, timeout),
            Node::Leader(n) => n.step_with_timeout(msg, timeout),
        }
    }

    /// Moves time forward by a tick. A candidate that this tick makes of the
    /// node gets a random election timeout.
    pub fn tick(self) -> (r: Result<Self, Error>)
        requires
            self.wf(),
            self@.role is Leader || tick_fits(self@),
        ensures
            exists|timeout: nat| valid_timeout(timeout) && tick_result(self@, self.state(), timeout, r),
    {
        match self {
            Node::Candidate(n) => n.tick(),
            Node::Follower(n) => n.tick(),
            Node::Leader(n) => {
                let ghost before = n@;
                let ghost state = n.state();
                let r = n.tick();
                assert(valid_timeout(ELECTION_TIMEOUT_MIN as nat) && tick_result(
                    before,
                    state,
                    ELECTION_TIMEOUT_MIN as nat,
                    r,
                ));
                r
            },
        }
    }

    /// Moves time forward by a tick. A candidate that this tick makes of the
    /// node gets the election timeout `timeout`.
    pub fn tick_with_timeout(self, timeout: u64) -> (r: Result<Self, Error>)
        requires
            self.wf(),
            self@.role is Leader || tick_fits(self@),
            valid_timeout(timeout as nat),
        ensures
            tick_result(self@, self.state(), timeout as nat, r),
    {
        match self {
            Node::Candidate(n) => n.tick_with_timeout(timeout),
            Node::Follower(n) => n.tick_with_timeout(timeout),
            Node::Leader(n) => n.tick(),
        }
    }
}

/// How the constructors of `Node` relate their arguments to their result:
/// an invalid cluster is refused, and a valid one gives a well-formed
/// follower without a leader.
pub open spec fn started<S>(
    id: Seq<char>,
    peers: Seq<Seq<char>>,
    log: LogView,
    state: S,
    timeout: nat,
    r: Result<Node<S>, Error>,
) -> bool {
    if valid_cluster(id, peers) {
        &&& r matches Ok(node)
        &&& node@ == (NodeView {
            id,
            peers,
            term: log.term,
            log,
            outbox: Seq::empty(),
            role: RoleView::Follower(FollowerView::fresh(None, log.voted_for, timeout)),
        })
        &&& node.state() == state
        &&& node.wf()
    } else {
        r matches Err(e) && e@ == invalid_cluster()
    }
}

/// Whether what a step or a tick applies to the state machine, the pending
/// entries of `drains` or nothing, may leave the state `after`.
pub open spec fn drained<S: State>(state: S, drains: Option<LogView>, after: S) -> bool {
    match drains {
        Some(log) => pending_ran(state, log, after),
        None => after == state,
    }
}

/// Whether what a step or a tick applies to the state machine may fail with
/// `failure`.
pub open spec fn drain_failed<S: State>(state: S, drains: Option<LogView>, failure: ErrorView) -> bool {
    match drains {
        Some(log) => pending_failed(state, log, failure),
        None => false,
    }
}

/// Whether the indices that a step on `msg` stores or sends fit a `u64`: the
/// log has room for one more entry, and for the entries that `msg` brings.
pub open spec fn step_fits(node: NodeView, msg: MessageView) -> bool {
    &&& node.log.entries.len() + 1 < u64::MAX
    &&& msg.event matches crate::model::EventView::ReplicateEntries { base_index, entries, .. }
        ==> base_index + entries.len() < u64::MAX
}

/// Whether the term that a tick may move to fits a `u64`.
pub open spec fn tick_fits(node: NodeView) -> bool {
    node.term < u64::MAX
}

/// How a step relates the node and the state machine before it to its
/// result, for a new role's election timeout `timeout`. A step that succeeds
/// returns the node that the model's `step` gives, with the state machine
/// after the entries that were applied. A step fails only where the state
/// machine fails on an entry that the step applies, with the state
/// machine's error, or where a follower is sent entries that would replace a
/// committed one; and it does fail there.
pub open spec fn step_result<S: State>(
    before: NodeView,
    state: S,
    msg: MessageView,
    timeout: nat,
    r: Result<Node<S>, Error>,
) -> bool {
    match r {
        Ok(node) => {
            &&& before.step(msg, timeout) == Some(node@)
            &&& drained(state, before.step_drains(msg), node.state())
            &&& node.wf()
        },
        Err(e) => {
            ||| drain_failed(state, before.step_drains(msg), e@)
            ||| before.step(msg, timeout) is None && e@ == splice_refused()
        },
    }
}

/// How a tick relates the node and the state machine before it to its
/// result, for a new role's election timeout `timeout`. A tick that succeeds
/// returns the node that the model's `tick` gives, with the state machine
/// after the entries that were applied. A tick fails only where the state
/// machine fails on an entry that the tick applies, with the state machine's
/// error.
pub open spec fn tick_result<S: State>(
    before: NodeView,
    state: S,
    timeout: nat,
    r: Result<Node<S>, Error>,
) -> bool {
    match r {
        Ok(node) => {
            &&& node@ == before.tick(timeout)
            &&& drained(state, before.tick_drains(), node.state())
            &&& node.wf()
        },
        Err(e) => drain_failed(state, before.tick_drains(), e@),
    }
}

} // verus!
