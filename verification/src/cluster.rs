//! A cluster of nodes and the network between them, as a transition system.
//!
//! The nodes are those of the model. The network holds the messages in
//! flight; it may deliver them in any order, lose them, and merge two equal
//! messages that are in flight together, but it delivers no message twice.
//! What a node emits is handed to the network at once.

use crate::model::{valid_timeout, MessageView, NodeView};
use vstd::prelude::*;

verus! {

/// The nodes of a cluster by their identity, and the messages in flight.
pub struct Cluster {
    pub nodes: Map<Seq<char>, NodeView>,
    pub network: Set<MessageView>,
}

/// What may happen next in a cluster: the clock of a node ticks, a message
/// in flight is delivered to the node that it names, a message in flight is
/// lost, or a leader is handed a command to append. `timeout` is the election
/// timeout that a role entered by the node gets.
pub enum Action {
    Tick { id: Seq<char>, timeout: nat },
    Deliver { msg: MessageView, timeout: nat },
    Drop { msg: MessageView },
    Propose { id: Seq<char>, command: Seq<u8> },
}

/// `node` with an empty outbox.
pub open spec fn cleared(node: NodeView) -> NodeView {
    NodeView { outbox: Seq::empty(), ..node }
}

impl Cluster {
    pub open spec fn has(self, id: Seq<char>) -> bool {
        self.nodes.dom().contains(id)
    }

    /// Node `id` is well-formed, goes by its identity, has handed over what
    /// it emitted, and has every other node of the cluster as a peer.
    pub open spec fn node_wf(self, id: Seq<char>) -> bool {
        let node = self.nodes[id];
        &&& node.id == id
        &&& node.wf()
        &&& node.outbox.len() == 0
        &&& node.peers.to_set() == self.nodes.dom().remove(id)
    }

    /// A finite cluster of well-formed nodes.
    pub open spec fn wf(self) -> bool {
        &&& self.nodes.dom().finite()
        &&& forall|id: Seq<char>| #[trigger] self.has(id) ==> self.node_wf(id)
    }

    /// A cluster at its start: every node is a follower, and nothing is in
    /// flight.
    pub open spec fn init(self) -> bool {
        &&& self.wf()
        &&& self.network == Set::<MessageView>::empty()
        &&& forall|id: Seq<char>| #[trigger] self.has(id) ==> self.nodes[id].role is Follower
    }

    /// A cluster at its first start: every node is a follower with an empty
    /// log, and nothing is in flight.
    pub open spec fn genesis(self) -> bool {
        &&& self.init()
        &&& forall|id: Seq<char>| #[trigger] self.has(id) ==> self.nodes[id].log.entries.len() == 0
    }

    /// Whether `action` may happen.
    pub open spec fn enabled(self, action: Action) -> bool {
        match action {
            Action::Tick { id, timeout } => self.has(id) && valid_timeout(timeout),
            Action::Deliver { msg, timeout } => {
                &&& self.network.contains(msg)
                &&& msg.to is Some
                &&& self.has(msg.to->0)
                &&& valid_timeout(timeout)
            },
            Action::Drop { msg } => self.network.contains(msg),
            Action::Propose { id, command } => self.has(id) && self.nodes[id].role is Leader,
        }
    }

    /// The cluster after node `id` has become `after` and handed what it
    /// emitted to `network`.
    pub open spec fn settle(self, id: Seq<char>, after: NodeView, network: Set<MessageView>) -> Cluster {
        Cluster { nodes: self.nodes.insert(id, cleared(after)), network: network.union(after.outbox.to_set()) }
    }

    /// The cluster after `action`. A node that fails on a message stays as
    /// it was.
    pub open spec fn next(self, action: Action) -> Cluster {
        match action {
            Action::Tick { id, timeout } => self.settle(id, self.nodes[id].tick(timeout), self.network),
            Action::Deliver { msg, timeout } => match self.nodes[msg.to->0].step(msg, timeout) {
                Some(after) => self.settle(msg.to->0, after, self.network.remove(msg)),
                None => Cluster { network: self.network.remove(msg), ..self },
            },
            Action::Drop { msg } => Cluster { network: self.network.remove(msg), ..self },
            Action::Propose { id, command } => self.settle(
                id,
                self.nodes[id].leader_append(self.nodes[id].role->Leader_0, Some(command)),
                self.network,
            ),
        }
    }

    /// The cluster after `actions`, taken in order.
    pub open spec fn play(self, actions: Seq<Action>) -> Cluster
        decreases actions.len(),
    {
        if actions.len() == 0 {
            self
        } else {
            self.play(actions.drop_last()).next(actions.last())
        }
    }

    /// Whether each of `actions` may happen when its turn comes.
    pub open spec fn playable(self, actions: Seq<Action>) -> bool
        decreases actions.len(),
    {
        actions.len() == 0 || (self.playable(actions.drop_last()) && self.play(
            actions.drop_last(),
        ).enabled(actions.last()))
    }

    /// Where the logs of two nodes hold an entry of the same term at the
    /// same index, they are the same up to that entry.
    pub open spec fn log_matching(self) -> bool {
        forall|a: Seq<char>, b: Seq<char>, i: int|
            #![trigger self.nodes[a].log.entries[i], self.nodes[b].log.entries[i]]
            self.has(a) && self.has(b) && 0 <= i < self.nodes[a].log.entries.len() && i
                < self.nodes[b].log.entries.len() && self.nodes[a].log.entries[i].term
                == self.nodes[b].log.entries[i].term ==> self.nodes[a].log.entries.take(i + 1)
                == self.nodes[b].log.entries.take(i + 1)
    }

    /// No two nodes lead in the same term.
    pub open spec fn election_safe(self) -> bool {
        forall|a: Seq<char>, b: Seq<char>|
            #![trigger self.has(a), self.has(b)]
            self.has(a) && self.has(b) && a != b && self.nodes[a].role is Leader
                && self.nodes[b].role is Leader ==> self.nodes[a].term != self.nodes[b].term
    }
}

} // verus!
