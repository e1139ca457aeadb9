//! The leader role: it replicates its log and commits what a quorum holds.

use crate::error::Error;
use crate::laws::{lemma_adopt_wf, lemma_leader_step_wf, lemma_leader_tick_wf};
use crate::message::{command_view, names_view, Entry, Event, Message};
use crate::model::{replicated, valid_timeout, LeaderView, RoleView};
use crate::node::follower::Follower;
use crate::node::{step_fits, step_result, tick_result, Node, Role, RoleNode};
use crate::state::State;
use crate::timeout::election_timeout;
use vstd::prelude::*;

verus! {

/// A leader serves the cluster until it sees a greater term.
#[derive(Debug)]
pub struct Leader {
    /// For each peer, the index of the next entry to send it.
    peer_next_index: Vec<u64>,
    /// For each peer, the last index that it is known to hold.
    peer_last_index: Vec<u64>,
    /// Ticks since the last heartbeat.
    heartbeat_ticks: u64,
}

/// The numbers of a sequence as naturals.
pub open spec fn indices_view(indices: Seq<u64>) -> Seq<nat> {
    indices.map_values(|i: u64| i as nat)
}

impl View for Leader {
    type V = LeaderView;

    closed spec fn view(&self) -> LeaderView {
        LeaderView {
            peer_next_index: indices_view(self.peer_next_index@),
            peer_last_index: indices_view(self.peer_last_index@),
            heartbeat_ticks: self.heartbeat_ticks as nat,
        }
    }
}

impl Role for Leader {
    open spec fn role_view(&self) -> RoleView {
        RoleView::Leader(self@)
    }
}

/// The position of `name` among `names`, if it is one of them.
pub fn position_of(names: &Vec<String>, name: &String) -> (r: Option<usize>)
    ensures
        match r {
            Some(i) => i < names.len() && names_view(names@)[i as int] == name@ && (names_view(
                names@,
            ).no_duplicates() ==> names_view(names@).index_of(name@) == i),
            None => !names_view(names@).contains(name@),
        },
{
    let mut i: usize = 0;
    while i < names.len()
        invariant
            i <= names.len(),
            forall|j: int| 0 <= j < i ==> names_view(names@)[j] != name@,
        decreases names.len() - i,
    {
        if names[i] == *name {
            assert(names_view(names@)[i as int] == name@);
            return Some(i);
        }
        i += 1;
    }
    None
}

/// How many of `last` are at least `index`.
fn count_at_least(last: &Vec<u64>, index: u64) -> (r: u64)
    requires
        last.len() < u64::MAX,
    ensures
        r == replicated(indices_view(last@), index as nat),
        r <= last.len(),
{
    let mut count: u64 = 0;
    let mut i: usize = 0;
    while i < last.len()
        invariant
            i <= last.len(),
            last.len() < u64::MAX,
            count <= i,
            count == replicated(indices_view(last@).take(i as int), index as nat),
        decreases last.len() - i,
    {
        assert(indices_view(last@).take(i + 1).drop_last() =~= indices_view(last@).take(i as int));
        if last[i] >= index {
            count += 1;
        }
        i += 1;
    }
    assert(indices_view(last@).take(i as int) =~= indices_view(last@));
    count
}

impl Leader {
    /// The role data of a new leader of `peers` peers whose log ends at
    /// `last_index`: every peer is sent the entries behind `last_index` next
    /// and is not known to hold any.
    pub fn new(peers: usize, last_index: u64) -> (r: Self)
        requires
            last_index < u64::MAX,
        ensures
            r@ == LeaderView::fresh(peers as nat, last_index as nat),
    {
        let mut peer_next_index: Vec<u64> = Vec::new();
        let mut peer_last_index: Vec<u64> = Vec::new();
        let mut i: usize = 0;
        while i < peers
            invariant
                i <= peers,
                last_index < u64::MAX,
                peer_next_index.len() == i,
                peer_last_index.len() == i,
                forall|j: int| 0 <= j < i ==> peer_next_index[j] == last_index + 1,
                forall|j: int| 0 <= j < i ==> peer_last_index[j] == 0,
            decreases peers - i,
        {
            peer_next_index.push(last_index + 1);
            peer_last_index.push(0);
            i += 1;
        }
        let r = Leader { peer_next_index, peer_last_index, heartbeat_ticks: 0 };
        assert(r@.peer_next_index =~= LeaderView::fresh(peers as nat, last_index as nat).peer_next_index);
        assert(r@.peer_last_index =~= LeaderView::fresh(peers as nat, last_index as nat).peer_last_index);
        r
    }
}

impl<S: State> RoleNode<Leader, S> {
    /// Takes over the greater term `term` and follows `leader`.
    fn become_follower(self, leader: &String, term: u64, timeout: u64) -> (r: RoleNode<Follower, S>)
        requires
            self.fits(),
        ensures
            r.fits(),
            r@ == self@.adopt(term as nat, leader@, timeout as nat),
            r.state() == self.state(),
    {
        let mut node = self;
        node.save_term(term, None);
        node.become_role(Follower::with_timeout(Some(leader.clone()), None, timeout))
    }

    /// Sends peer `i` the entries from its next index on.
    fn replicate(&mut self, i: usize)
        requires
            old(self).wf(),
            old(self)@.role is Leader,
            i < old(self)@.peers.len(),
        ensures
            final(self)@ == old(self)@.emit(
                seq![old(self)@.replicate_message(old(self)@.role->Leader_0, i as int)],
            ),
            final(self).state() == old(self).state(),
            final(self).fits(),
    {
        let ghost l = self@.role->Leader_0;
        assert(l.peer_last_index[i as int] < l.peer_next_index[i as int]);
        let next = self.role.peer_next_index[i];
        assert(next as nat == l.peer_next_index[i as int]);
        let base = next - 1;
        let base_term = self.log.term_at(base);
        let entries = self.log.scan(next);
        assert(self@.log.from_index(next as nat) =~= self@.log.entries.skip(base as int));
        let to = self.peers[i].clone();
        assert(to@ == self@.peers[i as int]);
        self.send(&to, Event::ReplicateEntries { base_index: base, base_term, entries });
    }

    /// Sends every peer the entries from its next index on.
    fn replicate_all(&mut self)
        requires
            old(self).wf(),
            old(self)@.role is Leader,
        ensures
            final(self)@ == old(self)@.emit(old(self)@.replicate_messages(old(self)@.role->Leader_0)),
            final(self).state() == old(self).state(),
            final(self).fits(),
    {
        let ghost before = self@;
        let ghost l = before.role->Leader_0;
        let ghost all = before.replicate_messages(l);
        let mut i: usize = 0;
        while i < self.peers.len()
            invariant
                i <= self.peers.len(),
                before.wf(),
                before.role == RoleView::Leader(l),
                before.peers.len() == self.peers.len(),
                all == before.replicate_messages(l),
                self.fits(),
                self@ == before.emit(all.take(i as int)),
                self.state() == old(self).state(),
            decreases self.peers.len() - i,
        {
            proof {
                let at = self@;
                assert(at.wf());
                assert(at.replicate_message(l, i as int) == all[i as int]);
                assert(all.take(i + 1) =~= all.take(i as int) + seq![all[i as int]]);
                assert(before.outbox + all.take(i as int) + seq![all[i as int]] =~= before.outbox
                    + all.take(i + 1));
            }
            self.replicate(i);
            i += 1;
        }
        assert(all.take(i as int) =~= all);
    }

    /// Appends an entry with `command` in the leader's term, sends every peer
    /// the entries that it lacks, and returns the entry's index.
    pub fn append(&mut self, command: Option<Vec<u8>>) -> (index: u64)
        requires
            old(self).wf(),
            old(self)@.role is Leader,
            old(self)@.log.entries.len() + 1 < u64::MAX,
        ensures
            final(self)@ == old(self)@.leader_append(old(self)@.role->Leader_0, command_view(command)),
            index == final(self)@.log.last_index(),
            final(self).state() == old(self).state(),
            final(self).wf(),
    {
        let entry = Entry { term: self.term, command };
        let index = self.log.append(entry);
        self.replicate_all();
        index
    }

    /// Moves the commit index to the greatest entry of the leader's own term
    /// that a quorum holds, if there is one behind it.
    fn commit(&mut self)
        requires
            old(self).wf(),
            old(self)@.role is Leader,
        ensures
            final(self)@ == old(self)@.with_log(
                old(self)@.log.commit(
                    old(self)@.commit_target(old(self)@.role->Leader_0, old(self)@.log.last_index()),
                ),
            ),
            final(self).state() == old(self).state(),
            final(self).fits(),
    {
        let ghost before = self@;
        let ghost l = before.role->Leader_0;
        let quorum = self.quorum();
        let (last_index, _) = self.log.get_last();
        let (commit_index, _) = self.log.get_committed();
        let mut index = last_index;
        while index > commit_index
            invariant
                commit_index <= index <= last_index,
                self@ == before,
                before == old(self)@,
                self.fits(),
                before.wf(),
                before.role == RoleView::Leader(l),
                quorum == before.quorum(),
                last_index == before.log.last_index(),
                commit_index == before.log.commit_index,
                before.commit_target(l, index as nat) == before.commit_target(l, last_index as nat),
                self.state() == old(self).state(),
            decreases index,
        {
            if self.log.term_at(index) == self.term && count_at_least(&self.role.peer_last_index, index)
                + 1 >= quorum {
                assert(before.committable(l, index as nat));
                assert(before.commit_target(l, index as nat) == index);
                let committed = self.log.commit(index);
                assert(committed is Ok);
                return ;
            }
            index -= 1;
        }
        assert(before.log.commit(before.log.commit_index) == before.log);
    }

    /// Handles `event`, sent by peer `i` in the leader's own term.
    fn handle(&mut self, i: usize, event: Event)
        requires
            old(self).wf(),
            old(self)@.role is Leader,
            i < old(self)@.peers.len(),
        ensures
            final(self)@ == old(self)@.leader_handle(old(self)@.role->Leader_0, i as int, event@),
            final(self).state() == old(self).state(),
            final(self).fits(),
    {
        match event {
            Event::ConfirmLeader { commit_index: _, has_committed } => {
                if !has_committed {
                    self.replicate(i);
                }
            },
            Event::AcceptEntries { last_index } => {
                let (own_index, _) = self.log.get_last();
                if self.role.peer_last_index[i] < last_index && last_index <= own_index {
                    let ghost l = self@.role->Leader_0;
                    self.role.peer_last_index.set(i, last_index);
                    self.role.peer_next_index.set(i, last_index + 1);
                    proof {
                        let l2 = self@.role->Leader_0;
                        assert(l2.peer_last_index =~= l.peer_last_index.update(i as int, last_index as nat));
                        assert(l2.peer_next_index =~= l.peer_next_index.update(
                            i as int,
                            (last_index + 1) as nat,
                        ));
                    }
                    self.commit();
                }
            },
            Event::RejectEntries => {
                let next = self.role.peer_next_index[i];
                if next > self.role.peer_last_index[i] + 1 {
                    let ghost l = self@.role->Leader_0;
                    self.role.peer_next_index.set(i, next - 1);
                    proof {
                        let l2 = self@.role->Leader_0;
                        assert(l2.peer_next_index =~= l.peer_next_index.update(i as int, (next - 1) as nat));
                    }
                    self.replicate(i);
                }
            },
            _ => {},
        }
    }

    /// Processes a message. A follower that this step makes of the leader
    /// gets a random election timeout.
    pub fn step(self, msg: Message) -> (r: Result<Node<S>, Error>)
        requires
            self.wf(),
            self@.role is Leader,
            step_fits(self@, msg@),
        ensures
            exists|timeout: nat| valid_timeout(timeout) && step_result(self@, self.state(), msg@, timeout, r),
    {
        let timeout = election_timeout();
        self.step_with_timeout(msg, timeout)
    }

    /// Processes a message. A follower that this step makes of the leader
    /// gets the election timeout `timeout`.
    pub fn step_with_timeout(self, msg: Message, timeout: u64) -> (r: Result<Node<S>, Error>)
        requires
            self.wf(),
            self@.role is Leader,
            step_fits(self@, msg@),
            valid_timeout(timeout as nat),
        ensures
            step_result(self@, self.state(), msg@, timeout as nat, r),
    {
        let mut node = self;
        let mut msg = msg;
        proof {
            lemma_leader_step_wf(node@, msg@, timeout as nat);
        }
        if !node.normalize_message(&mut msg) {
            return Ok(Node::Leader(node));
        }
        let from = match &msg.from {
            Some(from) => from.clone(),
            None => {
                return Ok(Node::Leader(node));
            },
        };
        if msg.term > node.term {
            proof {
                lemma_adopt_wf(node@, msg.term as nat, from@, timeout as nat);
            }
            let follower = node.become_follower(&from, msg.term, timeout);
            return follower.step_with_timeout(msg, timeout);
        }
        match position_of(&node.peers, &from) {
            Some(i) => {
                node.handle(i, msg.event);
            },
            None => {},
        }
        Ok(Node::Leader(node))
    }

    /// Processes a tick of the logical clock: the committed entries that are
    /// pending are applied, and when the heartbeat is due every peer is sent
    /// a heartbeat and the entries that it lacks.
    pub fn tick(self) -> (r: Result<Node<S>, Error>)
        requires
            self.wf(),
            self@.role is Leader,
        ensures
            forall|timeout: nat| tick_result(self@, self.state(), timeout, r),
    {
        let mut node = self;
        proof {
            lemma_leader_tick_wf(node@);
        }
        match node.log.apply_all(&mut node.state) {
            Ok(_) => {},
            Err(e) => {
                return Err(e);
            },
        }
        node.role.heartbeat_ticks = node.role.heartbeat_ticks + 1;
        if node.role.heartbeat_ticks >= crate::model::HEARTBEAT_INTERVAL {
            node.role.heartbeat_ticks = 0;
            let (commit_index, commit_term) = node.log.get_committed();
            node.broadcast(Event::Heartbeat { commit_index, commit_term });
            node.replicate_all();
        }
        Ok(Node::Leader(node))
    }
}

} // verus!
