use raft_core::{Entry, Error, Event, Log, Message, Node, State};
use std::collections::VecDeque;

#[derive(Debug)]
struct Recorder {
    commands: Vec<Vec<u8>>,
}

impl State for Recorder {
    fn mutate(&mut self, _index: u64, command: Vec<u8>) -> Result<Vec<u8>, Error> {
        self.commands.push(command.clone());
        Ok(command)
    }
}

/// Three nodes and the messages between them. A node that is cut off neither
/// ticks nor receives anything.
struct Cluster {
    names: Vec<String>,
    nodes: Vec<Option<Node<Recorder>>>,
    timeouts: Vec<u64>,
    network: VecDeque<Message>,
    cut: Vec<bool>,
    /// What leaders have committed of their own term: the term and the log
    /// up to the commit index.
    committed: Vec<(u64, Vec<Entry>)>,
}

impl Cluster {
    fn new() -> Self {
        let names: Vec<String> = vec!["a".into(), "b".into(), "c".into()];
        let timeouts = vec![8, 10, 12];
        let mut nodes = Vec::new();
        for (i, name) in names.iter().enumerate() {
            let peers: Vec<String> = names.iter().filter(|n| *n != name).cloned().collect();
            let node = Node::with_timeout(
                name.clone(),
                peers,
                Log::new(),
                Recorder { commands: vec![] },
                timeouts[i],
            )
            .unwrap();
            nodes.push(Some(node));
        }
        Cluster { names, nodes, timeouts, network: VecDeque::new(), cut: vec![false; 3], committed: vec![] }
    }

    fn index(&self, name: &str) -> usize {
        self.names.iter().position(|n| n == name).unwrap()
    }

    fn node(&self, i: usize) -> &Node<Recorder> {
        self.nodes[i].as_ref().unwrap()
    }

    fn settle(&mut self, i: usize, mut node: Node<Recorder>) {
        for msg in node.take_outbox() {
            self.network.push_back(msg);
        }
        self.nodes[i] = Some(node);
        self.check();
    }

    fn tick(&mut self, i: usize) {
        if self.cut[i] {
            return;
        }
        let node = self.nodes[i].take().unwrap();
        let node = node.tick_with_timeout(self.timeouts[i]).unwrap();
        self.settle(i, node);
    }

    fn tick_all(&mut self) {
        for i in 0..3 {
            self.tick(i);
        }
    }

    fn deliver_all(&mut self) {
        let mut budget = 1000;
        while let Some(msg) = self.network.pop_front() {
            budget -= 1;
            assert!(budget > 0, "the cluster does not settle");
            let to = self.index(msg.to.as_ref().unwrap());
            let from = self.index(msg.from.as_ref().unwrap());
            if self.cut[to] || self.cut[from] {
                continue;
            }
            let node = self.nodes[to].take().unwrap();
            let node = node.step_with_timeout(msg, self.timeouts[to]).unwrap();
            self.settle(to, node);
        }
    }

    fn propose(&mut self, i: usize, command: Vec<u8>) -> u64 {
        let node = self.nodes[i].take().unwrap();
        match node {
            Node::Leader(mut leader) => {
                let index = leader.append(Some(command));
                self.settle(i, Node::Leader(leader));
                index
            }
            _ => panic!("not a leader"),
        }
    }

    fn leader(&self) -> Option<usize> {
        let mut best: Option<usize> = None;
        for i in 0..3 {
            if !self.cut[i] && self.node(i).is_leader() {
                if best.map_or(true, |b| self.node(b).term() < self.node(i).term()) {
                    best = Some(i);
                }
            }
        }
        best
    }

    /// What holds after every action.
    fn check(&mut self) {
        let logs: Vec<Vec<Entry>> =
            (0..3).map(|i| self.nodes[i].as_ref().map_or(vec![], |n| n.log().scan(1))).collect();
        for i in 0..3 {
            if self.nodes[i].is_none() {
                continue;
            }
            for j in 0..3 {
                if i == j || self.nodes[j].is_none() {
                    continue;
                }
                // At most one leader per term.
                if self.node(i).is_leader() && self.node(j).is_leader() {
                    assert_ne!(self.node(i).term(), self.node(j).term());
                }
                // Logs that hold an entry of the same term at the same index
                // are the same up to that entry.
                let shared = logs[i].len().min(logs[j].len());
                for k in 0..shared {
                    if logs[i][k].term == logs[j][k].term {
                        assert_eq!(logs[i][..=k], logs[j][..=k]);
                    }
                }
            }
            let (commit_index, commit_term) = self.node(i).log().get_committed();
            let (apply_index, _) = self.node(i).log().get_applied();
            let (last_index, _) = self.node(i).log().get_last();
            let node_term = self.node(i).term();
            assert!(apply_index <= commit_index && commit_index <= last_index);
            if self.node(i).is_leader() {
                if commit_index > 0 && commit_term == node_term {
                    self.committed.push((node_term, logs[i][..commit_index as usize].to_vec()));
                }
                // What an earlier leader committed is in this leader's log.
                for (term, entries) in self.committed.iter() {
                    if *term < node_term {
                        assert!(entries.len() <= logs[i].len());
                        assert_eq!(logs[i][..entries.len()], entries[..]);
                    }
                }
            }
        }
    }

    fn run(&mut self, rounds: usize) {
        for _ in 0..rounds {
            self.tick_all();
            self.deliver_all();
        }
    }
}

#[test]
fn cluster_elects_one_leader() {
    let mut cluster = Cluster::new();
    cluster.run(7);
    assert_eq!(cluster.leader(), None);
    assert!((0..3).all(|i| cluster.node(i).is_follower() && cluster.node(i).term() == 0));
    cluster.run(1);
    // The node with the shortest timeout campaigns and wins term 1.
    assert_eq!(cluster.leader(), Some(0));
    assert_eq!(cluster.node(0).term(), 1);
    assert!(cluster.node(1).is_follower() && cluster.node(2).is_follower());
    assert_eq!(cluster.node(1).log().load_term(), (1, Some("a".to_string())));
    assert_eq!(cluster.node(2).log().load_term(), (1, Some("a".to_string())));
    // The leader's heartbeats keep the others from campaigning.
    cluster.run(40);
    assert_eq!(cluster.leader(), Some(0));
    assert!((0..3).all(|i| cluster.node(i).term() == 1));
}

#[test]
fn cluster_replicates_and_commits() {
    let mut cluster = Cluster::new();
    cluster.run(9);
    let leader = cluster.leader().unwrap();
    // The no-op entry of the new leader is entry 1.
    assert_eq!(cluster.propose(leader, vec![0x0a]), 2);
    assert_eq!(cluster.propose(leader, vec![0x0b]), 3);
    cluster.deliver_all();
    assert_eq!(cluster.node(leader).log().get_committed(), (3, 1));
    cluster.run(2);
    for i in 0..3 {
        assert_eq!(cluster.node(i).log().get_last(), (3, 1));
        assert_eq!(cluster.node(i).log().get_committed(), (3, 1));
        assert_eq!(cluster.node(i).log().get_applied(), (3, 1));
        assert_eq!(cluster.node(i).state_machine().commands, vec![vec![0x0a], vec![0x0b]]);
    }
}

#[test]
fn cluster_keeps_what_was_committed_across_leaders() {
    let mut cluster = Cluster::new();
    cluster.run(9);
    assert_eq!(cluster.leader(), Some(0));
    cluster.propose(0, vec![0x0a]);
    cluster.run(2);
    assert_eq!(cluster.node(1).log().get_committed(), (2, 1));

    // The leader is cut off and appends what it cannot replicate.
    cluster.cut[0] = true;
    cluster.propose(0, vec![0xff]);
    assert_eq!(cluster.node(0).log().get_last(), (3, 1));
    cluster.network.clear();

    // The others elect a leader of a later term, which holds what was committed.
    cluster.run(12);
    let leader = cluster.leader().unwrap();
    assert_eq!(leader, 1);
    assert_eq!(cluster.node(1).term(), 2);
    assert_eq!(cluster.node(1).log().get(2), Some(Entry { term: 1, command: Some(vec![0x0a]) }));
    assert_eq!(cluster.node(1).log().get(3), Some(Entry { term: 2, command: None }));
    cluster.propose(1, vec![0x0c]);
    cluster.run(2);
    assert_eq!(cluster.node(2).log().get_committed(), (4, 2));

    // The old leader comes back, follows, and gives up what it could not replicate.
    cluster.cut[0] = false;
    cluster.run(3);
    assert!(cluster.node(0).is_follower());
    assert_eq!(cluster.node(0).term(), 2);
    assert_eq!(cluster.node(0).log().scan(1), cluster.node(1).log().scan(1));
    assert_eq!(cluster.node(0).log().get_committed(), (4, 2));
    assert_eq!(
        cluster.node(0).state_machine().commands,
        vec![vec![0x0a], vec![0x0c]]
    );
}

#[test]
fn cluster_term_and_commit_never_move_back() {
    let mut cluster = Cluster::new();
    let mut terms = vec![0u64; 3];
    let mut commits = vec![0u64; 3];
    for round in 0..60 {
        if round == 20 {
            cluster.cut[0] = true;
        }
        if round == 45 {
            cluster.cut[0] = false;
        }
        if let Some(leader) = cluster.leader() {
            cluster.propose(leader, vec![round as u8]);
        }
        cluster.run(1);
        for i in 0..3 {
            assert!(cluster.node(i).term() >= terms[i]);
            assert!(cluster.node(i).log().get_committed().0 >= commits[i]);
            terms[i] = cluster.node(i).term();
            commits[i] = cluster.node(i).log().get_committed().0;
        }
    }
    assert!(commits.iter().all(|c| *c > 10));
}

#[test]
fn message_kinds_between_nodes() {
    let mut cluster = Cluster::new();
    for _ in 0..8 {
        cluster.tick_all();
    }
    let kinds: Vec<bool> =
        cluster.network.iter().map(|m| matches!(m.event, Event::SolicitVote { .. })).collect();
    assert_eq!(kinds, vec![true, true]);
}
