use raft_core::{Candidate, Entry, Error, Event, Log, Message, Node, RoleNode, State};

/// A state machine that records the commands it is handed and echoes them.
#[derive(Debug)]
struct TestState {
    commands: Vec<Vec<u8>>,
    applied_index: u64,
}

impl TestState {
    fn new() -> Self {
        Self { commands: Vec::new(), applied_index: 0 }
    }
}

impl State for TestState {
    fn mutate(&mut self, index: u64, command: Vec<u8>) -> Result<Vec<u8>, Error> {
        self.commands.push(command.clone());
        self.applied_index = index;
        Ok(command)
    }
}

fn peers() -> Vec<String> {
    vec!["b".into(), "c".into(), "d".into(), "e".into()]
}

fn setup() -> Result<RoleNode<Candidate, TestState>, Error> {
    let mut state = TestState::new();
    let mut log = Log::new();
    log.append(Entry { term: 1, command: Some(vec![0x01]) });
    log.append(Entry { term: 1, command: Some(vec![0x02]) });
    log.append(Entry { term: 2, command: Some(vec![0x03]) });
    log.commit(2)?;
    log.apply(&mut state)?;
    log.save_term(3, None);
    RoleNode::new("a".into(), peers(), log, state, Candidate::new())
}

#[test]
// Heartbeat for current term converts to follower and emits ConfirmLeader event
fn step_heartbeat_current_term() -> Result<(), Error> {
    let candidate = setup()?;
    let mut node = candidate.step(Message {
        from: Some("b".into()),
        to: Some("a".into()),
        term: 3,
        event: Event::Heartbeat { commit_index: 1, commit_term: 1 },
    })?;
    assert!(node.is_follower());
    assert_eq!(node.term(), 3);
    assert_eq!(
        node.take_outbox(),
        vec![Message {
            from: Some("a".into()),
            to: Some("b".into()),
            term: 3,
            event: Event::ConfirmLeader { commit_index: 1, has_committed: true },
        }],
    );
    Ok(())
}

#[test]
// Heartbeat for future term converts to follower and emits ConfirmLeader event
fn step_heartbeat_future_term() -> Result<(), Error> {
    let candidate = setup()?;
    let mut node = candidate.step(Message {
        from: Some("b".into()),
        to: Some("a".into()),
        term: 4,
        event: Event::Heartbeat { commit_index: 1, commit_term: 1 },
    })?;
    assert!(node.is_follower());
    assert_eq!(node.term(), 4);
    assert_eq!(
        node.take_outbox(),
        vec![Message {
            from: Some("a".into()),
            to: Some("b".into()),
            term: 4,
            event: Event::ConfirmLeader { commit_index: 1, has_committed: true },
        }],
    );
    Ok(())
}

#[test]
// Heartbeat for past term is ignored
fn step_heartbeat_past_term() -> Result<(), Error> {
    let candidate = setup()?;
    let mut node = candidate.step(Message {
        from: Some("b".into()),
        to: Some("a".into()),
        term: 2,
        event: Event::Heartbeat { commit_index: 1, commit_term: 1 },
    })?;
    assert!(node.is_candidate());
    assert_eq!(node.term(), 3);
    assert_eq!(node.take_outbox(), vec![]);
    Ok(())
}

#[test]
fn step_grantvote() -> Result<(), Error> {
    let candidate = setup()?;
    let peers = candidate.peers().clone();
    let mut node = Node::Candidate(candidate);

    // The first vote is not sufficient for a quorum (3 votes including self)
    node = node.step(Message {
        from: Some("c".into()),
        to: Some("a".into()),
        term: 3,
        event: Event::GrantVote,
    })?;
    assert!(node.is_candidate());
    assert_eq!(node.term(), 3);
    assert_eq!(node.take_outbox(), vec![]);

    // However, the second external vote makes us leader
    node = node.step(Message {
        from: Some("e".into()),
        to: Some("a".into()),
        term: 3,
        event: Event::GrantVote,
    })?;
    assert!(node.is_leader());
    assert_eq!(node.term(), 3);

    let mut sent = node.take_outbox().into_iter();

    for to in peers.iter().cloned() {
        assert_eq!(
            sent.next(),
            Some(Message {
                from: Some("a".into()),
                to: Some(to),
                term: 3,
                event: Event::Heartbeat { commit_index: 2, commit_term: 1 },
            })
        )
    }

    for to in peers.iter().cloned() {
        assert_eq!(
            sent.next(),
            Some(Message {
                from: Some("a".into()),
                to: Some(to),
                term: 3,
                event: Event::ReplicateEntries {
                    base_index: 3,
                    base_term: 2,
                    entries: vec![Entry { term: 3, command: None }],
                },
            })
        )
    }

    assert_eq!(sent.next(), None);
    Ok(())
}

#[test]
fn tick() -> Result<(), Error> {
    let candidate = setup()?;
    let timeout = candidate.role().election_timeout();
    let peers = candidate.peers().clone();
    let mut node = Node::Candidate(candidate);

    assert!(timeout > 0);
    for i in 0..timeout {
        assert!(node.is_candidate());
        assert_eq!(node.term(), 3);
        assert_eq!(node.log().get_applied().0, if i > 0 { 2 } else { 1 });
        node = node.tick()?;
    }
    assert!(node.is_candidate());
    assert_eq!(node.term(), 4);

    let mut sent = node.take_outbox().into_iter();
    for to in peers.into_iter() {
        assert_eq!(
            sent.next(),
            Some(Message {
                from: Some("a".into()),
                to: Some(to),
                term: 4,
                event: Event::SolicitVote { last_index: 3, last_term: 2 },
            })
        )
    }
    Ok(())
}

#[test]
// A SolicitVote of a greater term makes the candidate a follower of that term,
// which then votes for the sender.
fn step_solicitvote_future_term() -> Result<(), Error> {
    let candidate = setup()?;
    let mut node = candidate.step(Message {
        from: Some("d".into()),
        to: Some("a".into()),
        term: 5,
        event: Event::SolicitVote { last_index: 3, last_term: 2 },
    })?;
    assert!(node.is_follower());
    assert_eq!(node.term(), 5);
    assert_eq!(node.log().load_term(), (5, Some("d".to_string())));
    assert_eq!(
        node.take_outbox(),
        vec![Message {
            from: Some("a".into()),
            to: Some("d".into()),
            term: 5,
            event: Event::GrantVote,
        }],
    );
    Ok(())
}
