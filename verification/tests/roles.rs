use raft_core::{
    Candidate, Entry, Error, Event, Follower, Log, Message, Node, RoleNode, State,
    ELECTION_TIMEOUT_MAX, ELECTION_TIMEOUT_MIN, HEARTBEAT_INTERVAL,
};

#[derive(Debug)]
struct Recorder {
    commands: Vec<Vec<u8>>,
}

impl State for Recorder {
    fn mutate(&mut self, _index: u64, command: Vec<u8>) -> Result<Vec<u8>, Error> {
        self.commands.push(command.clone());
        Ok(command)
    }
}

#[derive(Debug)]
struct Failing;

impl State for Failing {
    fn mutate(&mut self, _index: u64, _command: Vec<u8>) -> Result<Vec<u8>, Error> {
        Err(Error::Internal("state machine failed".into()))
    }
}

fn names(list: &[&str]) -> Vec<String> {
    list.iter().map(|s| s.to_string()).collect()
}

fn entry(term: u64, byte: u8) -> Entry {
    Entry { term, command: Some(vec![byte]) }
}

fn base_log(term: u64, voted_for: Option<&str>) -> Log {
    let mut log = Log::new();
    log.append(entry(1, 0x01));
    log.append(entry(1, 0x02));
    log.append(entry(2, 0x03));
    log.commit(2).unwrap();
    log.save_term(term, voted_for.map(|s| s.to_string()));
    log
}

fn msg(from: &str, to: &str, term: u64, event: Event) -> Message {
    Message { from: Some(from.into()), to: Some(to.into()), term, event }
}

fn follower(term: u64, voted_for: Option<&str>) -> Node<Recorder> {
    Node::with_timeout(
        "a".into(),
        names(&["b", "c", "d", "e"]),
        base_log(term, voted_for),
        Recorder { commands: vec![] },
        ELECTION_TIMEOUT_MIN,
    )
    .unwrap()
}

fn candidate() -> RoleNode<Candidate, Recorder> {
    RoleNode::new(
        "a".into(),
        names(&["b", "c", "d", "e"]),
        base_log(3, Some("a")),
        Recorder { commands: vec![] },
        Candidate::with_timeout(ELECTION_TIMEOUT_MIN),
    )
    .unwrap()
}

fn leader() -> Node<Recorder> {
    let mut node = Node::Candidate(candidate());
    node = node.step(msg("b", "a", 3, Event::GrantVote)).unwrap();
    node = node.step(msg("c", "a", 3, Event::GrantVote)).unwrap();
    assert!(node.is_leader());
    node.take_outbox();
    node
}

#[test]
fn constants_are_ordered() {
    assert!(HEARTBEAT_INTERVAL < ELECTION_TIMEOUT_MIN);
    assert!(ELECTION_TIMEOUT_MIN <= ELECTION_TIMEOUT_MAX);
    assert_eq!((HEARTBEAT_INTERVAL, ELECTION_TIMEOUT_MIN, ELECTION_TIMEOUT_MAX), (1, 8, 15));
}

#[test]
fn random_timeouts_stay_in_range_and_vary() {
    let mut seen_other_than_min = false;
    for _ in 0..300 {
        let t = Candidate::new().election_timeout();
        assert!(ELECTION_TIMEOUT_MIN <= t && t < ELECTION_TIMEOUT_MAX);
        if t != ELECTION_TIMEOUT_MIN {
            seen_other_than_min = true;
        }
        let f = Follower::new(None, None).election_timeout();
        assert!(ELECTION_TIMEOUT_MIN <= f && f < ELECTION_TIMEOUT_MAX);
    }
    assert!(seen_other_than_min);
}

#[test]
fn new_node_is_follower_at_stored_term() {
    let node = follower(7, Some("c"));
    assert!(node.is_follower());
    assert_eq!(node.term(), 7);
    assert_eq!(node.id(), "a");
    assert_eq!(node.log().load_term(), (7, Some("c".to_string())));
    assert_eq!(node.outbox(), &vec![]);
}

#[test]
fn new_node_refuses_invalid_cluster() {
    let refused = Error::Config(
        "peers must be distinct, at least one, and must not include the node itself".into(),
    );
    let made = Node::new("a".into(), vec![], Log::new(), Recorder { commands: vec![] });
    assert_eq!(made.err(), Some(refused.clone()));
    let made = Node::new("a".into(), names(&["b", "a"]), Log::new(), Recorder { commands: vec![] });
    assert_eq!(made.err(), Some(refused.clone()));
    let made = Node::new("a".into(), names(&["b", "c", "b"]), Log::new(), Recorder { commands: vec![] });
    assert_eq!(made.err(), Some(refused.clone()));
    let made = Node::new("a".into(), names(&["b"]), Log::new(), Recorder { commands: vec![] });
    assert!(made.is_ok());
}

#[test]
fn quorum_is_a_strict_majority() {
    for (peers, quorum) in [(1usize, 2u64), (2, 2), (3, 3), (4, 3), (5, 4), (6, 4)] {
        let list: Vec<String> = (0..peers).map(|i| format!("p{}", i)).collect();
        let node = RoleNode::new(
            "a".into(),
            list,
            Log::new(),
            Recorder { commands: vec![] },
            Candidate::with_timeout(ELECTION_TIMEOUT_MIN),
        )
        .unwrap();
        assert_eq!(node.quorum(), quorum);
    }
}

#[test]
fn stale_message_is_dropped_in_every_role() {
    for mut node in [follower(3, None), Node::Candidate(candidate()), leader()] {
        let was_leader = node.is_leader();
        let was_candidate = node.is_candidate();
        node = node.step(msg("b", "a", 2, Event::GrantVote)).unwrap();
        node = node
            .step(msg("b", "a", 2, Event::Heartbeat { commit_index: 3, commit_term: 2 }))
            .unwrap();
        assert_eq!(node.is_leader(), was_leader);
        assert_eq!(node.is_candidate(), was_candidate);
        assert_eq!(node.term(), 3);
        assert_eq!(node.log().get_committed(), (2, 1));
        assert_eq!(node.take_outbox(), vec![]);
    }
}

#[test]
fn message_for_another_node_is_dropped() {
    let mut node = Node::Candidate(candidate());
    node = node.step(msg("b", "c", 9, Event::Heartbeat { commit_index: 1, commit_term: 1 })).unwrap();
    assert!(node.is_candidate());
    assert_eq!(node.term(), 3);
    assert_eq!(node.take_outbox(), vec![]);
}

#[test]
fn message_without_recipient_is_taken_in() {
    let node = candidate();
    let mut node = node
        .step(Message {
            from: Some("b".into()),
            to: None,
            term: 3,
            event: Event::Heartbeat { commit_index: 0, commit_term: 0 },
        })
        .unwrap();
    assert!(node.is_follower());
    assert_eq!(
        node.take_outbox(),
        vec![msg("a", "b", 3, Event::ConfirmLeader { commit_index: 0, has_committed: true })]
    );
}

#[test]
fn candidate_keeps_its_vote_on_heartbeat_of_own_term() {
    let node = candidate();
    let node = node
        .step(msg("b", "a", 3, Event::Heartbeat { commit_index: 1, commit_term: 1 }))
        .unwrap();
    assert!(node.is_follower());
    assert_eq!(node.term(), 3);
    assert_eq!(node.log().load_term(), (3, Some("a".to_string())));
    // Having voted for itself, the follower grants no vote to another in this term.
    let mut node = node
        .step(msg("d", "a", 3, Event::SolicitVote { last_index: 9, last_term: 9 }))
        .unwrap();
    assert_eq!(node.log().load_term(), (3, Some("a".to_string())));
    assert_eq!(
        node.take_outbox(),
        vec![msg("a", "b", 3, Event::ConfirmLeader { commit_index: 1, has_committed: true })]
    );
}

#[test]
fn candidate_ignores_other_events() {
    let events = vec![
        Event::ConfirmLeader { commit_index: 1, has_committed: true },
        Event::SolicitVote { last_index: 9, last_term: 9 },
        Event::ReplicateEntries { base_index: 3, base_term: 2, entries: vec![entry(3, 1)] },
        Event::AcceptEntries { last_index: 3 },
        Event::RejectEntries,
        Event::QueryState { id: vec![1], command: vec![2] },
        Event::MutateState { id: vec![1], command: vec![2] },
        Event::RespondState { id: vec![1], response: vec![2] },
        Event::RespondError { id: vec![1], error: "no leader".into() },
    ];
    let mut node = Node::Candidate(candidate());
    for event in events {
        node = node.step(msg("b", "a", 3, event)).unwrap();
        assert!(node.is_candidate());
        assert_eq!(node.term(), 3);
        assert_eq!(node.log().get_last(), (3, 2));
        assert_eq!(node.take_outbox(), vec![]);
    }
}

#[test]
fn candidate_times_out_exactly_at_its_timeout() {
    let mut node = Node::Candidate(candidate());
    for _ in 0..ELECTION_TIMEOUT_MIN - 1 {
        node = node.tick_with_timeout(ELECTION_TIMEOUT_MIN + 1).unwrap();
        assert_eq!(node.term(), 3);
        assert_eq!(node.outbox().len(), 0);
    }
    node = node.tick_with_timeout(ELECTION_TIMEOUT_MIN + 1).unwrap();
    assert!(node.is_candidate());
    assert_eq!(node.term(), 4);
    assert_eq!(node.log().load_term(), (4, Some("a".to_string())));
    assert_eq!(
        node.take_outbox(),
        vec![
            msg("a", "b", 4, Event::SolicitVote { last_index: 3, last_term: 2 }),
            msg("a", "c", 4, Event::SolicitVote { last_index: 3, last_term: 2 }),
            msg("a", "d", 4, Event::SolicitVote { last_index: 3, last_term: 2 }),
            msg("a", "e", 4, Event::SolicitVote { last_index: 3, last_term: 2 }),
        ]
    );
    // The new election runs with the timeout that it was given.
    for _ in 0..ELECTION_TIMEOUT_MIN {
        node = node.tick_with_timeout(ELECTION_TIMEOUT_MIN).unwrap();
        assert_eq!(node.term(), 4);
    }
    node = node.tick_with_timeout(ELECTION_TIMEOUT_MIN).unwrap();
    assert_eq!(node.term(), 5);
}

#[test]
fn tick_fails_where_the_state_machine_fails() {
    let node = RoleNode::new(
        "a".into(),
        names(&["b", "c"]),
        base_log(3, None),
        Failing,
        Candidate::with_timeout(ELECTION_TIMEOUT_MIN),
    )
    .unwrap();
    assert_eq!(node.tick().err(), Some(Error::Internal("state machine failed".into())));
}

#[test]
fn term_never_decreases() {
    let mut node = follower(3, None);
    let mut term = node.term();
    let terms = [3u64, 5, 4, 5, 2, 9, 1];
    for (i, t) in terms.iter().enumerate() {
        let event = if i % 2 == 0 {
            Event::Heartbeat { commit_index: 0, commit_term: 0 }
        } else {
            Event::SolicitVote { last_index: 0, last_term: 0 }
        };
        node = node.step(msg("b", "a", *t, event)).unwrap();
        assert!(node.term() >= term);
        term = node.term();
        node = node.tick().unwrap();
        assert!(node.term() >= term);
        term = node.term();
    }
    assert!(term >= 9);
}

#[test]
fn follower_answers_heartbeat_and_commits() {
    let node = follower(3, None);
    let mut node = node
        .step(msg("b", "a", 3, Event::Heartbeat { commit_index: 3, commit_term: 2 }))
        .unwrap();
    assert!(node.is_follower());
    assert_eq!(node.log().get_committed(), (3, 2));
    assert_eq!(node.log().get_applied(), (3, 2));
    assert_eq!(node.state_machine().commands, vec![vec![0x01], vec![0x02], vec![0x03]]);
    assert_eq!(
        node.take_outbox(),
        vec![msg("a", "b", 3, Event::ConfirmLeader { commit_index: 3, has_committed: true })]
    );
}

#[test]
fn follower_does_not_commit_what_it_lacks() {
    let node = follower(3, None);
    let mut node = node
        .step(msg("b", "a", 3, Event::Heartbeat { commit_index: 3, commit_term: 3 }))
        .unwrap();
    assert_eq!(node.log().get_committed(), (2, 1));
    assert_eq!(
        node.take_outbox(),
        vec![msg("a", "b", 3, Event::ConfirmLeader { commit_index: 3, has_committed: false })]
    );
    let mut node = node
        .step(msg("b", "a", 3, Event::Heartbeat { commit_index: 7, commit_term: 3 }))
        .unwrap();
    assert_eq!(node.log().get_committed(), (2, 1));
    assert_eq!(
        node.take_outbox(),
        vec![msg("a", "b", 3, Event::ConfirmLeader { commit_index: 7, has_committed: false })]
    );
}

#[test]
fn follower_commit_index_never_moves_back() {
    let node = follower(3, None);
    let node = node
        .step(msg("b", "a", 3, Event::Heartbeat { commit_index: 1, commit_term: 1 }))
        .unwrap();
    assert_eq!(node.log().get_committed(), (2, 1));
    assert_eq!(node.log().get_applied(), (2, 1));
}

#[test]
fn follower_heartbeat_fails_where_the_state_machine_fails() {
    let node = Node::with_timeout(
        "a".into(),
        names(&["b", "c"]),
        base_log(3, None),
        Failing,
        ELECTION_TIMEOUT_MIN,
    )
    .unwrap();
    let r = node.step(msg("b", "a", 3, Event::Heartbeat { commit_index: 0, commit_term: 0 }));
    assert_eq!(r.err(), Some(Error::Internal("state machine failed".into())));
}

#[test]
fn follower_grants_one_vote_per_term() {
    let node = follower(3, None);
    let mut node = node
        .step(msg("d", "a", 3, Event::SolicitVote { last_index: 3, last_term: 2 }))
        .unwrap();
    assert_eq!(node.log().load_term(), (3, Some("d".to_string())));
    assert_eq!(node.take_outbox(), vec![msg("a", "d", 3, Event::GrantVote)]);
    // Another candidate of the same term gets nothing.
    let mut node = node
        .step(msg("e", "a", 3, Event::SolicitVote { last_index: 9, last_term: 9 }))
        .unwrap();
    assert_eq!(node.log().load_term(), (3, Some("d".to_string())));
    assert_eq!(node.take_outbox(), vec![]);
    // A later term frees the vote.
    let mut node = node
        .step(msg("e", "a", 4, Event::SolicitVote { last_index: 9, last_term: 9 }))
        .unwrap();
    assert_eq!(node.term(), 4);
    assert_eq!(node.log().load_term(), (4, Some("e".to_string())));
    assert_eq!(node.take_outbox(), vec![msg("a", "e", 4, Event::GrantVote)]);
}

#[test]
fn follower_votes_only_for_an_up_to_date_log() {
    // Own log ends at (index 3, term 2).
    for (last_index, last_term, granted) in
        [(3u64, 2u64, true), (2, 2, false), (9, 1, false), (1, 3, true), (4, 2, true)]
    {
        let node = follower(3, None);
        let mut node = node
            .step(msg("d", "a", 3, Event::SolicitVote { last_index, last_term }))
            .unwrap();
        if granted {
            assert_eq!(node.take_outbox(), vec![msg("a", "d", 3, Event::GrantVote)]);
            assert_eq!(node.log().load_term(), (3, Some("d".to_string())));
        } else {
            assert_eq!(node.take_outbox(), vec![]);
            assert_eq!(node.log().load_term(), (3, None));
        }
    }
}

#[test]
fn follower_accepts_entries_that_fit() {
    let node = follower(3, None);
    let mut node = node
        .step(msg(
            "b",
            "a",
            3,
            Event::ReplicateEntries {
                base_index: 3,
                base_term: 2,
                entries: vec![entry(3, 0x04), entry(3, 0x05)],
            },
        ))
        .unwrap();
    assert_eq!(node.log().get_last(), (5, 3));
    assert_eq!(node.take_outbox(), vec![msg("a", "b", 3, Event::AcceptEntries { last_index: 5 })]);
}

#[test]
fn follower_rejects_entries_on_a_base_it_lacks() {
    for (base_index, base_term) in [(3u64, 3u64), (4, 2), (9, 9)] {
        let node = follower(3, None);
        let mut node = node
            .step(msg(
                "b",
                "a",
                3,
                Event::ReplicateEntries { base_index, base_term, entries: vec![entry(3, 0x04)] },
            ))
            .unwrap();
        assert_eq!(node.log().get_last(), (3, 2));
        assert_eq!(node.take_outbox(), vec![msg("a", "b", 3, Event::RejectEntries)]);
    }
}

#[test]
fn follower_replaces_an_uncommitted_conflict() {
    let node = follower(3, None);
    let mut node = node
        .step(msg(
            "b",
            "a",
            3,
            Event::ReplicateEntries { base_index: 2, base_term: 1, entries: vec![entry(3, 0x09)] },
        ))
        .unwrap();
    assert_eq!(node.log().get_last(), (3, 3));
    assert_eq!(node.log().get(3), Some(entry(3, 0x09)));
    assert_eq!(node.take_outbox(), vec![msg("a", "b", 3, Event::AcceptEntries { last_index: 3 })]);
}

#[test]
fn follower_fails_on_a_committed_conflict() {
    let node = follower(3, None);
    let r = node.step(msg(
        "b",
        "a",
        3,
        Event::ReplicateEntries { base_index: 1, base_term: 1, entries: vec![entry(3, 0x09)] },
    ));
    assert_eq!(r.err(), Some(Error::Internal("cannot replace a committed log entry".into())));
}

#[test]
fn follower_campaigns_when_its_leader_is_silent() {
    let mut node = follower(3, None);
    for _ in 0..ELECTION_TIMEOUT_MIN - 1 {
        node = node.tick().unwrap();
        assert!(node.is_follower());
        assert_eq!(node.term(), 3);
    }
    node = node.tick().unwrap();
    assert!(node.is_candidate());
    assert_eq!(node.term(), 4);
    assert_eq!(node.log().load_term(), (4, Some("a".to_string())));
    assert_eq!(
        node.take_outbox(),
        vec![
            msg("a", "b", 4, Event::SolicitVote { last_index: 3, last_term: 2 }),
            msg("a", "c", 4, Event::SolicitVote { last_index: 3, last_term: 2 }),
            msg("a", "d", 4, Event::SolicitVote { last_index: 3, last_term: 2 }),
            msg("a", "e", 4, Event::SolicitVote { last_index: 3, last_term: 2 }),
        ]
    );
}

#[test]
fn follower_heartbeat_resets_its_timer() {
    let mut node = follower(3, None);
    for _ in 0..ELECTION_TIMEOUT_MIN - 1 {
        node = node.tick().unwrap();
    }
    node = node.step(msg("b", "a", 3, Event::Heartbeat { commit_index: 0, commit_term: 0 })).unwrap();
    for _ in 0..ELECTION_TIMEOUT_MIN - 1 {
        node = node.tick().unwrap();
        assert!(node.is_follower());
    }
    node = node.tick().unwrap();
    assert!(node.is_candidate());
}

#[test]
fn leader_commits_what_a_quorum_holds() {
    let mut node = leader();
    assert_eq!(node.log().get_last(), (4, 3));
    assert_eq!(node.log().get_committed(), (2, 1));
    node = node.step(msg("b", "a", 3, Event::AcceptEntries { last_index: 4 })).unwrap();
    assert_eq!(node.log().get_committed(), (2, 1));
    // The same peer again adds nothing.
    node = node.step(msg("b", "a", 3, Event::AcceptEntries { last_index: 4 })).unwrap();
    assert_eq!(node.log().get_committed(), (2, 1));
    node = node.step(msg("c", "a", 3, Event::AcceptEntries { last_index: 4 })).unwrap();
    assert_eq!(node.log().get_committed(), (4, 3));
    assert_eq!(node.take_outbox(), vec![]);
}

#[test]
fn leader_commits_only_entries_of_its_own_term() {
    let mut node = leader();
    node = node.step(msg("b", "a", 3, Event::AcceptEntries { last_index: 3 })).unwrap();
    node = node.step(msg("c", "a", 3, Event::AcceptEntries { last_index: 3 })).unwrap();
    // Entry 3 is of term 2: a quorum holds it, but the leader of term 3 does not commit it.
    assert_eq!(node.log().get_committed(), (2, 1));
    node = node.step(msg("d", "a", 3, Event::AcceptEntries { last_index: 9 })).unwrap();
    assert_eq!(node.log().get_committed(), (2, 1));
}

#[test]
fn leader_steps_back_on_reject() {
    let mut node = leader();
    node = node.step(msg("d", "a", 3, Event::RejectEntries)).unwrap();
    assert_eq!(
        node.take_outbox(),
        vec![msg(
            "a",
            "d",
            3,
            Event::ReplicateEntries {
                base_index: 2,
                base_term: 1,
                entries: vec![entry(2, 0x03), Entry { term: 3, command: None }],
            },
        )]
    );
    node = node.step(msg("d", "a", 3, Event::RejectEntries)).unwrap();
    node = node.step(msg("d", "a", 3, Event::RejectEntries)).unwrap();
    let sent = node.take_outbox();
    assert_eq!(sent.len(), 2);
    assert_eq!(
        sent[1],
        msg(
            "a",
            "d",
            3,
            Event::ReplicateEntries {
                base_index: 0,
                base_term: 0,
                entries: vec![
                    entry(1, 0x01),
                    entry(1, 0x02),
                    entry(2, 0x03),
                    Entry { term: 3, command: None }
                ],
            },
        )
    );
    // There is nothing before the first entry to step back to.
    node = node.step(msg("d", "a", 3, Event::RejectEntries)).unwrap();
    assert_eq!(node.take_outbox(), vec![]);
}

#[test]
fn leader_resends_to_a_follower_that_lacks_the_commit() {
    let mut node = leader();
    node = node
        .step(msg("e", "a", 3, Event::ConfirmLeader { commit_index: 2, has_committed: true }))
        .unwrap();
    assert_eq!(node.take_outbox(), vec![]);
    node = node
        .step(msg("e", "a", 3, Event::ConfirmLeader { commit_index: 2, has_committed: false }))
        .unwrap();
    assert_eq!(
        node.take_outbox(),
        vec![msg(
            "a",
            "e",
            3,
            Event::ReplicateEntries {
                base_index: 3,
                base_term: 2,
                entries: vec![Entry { term: 3, command: None }],
            },
        )]
    );
}

#[test]
fn leader_ignores_strangers() {
    let mut node = leader();
    node = node.step(msg("z", "a", 3, Event::AcceptEntries { last_index: 4 })).unwrap();
    node = node.step(msg("z", "a", 3, Event::RejectEntries)).unwrap();
    assert_eq!(node.log().get_committed(), (2, 1));
    assert_eq!(node.take_outbox(), vec![]);
}

#[test]
fn leader_tick_applies_and_sends_heartbeat() {
    let mut node = leader();
    node = node.tick().unwrap();
    assert!(node.is_leader());
    assert_eq!(node.log().get_applied(), (2, 1));
    let sent = node.take_outbox();
    assert_eq!(sent.len(), 8);
    for (i, to) in ["b", "c", "d", "e"].iter().enumerate() {
        assert_eq!(sent[i], msg("a", to, 3, Event::Heartbeat { commit_index: 2, commit_term: 1 }));
        assert_eq!(
            sent[4 + i],
            msg(
                "a",
                to,
                3,
                Event::ReplicateEntries {
                    base_index: 3,
                    base_term: 2,
                    entries: vec![Entry { term: 3, command: None }],
                },
            )
        );
    }
}

#[test]
fn leader_follows_a_greater_term() {
    let node = leader();
    let mut node = node
        .step(msg("c", "a", 4, Event::Heartbeat { commit_index: 2, commit_term: 1 }))
        .unwrap();
    assert!(node.is_follower());
    assert_eq!(node.term(), 4);
    assert_eq!(node.log().load_term(), (4, None));
    assert_eq!(
        node.take_outbox(),
        vec![msg("a", "c", 4, Event::ConfirmLeader { commit_index: 2, has_committed: true })]
    );
}

#[test]
fn leader_append_replicates() {
    let node = leader();
    if let Node::Leader(mut l) = node {
        assert_eq!(l.append(Some(vec![0x07])), 5);
        let sent = l.take_outbox();
        assert_eq!(sent.len(), 4);
        assert_eq!(
            sent[0],
            msg(
                "a",
                "b",
                3,
                Event::ReplicateEntries {
                    base_index: 3,
                    base_term: 2,
                    entries: vec![Entry { term: 3, command: None }, entry(3, 0x07)],
                },
            )
        );
    } else {
        panic!("not a leader");
    }
}

#[test]
fn messages_clone_equal() {
    let m = msg(
        "a",
        "b",
        3,
        Event::ReplicateEntries { base_index: 1, base_term: 1, entries: vec![entry(2, 1)] },
    );
    assert_eq!(m.clone(), m);
    let e = Event::RespondError { id: vec![1], error: "x".into() };
    assert_eq!(e.clone(), e);
}
