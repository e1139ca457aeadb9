use raft_core::{Entry, Error, Log, State};

struct Echo {
    seen: Vec<(u64, Vec<u8>)>,
}

impl State for Echo {
    fn mutate(&mut self, index: u64, command: Vec<u8>) -> Result<Vec<u8>, Error> {
        self.seen.push((index, command.clone()));
        Ok(command)
    }
}

struct Broken;

impl State for Broken {
    fn mutate(&mut self, _index: u64, _command: Vec<u8>) -> Result<Vec<u8>, Error> {
        Err(Error::Value("refused".into()))
    }
}

fn entry(term: u64, byte: u8) -> Entry {
    Entry { term, command: Some(vec![byte]) }
}

fn three() -> Log {
    let mut log = Log::new();
    log.append(entry(1, 0x01));
    log.append(entry(1, 0x02));
    log.append(entry(2, 0x03));
    log
}

#[test]
fn log_starts_empty() {
    let log = Log::new();
    assert_eq!(log.get_last(), (0, 0));
    assert_eq!(log.get_committed(), (0, 0));
    assert_eq!(log.get_applied(), (0, 0));
    assert_eq!(log.load_term(), (0, None));
    assert_eq!(log.get(1), None);
    assert_eq!(log.scan(1), vec![]);
}

#[test]
fn log_append_returns_index() {
    let mut log = Log::new();
    assert_eq!(log.append(entry(1, 0x01)), 1);
    assert_eq!(log.append(Entry { term: 2, command: None }), 2);
    assert_eq!(log.get_last(), (2, 2));
    assert_eq!(log.get(1), Some(entry(1, 0x01)));
    assert_eq!(log.get(2), Some(Entry { term: 2, command: None }));
    assert_eq!(log.get(0), None);
    assert_eq!(log.get(3), None);
    assert_eq!(log.term_at(1), 1);
    assert_eq!(log.term_at(3), 0);
}

#[test]
fn log_has() {
    let log = three();
    assert!(log.has(0, 0));
    assert!(!log.has(0, 1));
    assert!(log.has(2, 1));
    assert!(!log.has(2, 2));
    assert!(log.has(3, 2));
    assert!(!log.has(4, 2));
    assert!(!log.has(4, 0));
}

#[test]
fn log_scan_from_index() {
    let log = three();
    assert_eq!(log.scan(0), vec![entry(1, 0x01), entry(1, 0x02), entry(2, 0x03)]);
    assert_eq!(log.scan(1), vec![entry(1, 0x01), entry(1, 0x02), entry(2, 0x03)]);
    assert_eq!(log.scan(3), vec![entry(2, 0x03)]);
    assert_eq!(log.scan(4), vec![]);
    assert_eq!(log.scan(9), vec![]);
}

#[test]
fn log_commit_moves_forward_only() {
    let mut log = three();
    assert_eq!(log.commit(2), Ok(2));
    assert_eq!(log.get_committed(), (2, 1));
    assert_eq!(log.commit(2), Ok(2));
    assert_eq!(log.commit(1), Err(Error::Internal("commit index out of range".into())));
    assert_eq!(log.commit(4), Err(Error::Internal("commit index out of range".into())));
    assert_eq!(log.get_committed(), (2, 1));
    assert_eq!(log.commit(3), Ok(3));
    assert_eq!(log.get_committed(), (3, 2));
}

#[test]
fn log_apply_one_at_a_time() {
    let mut log = three();
    let mut state = Echo { seen: vec![] };
    assert_eq!(log.apply(&mut state), Ok(None));
    log.commit(2).unwrap();
    assert_eq!(log.apply(&mut state), Ok(Some((1, Some(vec![0x01])))));
    assert_eq!(log.get_applied(), (1, 1));
    assert_eq!(log.apply(&mut state), Ok(Some((2, Some(vec![0x02])))));
    assert_eq!(log.apply(&mut state), Ok(None));
    assert_eq!(log.get_applied(), (2, 1));
    assert_eq!(state.seen, vec![(1, vec![0x01]), (2, vec![0x02])]);
}

#[test]
fn log_apply_skips_noop() {
    let mut log = Log::new();
    log.append(Entry { term: 1, command: None });
    log.commit(1).unwrap();
    let mut state = Echo { seen: vec![] };
    assert_eq!(log.apply(&mut state), Ok(Some((1, None))));
    assert!(state.seen.is_empty());
    assert_eq!(log.get_applied(), (1, 1));
}

#[test]
fn log_apply_failure_leaves_entry_pending() {
    let mut log = three();
    log.commit(3).unwrap();
    let mut state = Broken;
    assert_eq!(log.apply(&mut state), Err(Error::Value("refused".into())));
    assert_eq!(log.get_applied(), (0, 0));
    assert_eq!(log.apply_all(&mut state), Err(Error::Value("refused".into())));
    assert_eq!(log.get_applied(), (0, 0));
}

#[test]
fn log_apply_all_drains() {
    let mut log = three();
    log.commit(3).unwrap();
    let mut state = Echo { seen: vec![] };
    assert_eq!(log.apply_all(&mut state), Ok(()));
    assert_eq!(log.get_applied(), (3, 2));
    assert_eq!(state.seen, vec![(1, vec![0x01]), (2, vec![0x02]), (3, vec![0x03])]);
    assert_eq!(log.apply_all(&mut state), Ok(()));
    assert_eq!(state.seen.len(), 3);
}

#[test]
fn log_splice_appends() {
    let mut log = three();
    assert_eq!(log.splice(3, &vec![entry(3, 0x04), entry(3, 0x05)]), Ok(5));
    assert_eq!(log.get_last(), (5, 3));
    assert_eq!(log.get(4), Some(entry(3, 0x04)));
}

#[test]
fn log_splice_keeps_matching_entries() {
    let mut log = three();
    // Entry 2 has the same term: the log's own entry stays, with its command.
    assert_eq!(log.splice(1, &vec![entry(1, 0xff)]), Ok(2));
    assert_eq!(log.get_last(), (3, 2));
    assert_eq!(log.get(2), Some(entry(1, 0x02)));
}

#[test]
fn log_splice_replaces_conflicting_suffix() {
    let mut log = three();
    assert_eq!(log.splice(1, &vec![entry(1, 0x02), entry(3, 0x09)]), Ok(3));
    assert_eq!(log.get_last(), (3, 3));
    assert_eq!(log.get(2), Some(entry(1, 0x02)));
    assert_eq!(log.get(3), Some(entry(3, 0x09)));

    let mut log = three();
    assert_eq!(log.splice(0, &vec![entry(4, 0x07)]), Ok(1));
    assert_eq!(log.get_last(), (1, 4));
}

#[test]
fn log_splice_refuses_gap() {
    let mut log = three();
    assert_eq!(
        log.splice(4, &vec![entry(3, 0x04)]),
        Err(Error::Internal("spliced entries must follow an entry of the log".into()))
    );
    assert_eq!(log.get_last(), (3, 2));
}

#[test]
fn log_splice_refuses_to_replace_committed() {
    let mut log = three();
    log.commit(3).unwrap();
    assert_eq!(
        log.splice(2, &vec![entry(3, 0x04)]),
        Err(Error::Internal("cannot replace a committed log entry".into()))
    );
    assert_eq!(log.get_last(), (3, 2));
    assert_eq!(log.get(3), Some(entry(2, 0x03)));
    // Behind the committed entries a splice is fine.
    assert_eq!(log.splice(3, &vec![entry(3, 0x04)]), Ok(4));
}

#[test]
fn log_splice_of_nothing() {
    let mut log = three();
    assert_eq!(log.splice(2, &vec![]), Ok(2));
    assert_eq!(log.get_last(), (3, 2));
}

#[test]
fn log_term_record() {
    let mut log = Log::new();
    log.save_term(3, Some("b".into()));
    assert_eq!(log.load_term(), (3, Some("b".to_string())));
    log.save_term(4, None);
    assert_eq!(log.load_term(), (4, None));
}
