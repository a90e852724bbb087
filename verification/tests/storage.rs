use concensus::config::NodeId;
use concensus::message::LogEntry;
use concensus::storage::{PaxosMemoryStorage, PaxosStorage, RaftMemoryStorage, RaftStorage};

#[test]
fn empty_paxos_storage_returns_no_decisions() {
    let storage = PaxosMemoryStorage::<String>::new();
    let decisions = storage.load_decisions().unwrap();
    assert!(decisions.is_empty());
}

#[test]
fn save_and_load_paxos_decisions() {
    let mut storage = PaxosMemoryStorage::new();
    storage.save_decision(0, "hello".to_string()).unwrap();
    storage.save_decision(2, "world".to_string()).unwrap();
    let decisions = storage.load_decisions().unwrap();
    assert_eq!(decisions.len(), 2);
    assert!(decisions.contains(&(0, "hello".to_string())));
    assert!(decisions.contains(&(2, "world".to_string())));
}

#[test]
fn paxos_save_overwrites_existing_slot() {
    let mut storage = PaxosMemoryStorage::new();
    storage.save_decision(0, "first".to_string()).unwrap();
    storage
        .save_decision(0, "second".to_string())
        .unwrap();
    let decisions = storage.load_decisions().unwrap();
    assert_eq!(decisions.len(), 1);
    assert!(decisions.contains(&(0, "second".to_string())));
}

#[test]
fn raft_storage_decision_roundtrip() {
    let mut s = RaftMemoryStorage::<String>::new();
    s.save_decision(0, "a".into()).unwrap();
    s.save_decision(1, "b".into()).unwrap();
    let mut decs = s.load_decisions().unwrap();
    decs.sort_by_key(|(slot, _)| *slot);
    assert_eq!(decs, vec![(0, "a".into()), (1, "b".into())]);
}

#[test]
fn raft_storage_term_roundtrip() {
    let mut s = RaftMemoryStorage::<String>::new();
    assert_eq!(s.load_term().unwrap(), 0);
    s.save_term(7).unwrap();
    assert_eq!(s.load_term().unwrap(), 7);
}

#[test]
fn raft_storage_voted_for_roundtrip() {
    let mut s = RaftMemoryStorage::<String>::new();
    assert!(s.load_voted_for().unwrap().is_none());
    let nid = NodeId::new("a", 1);
    s.save_voted_for(Some(nid.clone())).unwrap();
    assert_eq!(s.load_voted_for().unwrap(), Some(nid));
    s.save_voted_for(None).unwrap();
    assert!(s.load_voted_for().unwrap().is_none());
}

#[test]
fn raft_storage_log_append_load_truncate() {
    let mut s = RaftMemoryStorage::<String>::new();
    assert!(s.load_log().unwrap().is_empty());
    s.append_log(vec![
        LogEntry {
            term: 1,
            value: "a".into(),
        },
        LogEntry {
            term: 1,
            value: "b".into(),
        },
    ])
    .unwrap();
    s.append_log(vec![LogEntry {
        term: 2,
        value: "c".into(),
    }])
    .unwrap();
    let log = s.load_log().unwrap();
    assert_eq!(log.len(), 3);
    assert_eq!(log[2].term, 2);
    s.truncate_log_from(1).unwrap();
    let log = s.load_log().unwrap();
    assert_eq!(log.len(), 1);
    assert_eq!(log[0].value, "a");
}

#[test]
fn raft_storage_truncate_past_end_is_noop() {
    let mut s = RaftMemoryStorage::<String>::new();
    s.append_log(vec![LogEntry {
        term: 1,
        value: "a".into(),
    }])
    .unwrap();
    s.truncate_log_from(100).unwrap();
    assert_eq!(s.load_log().unwrap().len(), 1);
}

#[test]
fn raft_storage_commit_index_roundtrip() {
    let mut s = RaftMemoryStorage::<String>::new();
    assert_eq!(s.load_commit_index().unwrap(), None);
    s.save_commit_index(Some(4)).unwrap();
    assert_eq!(s.load_commit_index().unwrap(), Some(4));
    s.save_commit_index(None).unwrap();
    assert_eq!(s.load_commit_index().unwrap(), None);
}

#[test]
fn fresh_storages_equal_their_defaults() {
    let s = RaftMemoryStorage::<u64>::default();
    assert_eq!(s.load_term().unwrap(), 0);
    assert!(s.load_log().unwrap().is_empty());
    let p = PaxosMemoryStorage::<u64>::default();
    assert!(p.load_decisions().unwrap().is_empty());
}
