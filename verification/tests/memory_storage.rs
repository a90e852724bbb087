use concensus::config::NodeId;
use concensus::message::ProposalNumber;
use concensus::storage::{MemoryStorage, Storage};

fn test_node_id() -> NodeId {
    NodeId::new("node-1", 1000)
}

fn make_pn(round: u64) -> ProposalNumber {
    (round, test_node_id())
}

#[test]
fn empty_storage_returns_no_decisions() {
    let storage = MemoryStorage::<String>::new();
    let decisions = storage.load_decisions().unwrap();
    assert!(decisions.is_empty());
}

#[test]
fn save_and_load_decisions() {
    let mut storage = MemoryStorage::new();
    storage.save_decision(0, "hello".to_string()).unwrap();
    storage.save_decision(2, "world".to_string()).unwrap();
    let decisions = storage.load_decisions().unwrap();
    assert_eq!(decisions.len(), 2);
    assert!(decisions.contains(&(0, "hello".to_string())));
    assert!(decisions.contains(&(2, "world".to_string())));
}

#[test]
fn save_overwrites_existing_slot() {
    let mut storage = MemoryStorage::new();
    storage.save_decision(0, "first".to_string()).unwrap();
    storage
        .save_decision(0, "second".to_string())
        .unwrap();
    let decisions = storage.load_decisions().unwrap();
    assert_eq!(decisions.len(), 1);
    assert!(decisions.contains(&(0, "second".to_string())));
}

#[test]
fn save_and_load_acceptor_state() {
    let mut storage = MemoryStorage::<String>::new();
    storage
        .save_acceptor_state(1, Some(make_pn(1)), None)
        .unwrap();

    let states = storage.load_acceptor_states().unwrap();
    assert_eq!(states.len(), 1);
    assert_eq!(states[0].slot, 1);
    assert_eq!(states[0].highest_promised, Some(make_pn(1)));
    assert!(states[0].accepted.is_none());
}

#[test]
fn save_decision_cleans_acceptor_state() {
    let mut storage = MemoryStorage::new();
    storage
        .save_acceptor_state(1, Some(make_pn(1)), Some((make_pn(1), "hello".to_string())))
        .unwrap();
    assert_eq!(storage.load_acceptor_states().unwrap().len(), 1);

    storage.save_decision(1, "hello".to_string()).unwrap();
    assert!(storage.load_acceptor_states().unwrap().is_empty());
}

#[test]
fn delete_acceptor_state() {
    let mut storage = MemoryStorage::<String>::new();
    storage
        .save_acceptor_state(5, Some(make_pn(2)), None)
        .unwrap();
    assert_eq!(storage.load_acceptor_states().unwrap().len(), 1);

    storage.delete_acceptor_state(5).unwrap();
    assert!(storage.load_acceptor_states().unwrap().is_empty());
}

#[test]
fn empty_acceptor_states() {
    let storage = MemoryStorage::<String>::new();
    let states = storage.load_acceptor_states().unwrap();
    assert!(states.is_empty());
}

#[test]
fn saving_a_state_replaces_the_one_of_its_slot() {
    let mut storage = MemoryStorage::<String>::new();
    storage.save_acceptor_state(1, Some(make_pn(1)), None).unwrap();
    storage
        .save_acceptor_state(1, Some(make_pn(3)), Some((make_pn(2), "v".to_string())))
        .unwrap();
    let states = storage.load_acceptor_states().unwrap();
    assert_eq!(states.len(), 1);
    assert_eq!(states[0].highest_promised, Some(make_pn(3)));
    assert_eq!(states[0].accepted, Some((make_pn(2), "v".to_string())));
}

#[test]
fn save_decision_keeps_the_states_of_other_slots() {
    let mut storage = MemoryStorage::<String>::new();
    storage.save_acceptor_state(1, Some(make_pn(1)), None).unwrap();
    storage.save_acceptor_state(2, Some(make_pn(2)), None).unwrap();
    storage.save_decision(1, "x".to_string()).unwrap();
    let states = storage.load_acceptor_states().unwrap();
    assert_eq!(states.len(), 1);
    assert_eq!(states[0].slot, 2);
}
