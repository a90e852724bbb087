//! The Multi-Paxos state machine with its storage.
use concensus::config::NodeId;
use concensus::error::StorageError;
use concensus::message::{MessageVariant, Outgoing};
use concensus::paxos_protocol::PaxosProtocol;
use concensus::storage::{AcceptorState, MemoryStorage, PaxosStored, Storage};
use concensus::value::Model;

type Protocol = PaxosProtocol<String, MemoryStorage<String>>;

fn node(name: &str) -> NodeId {
    NodeId::new(name, 1)
}

fn protocol(name: &str, nodes: usize) -> Protocol {
    PaxosProtocol::new(node(name), nodes, MemoryStorage::new())
}

fn prepared(out: &[Outgoing<MessageVariant<String>>]) -> Vec<(u64, u64)> {
    out.iter()
        .filter_map(|o| match &o.message {
            MessageVariant::Prepare {
                slot,
                proposal_number,
            } => Some((*slot, proposal_number.0)),
            _ => None,
        })
        .collect()
}

#[test]
fn a_promise_is_stored_and_recovered() {
    let mut p = protocol("a", 3);
    p.state.handle_message(
        node("b"),
        MessageVariant::Prepare {
            slot: 0,
            proposal_number: (5, node("b")),
        },
        0,
    );
    assert!(p.storage.load_acceptor_states().unwrap().is_empty());
    p.flush_persist().unwrap();
    let states = p.storage.load_acceptor_states().unwrap();
    assert_eq!(states.len(), 1);
    assert_eq!(states[0].highest_promised, Some((5, node("b"))));

    let mut again: Protocol = PaxosProtocol::new(node("a"), 3, p.storage);
    again.recover().unwrap();
    let out = again.state.handle_message(
        node("c"),
        MessageVariant::Prepare {
            slot: 0,
            proposal_number: (4, node("c")),
        },
        0,
    );
    assert!(matches!(
        out[0].message,
        MessageVariant::NackPrepare { .. }
    ));
}

#[test]
fn decisions_are_saved_when_they_are_drained() {
    let mut p = protocol("a", 1);
    p.state.propose("v".to_string(), 0);
    p.flush_persist().unwrap();
    let taken = p.drain_decisions().unwrap();
    assert_eq!(taken.len(), 1);
    assert_eq!(taken[0].slot, 0);
    assert_eq!(taken[0].value, "v");
    assert_eq!(
        p.storage.load_decisions().unwrap(),
        vec![(0, "v".to_string())]
    );
    assert!(p.storage.load_acceptor_states().unwrap().is_empty());
    assert!(p.drain_decisions().unwrap().is_empty());
}

#[test]
fn proposing_goes_on_behind_what_was_recovered() {
    let mut storage = MemoryStorage::new();
    storage.save_decision(4, "old".to_string()).unwrap();
    let mut p: Protocol = PaxosProtocol::new(node("a"), 3, storage);
    p.recover().unwrap();
    let (_, out) = p.state.propose("new".to_string(), 0);
    assert_eq!(prepared(&out), vec![(5, 1)]);
    assert!(p.drain_decisions().unwrap().is_empty());
}

#[test]
fn a_refused_proposal_is_retried_with_a_higher_number() {
    let mut p = protocol("a", 3);
    let (_, out) = p.state.propose("v".to_string(), 0);
    assert_eq!(prepared(&out), vec![(0, 1)]);
    p.state.handle_message(
        node("b"),
        MessageVariant::NackPrepare {
            slot: 0,
            proposal_number: (1, node("a")),
            highest_promised: (7, node("b")),
        },
        0,
    );
    assert!(p.can_tick(60_000));
    let out = p.on_tick(60_000);
    assert_eq!(prepared(&out), vec![(0, 8)]);
}

/// A storage that has no room for one slot.
struct Full {
    inner: MemoryStorage<String>,
    slot: u64,
}

impl Full {
    fn check(&self, slot: u64) -> Result<(), StorageError> {
        if self.slot == slot {
            return Err(StorageError::Persist(format!("slot {slot}")));
        }
        Ok(())
    }
}

impl Storage<String> for Full {
    fn stored(&self) -> PaxosStored<Model<String>> {
        unreachable!("what is stored is for proofs only")
    }

    fn save_decision(&mut self, slot: u64, value: String) -> Result<(), StorageError> {
        self.check(slot)?;
        self.inner.save_decision(slot, value)
    }

    fn load_decisions(&self) -> Result<Vec<(u64, String)>, StorageError> {
        self.inner.load_decisions()
    }

    fn save_acceptor_state(
        &mut self,
        slot: u64,
        highest_promised: Option<(u64, NodeId)>,
        accepted: Option<((u64, NodeId), String)>,
    ) -> Result<(), StorageError> {
        self.check(slot)?;
        self.inner
            .save_acceptor_state(slot, highest_promised, accepted)
    }

    fn load_acceptor_states(&self) -> Result<Vec<AcceptorState<String>>, StorageError> {
        self.inner.load_acceptor_states()
    }

    fn delete_acceptor_state(&mut self, slot: u64) -> Result<(), StorageError> {
        self.inner.delete_acceptor_state(slot)
    }
}

#[test]
fn a_failed_write_leaves_those_before_it() {
    let storage = Full {
        inner: MemoryStorage::new(),
        slot: 1,
    };
    let mut p = PaxosProtocol::new(node("a"), 3, storage);
    for value in ["x", "y", "z"] {
        p.state.propose(value.to_string(), 0);
    }
    assert!(matches!(p.flush_persist(), Err(StorageError::Persist(why)) if why == "slot 1"));
    let states = p.storage.load_acceptor_states().unwrap();
    assert_eq!(states.iter().map(|s| s.slot).collect::<Vec<_>>(), vec![0]);

    for slot in 0..3 {
        p.state.handle_decide(slot, format!("v{slot}"), 0);
    }
    assert!(matches!(p.drain_decisions(), Err(StorageError::Persist(why)) if why == "slot 1"));
    assert_eq!(
        p.storage.load_decisions().unwrap(),
        vec![(0, "v0".to_string())]
    );
}
