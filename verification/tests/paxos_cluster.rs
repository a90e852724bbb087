//! A cluster of Multi-Paxos nodes over a network that loses, repeats and
//! reorders messages, with nodes that restart, some before they saved what they
//! decided.
use concensus::config::NodeId;
use concensus::message::{MessageVariant, Outgoing, SendTarget};
use concensus::paxos_protocol::PaxosProtocol;
use concensus::storage::MemoryStorage;
use std::collections::HashMap;

const NODES: usize = 5;

type Protocol = PaxosProtocol<u64, MemoryStorage<u64>>;

/// A linear congruential generator.
struct Dice(u64);

impl Dice {
    fn roll(&mut self, sides: usize) -> usize {
        self.0 = self
            .0
            .wrapping_mul(6364136223846793005)
            .wrapping_add(1442695040888963407);
        ((self.0 >> 33) as usize) % sides
    }
}

struct Cluster {
    ids: Vec<NodeId>,
    nodes: Vec<Protocol>,
    mail: Vec<(NodeId, usize, MessageVariant<u64>)>,
    /// Every decision that a node ever knew.
    known: HashMap<u64, u64>,
    /// How many decisions were forgotten in a crash.
    forgotten: usize,
    now: u64,
}

fn copy(message: &MessageVariant<u64>) -> MessageVariant<u64> {
    match message {
        MessageVariant::Prepare {
            slot,
            proposal_number,
        } => MessageVariant::Prepare {
            slot: *slot,
            proposal_number: proposal_number.clone(),
        },
        MessageVariant::Promise {
            slot,
            proposal_number,
            accepted,
        } => MessageVariant::Promise {
            slot: *slot,
            proposal_number: proposal_number.clone(),
            accepted: accepted.clone(),
        },
        MessageVariant::Accept {
            slot,
            proposal_number,
            value,
        } => MessageVariant::Accept {
            slot: *slot,
            proposal_number: proposal_number.clone(),
            value: *value,
        },
        MessageVariant::Accepted {
            slot,
            proposal_number,
            value,
        } => MessageVariant::Accepted {
            slot: *slot,
            proposal_number: proposal_number.clone(),
            value: *value,
        },
        MessageVariant::Decide { slot, value } => MessageVariant::Decide {
            slot: *slot,
            value: *value,
        },
        MessageVariant::NackPrepare {
            slot,
            proposal_number,
            highest_promised,
        } => MessageVariant::NackPrepare {
            slot: *slot,
            proposal_number: proposal_number.clone(),
            highest_promised: highest_promised.clone(),
        },
        MessageVariant::NackAccept {
            slot,
            proposal_number,
            highest_promised,
        } => MessageVariant::NackAccept {
            slot: *slot,
            proposal_number: proposal_number.clone(),
            highest_promised: highest_promised.clone(),
        },
    }
}

impl Cluster {
    fn new() -> Self {
        let ids: Vec<NodeId> = (0..NODES).map(|i| NodeId::new(&format!("n{i}"), 1)).collect();
        let nodes = ids
            .iter()
            .map(|id| PaxosProtocol::new(id.clone(), NODES, MemoryStorage::new()))
            .collect();
        Cluster {
            ids,
            nodes,
            mail: Vec::new(),
            known: HashMap::new(),
            forgotten: 0,
            now: 0,
        }
    }

    /// Writes what has to be durable, sends, and compares the decisions; they are
    /// saved now, or left to be saved later.
    fn settle(&mut self, n: usize, out: Vec<Outgoing<MessageVariant<u64>>>, save: bool) {
        self.nodes[n].flush_persist().unwrap();
        for o in out {
            for to in 0..NODES {
                let goes = match &o.target {
                    SendTarget::Broadcast => true,
                    SendTarget::Peer(id) => *id == self.ids[to],
                };
                if goes && to != n {
                    self.mail.push((self.ids[n].clone(), to, copy(&o.message)));
                }
            }
        }
        for d in &self.nodes[n].state.pending_decisions {
            let known = *self.known.entry(d.slot).or_insert(d.value);
            assert_eq!(known, d.value, "slot {}", d.slot);
        }
        if save {
            self.nodes[n].drain_decisions().unwrap();
        }
    }

    fn propose(&mut self, n: usize, value: u64, save: bool) {
        let (_, out) = self.nodes[n].state.propose(value, self.now);
        self.settle(n, out, save);
    }

    /// Ends a node, and starts it again from what it persisted.
    fn restart(&mut self, n: usize) {
        self.forgotten += self.nodes[n].state.pending_decisions.len();
        let storage = std::mem::replace(&mut self.nodes[n].storage, MemoryStorage::new());
        let mut node = PaxosProtocol::new(self.ids[n].clone(), NODES, storage);
        node.recover().unwrap();
        self.nodes[n] = node;
    }

    fn step(&mut self, dice: &mut Dice, value: u64) {
        self.now += 40;
        let save = dice.roll(3) > 0;
        match dice.roll(20) {
            0 => {
                let n = dice.roll(NODES);
                self.propose(n, value, save);
            }
            1 => {
                let n = dice.roll(NODES);
                let out = self.nodes[n].on_tick(self.now);
                self.settle(n, out, save);
            }
            2 => {
                let n = dice.roll(NODES);
                self.restart(n);
            }
            3 => {
                if !self.mail.is_empty() {
                    let i = dice.roll(self.mail.len());
                    self.mail.swap_remove(i);
                }
            }
            _ => {
                if !self.mail.is_empty() {
                    let i = dice.roll(self.mail.len());
                    let (from, to, message) = if dice.roll(10) == 0 {
                        let (from, to, message) = &self.mail[i];
                        (from.clone(), *to, copy(message))
                    } else {
                        self.mail.swap_remove(i)
                    };
                    let out = self.nodes[to].state.handle_message(from, message, self.now);
                    self.settle(to, out, save);
                    let lost = self.nodes[to].state.take_lost_proposals();
                    for value in lost {
                        self.propose(to, value, save);
                    }
                }
            }
        }
    }
}

#[test]
fn random_steps_keep_agreement() {
    let mut slots = 0;
    let mut forgotten = 0;
    for seed in 0..100 {
        let mut dice = Dice(seed);
        let mut cluster = Cluster::new();
        for k in 0..1500 {
            cluster.step(&mut dice, seed * 10_000 + k);
        }
        slots += cluster.known.len();
        forgotten += cluster.forgotten;
    }
    assert!(slots > 100, "expected decisions, got {slots}");
    assert!(forgotten > 0, "expected a crash before a save");
}

/// Delivers all that is on its way, and what it leads to, to the given nodes.
fn deliver(cluster: &mut Cluster, to: &[usize]) {
    while let Some(i) = cluster.mail.iter().position(|m| to.contains(&m.1)) {
        let (from, n, message) = cluster.mail.remove(i);
        let out = cluster.nodes[n].state.handle_message(from, message, cluster.now);
        cluster.settle(n, out, false);
    }
}

#[test]
fn a_decision_forgotten_in_a_crash_is_made_again() {
    let mut cluster = Cluster::new();
    cluster.propose(0, 7, false);
    deliver(&mut cluster, &[0, 1, 2]);
    assert_eq!(cluster.nodes[0].state.decided_slots.get(&0), Some(&7));
    // Node 0 told the others, and ends before it saved.
    cluster.mail.clear();
    cluster.restart(0);
    cluster.restart(1);
    cluster.restart(2);
    assert!(cluster.nodes[0].state.decided_slots.is_empty());
    // Whoever proposes for the slot next finds the value.
    cluster.propose(4, 9, false);
    assert_eq!(cluster.nodes[4].state.next_slot, 1);
    deliver(&mut cluster, &[0, 1, 3, 4]);
    cluster.now += 60_000;
    let out = cluster.nodes[4].on_tick(cluster.now);
    cluster.settle(4, out, false);
    deliver(&mut cluster, &[0, 1, 3, 4]);
    for n in [0, 1, 3, 4] {
        assert_eq!(cluster.nodes[n].state.decided_slots.get(&0), Some(&7), "node {n}");
    }
    assert_eq!(cluster.nodes[4].state.take_lost_proposals(), vec![9]);
}

#[test]
fn a_node_alone_keeps_what_it_saved() {
    let id = NodeId::new("solo", 1);
    let mut node: Protocol = PaxosProtocol::new(id.clone(), 1, MemoryStorage::new());
    node.state.propose(1, 0);
    node.flush_persist().unwrap();
    node.drain_decisions().unwrap();
    node.state.propose(2, 0);
    node.flush_persist().unwrap();
    // The second decision is not saved, and nobody was told.
    let mut again: Protocol = PaxosProtocol::new(id, 1, node.storage);
    again.recover().unwrap();
    assert_eq!(again.state.decided_slots.get(&0), Some(&1));
    assert_eq!(again.state.propose(3, 0).0, 1);
    assert_eq!(again.state.decided_slots.get(&1), Some(&3));
}
