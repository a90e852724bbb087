//! A cluster of Raft state machines on a message bus that delays, drops and
//! reorders, with restarts in between, some in the midst of a flush.
use concensus::config::{NodeId, RaftConfig};
use concensus::error::StorageError;
use concensus::message::{LogEntry, Outgoing, RaftMessage, SendTarget};
use concensus::raft::RaftProtocol;
use concensus::raft_model::Role;
use concensus::storage::{RaftMemoryStorage, RaftStorage, RaftStored};
use concensus::value::Model;
use std::collections::HashMap;

const NUM_NODES: usize = 3;

enum Step {
    Tick(usize),
    Deliver(usize),
    Drop(usize),
    Reorder(usize, usize),
    Propose(usize, u32),
    Restart(usize),
}

/// A storage that fails once a number of writes is used up.
struct Flaky {
    inner: RaftMemoryStorage<u32>,
    left: Option<usize>,
}

impl Flaky {
    fn new() -> Self {
        Flaky {
            inner: RaftMemoryStorage::new(),
            left: None,
        }
    }

    fn write(&mut self) -> Result<&mut RaftMemoryStorage<u32>, StorageError> {
        if let Some(left) = &mut self.left {
            if *left == 0 {
                return Err(StorageError::Persist("power lost".to_string()));
            }
            *left -= 1;
        }
        Ok(&mut self.inner)
    }
}

impl RaftStorage<u32> for Flaky {
    fn stored(&self) -> RaftStored<Model<u32>> {
        unreachable!("what is stored is for proofs only")
    }

    fn save_decision(&mut self, slot: u64, value: u32) -> Result<(), StorageError> {
        self.write()?.save_decision(slot, value)
    }

    fn load_decisions(&self) -> Result<Vec<(u64, u32)>, StorageError> {
        self.inner.load_decisions()
    }

    fn save_term(&mut self, term: u64) -> Result<(), StorageError> {
        self.write()?.save_term(term)
    }

    fn load_term(&self) -> Result<u64, StorageError> {
        self.inner.load_term()
    }

    fn save_voted_for(&mut self, voted_for: Option<NodeId>) -> Result<(), StorageError> {
        self.write()?.save_voted_for(voted_for)
    }

    fn load_voted_for(&self) -> Result<Option<NodeId>, StorageError> {
        self.inner.load_voted_for()
    }

    fn append_log(&mut self, entries: Vec<LogEntry<u32>>) -> Result<(), StorageError> {
        self.write()?.append_log(entries)
    }

    fn truncate_log_from(&mut self, index: u64) -> Result<(), StorageError> {
        self.write()?.truncate_log_from(index)
    }

    fn load_log(&self) -> Result<Vec<LogEntry<u32>>, StorageError> {
        self.inner.load_log()
    }

    fn save_commit_index(&mut self, commit_index: Option<u64>) -> Result<(), StorageError> {
        self.write()?.save_commit_index(commit_index)
    }

    fn load_commit_index(&self) -> Result<Option<u64>, StorageError> {
        self.inner.load_commit_index()
    }
}

struct Harness {
    nodes: Vec<RaftProtocol<u32, Flaky>>,
    ids: Vec<NodeId>,
    queue: Vec<(NodeId, NodeId, RaftMessage<u32>)>,
    now: u64,
    decisions: Vec<Vec<(u64, u32)>>,
    terms: Vec<u64>,
    /// After how many writes of the next flush its node ends.
    cut: Option<usize>,
    /// How many flushes were cut short.
    cuts: usize,
}

fn config() -> RaftConfig {
    RaftConfig {
        election_timeout_min: 100,
        election_timeout_max: 200,
        heartbeat_interval: 50,
    }
}

impl Harness {
    fn new() -> Self {
        let now = 1_000_000;
        let ids: Vec<NodeId> = (0..NUM_NODES)
            .map(|i| NodeId::new(&format!("n{i}"), 1))
            .collect();
        let nodes = ids
            .iter()
            .map(|id| {
                RaftProtocol::new(id.clone(), NUM_NODES, config(), Flaky::new(), now)
            })
            .collect();
        Self {
            nodes,
            ids,
            queue: Vec::new(),
            now,
            decisions: vec![Vec::new(); NUM_NODES],
            terms: vec![0; NUM_NODES],
            cut: None,
            cuts: 0,
        }
    }

    /// What follows on every step of a node: it persists, then speaks, then
    /// hands out its decisions.
    fn settle(&mut self, node: usize, outs: Vec<Outgoing<RaftMessage<u32>>>) {
        self.nodes[node].storage.left = self.cut.take();
        if self.nodes[node].flush_persist().is_err() {
            self.cuts += 1;
            self.restart(node);
            return;
        }
        self.nodes[node].storage.left = None;
        let from = self.ids[node].clone();
        for out in outs {
            match out.target {
                SendTarget::Peer(to) => self.queue.push((from.clone(), to, out.message)),
                SendTarget::Broadcast => {
                    for id in &self.ids {
                        if *id != from {
                            self.queue
                                .push((from.clone(), id.clone(), out.message.clone()));
                        }
                    }
                }
            }
        }
        for d in self.nodes[node].drain_decisions().unwrap() {
            self.decisions[node].push((d.slot, d.value));
        }
    }

    /// Starts a node again from what it persisted.
    fn restart(&mut self, n: usize) {
        let mut storage = std::mem::replace(&mut self.nodes[n].storage, Flaky::new());
        storage.left = None;
        let mut node =
            RaftProtocol::new(self.ids[n].clone(), NUM_NODES, config(), storage, self.now);
        node.recover(self.now).unwrap();
        self.nodes[n] = node;
    }

    fn step(&mut self, step: Step) {
        match step {
            Step::Tick(n) => {
                self.now += 50;
                let outs = self.nodes[n].on_tick(self.now);
                self.settle(n, outs);
            }
            Step::Deliver(i) => {
                if self.queue.is_empty() {
                    return;
                }
                let (from, to, msg) = self.queue.remove(i % self.queue.len());
                if let Some(n) = self.ids.iter().position(|x| *x == to) {
                    let outs = self.nodes[n].handle_message(from, msg, self.now);
                    self.settle(n, outs);
                }
            }
            Step::Drop(i) => {
                if !self.queue.is_empty() {
                    let i = i % self.queue.len();
                    self.queue.remove(i);
                }
            }
            Step::Reorder(a, b) => {
                if self.queue.len() >= 2 {
                    let len = self.queue.len();
                    self.queue.swap(a % len, b % len);
                }
            }
            Step::Propose(n, v) => {
                let outs = self.nodes[n].propose(v, self.now);
                self.settle(n, outs);
            }
            Step::Restart(n) => {
                self.nodes[n].flush_persist().unwrap();
                self.restart(n);
            }
        }
    }

    /// No term has two leaders.
    fn assert_election_safety(&self) {
        let mut leaders: HashMap<u64, usize> = HashMap::new();
        for node in &self.nodes {
            if matches!(node.role, Role::Leader) {
                *leaders.entry(node.current_term).or_insert(0) += 1;
            }
        }
        for (term, count) in leaders {
            assert!(count <= 1, "term {term} has {count} leaders");
        }
    }

    /// Logs that agree on the term of an entry agree on all before it.
    fn assert_log_matching(&self) {
        for i in 0..NUM_NODES {
            for j in (i + 1)..NUM_NODES {
                let a = &self.nodes[i].log;
                let b = &self.nodes[j].log;
                let common = a.len().min(b.len());
                for k in (0..common).rev() {
                    if a[k].term == b[k].term {
                        assert_eq!(a[..=k], b[..=k], "nodes {i} and {j}");
                        break;
                    }
                }
            }
        }
    }

    /// No slot has two values.
    fn assert_state_machine_safety(&self) {
        let mut applied: HashMap<u64, u32> = HashMap::new();
        for decisions in &self.decisions {
            for (slot, value) in decisions {
                let known = applied.entry(*slot).or_insert(*value);
                assert_eq!(known, value, "slot {slot}");
            }
        }
    }

    /// What is stored is what the node holds, and no term goes back.
    fn assert_terms(&mut self) {
        for i in 0..NUM_NODES {
            let term = self.nodes[i].current_term;
            assert_eq!(self.nodes[i].storage.load_term().unwrap(), term);
            assert_eq!(self.nodes[i].storage.load_log().unwrap(), self.nodes[i].log);
            assert!(term >= self.terms[i], "node {i} went back");
            self.terms[i] = term;
        }
    }

    fn assert_invariants(&mut self) {
        self.assert_election_safety();
        self.assert_log_matching();
        self.assert_state_machine_safety();
        self.assert_terms();
    }
}

/// A linear congruential generator.
struct Dice(u64);

impl Dice {
    fn roll(&mut self, sides: usize) -> usize {
        self.0 = self
            .0
            .wrapping_mul(6364136223846793005)
            .wrapping_add(1442695040888963407);
        ((self.0 >> 33) as usize) % sides
    }
}

#[test]
fn harness_basic_election_and_propose() {
    let mut h = Harness::new();
    h.nodes[0].election_deadline = h.now - 1;
    h.step(Step::Tick(0));
    for _ in 0..50 {
        if h.queue.is_empty() {
            h.step(Step::Tick(0));
        } else {
            h.step(Step::Deliver(0));
        }
    }
    let leader_count = h
        .nodes
        .iter()
        .filter(|n| matches!(n.role, Role::Leader))
        .count();
    assert!(leader_count >= 1, "expected a leader to be elected");
    h.assert_invariants();
}

#[test]
fn random_steps_preserve_invariants() {
    for seed in 0..200 {
        let mut dice = Dice(seed);
        let mut h = Harness::new();
        for _ in 0..256 {
            let step = match dice.roll(12) {
                0..=2 => Step::Tick(dice.roll(NUM_NODES)),
                3..=7 => Step::Deliver(dice.roll(32)),
                8 => Step::Drop(dice.roll(32)),
                9 => Step::Reorder(dice.roll(32), dice.roll(32)),
                10 => Step::Propose(dice.roll(NUM_NODES), dice.roll(1000) as u32),
                _ => Step::Restart(dice.roll(NUM_NODES)),
            };
            h.step(step);
            h.assert_invariants();
        }
    }
}

#[test]
fn messages_in_order_lead_to_decisions() {
    let mut slots = 0;
    for seed in 0..200 {
        let mut dice = Dice(seed);
        let mut h = Harness::new();
        for _ in 0..400 {
            let step = match dice.roll(10) {
                0..=1 => Step::Tick(dice.roll(NUM_NODES)),
                2..=7 => Step::Deliver(0),
                8 => Step::Propose(dice.roll(NUM_NODES), dice.roll(1000) as u32),
                _ => {
                    if dice.roll(4) == 0 {
                        Step::Restart(dice.roll(NUM_NODES))
                    } else {
                        Step::Drop(dice.roll(32))
                    }
                }
            };
            h.step(step);
            h.assert_invariants();
        }
        slots += h.decisions.iter().map(|d| d.len()).max().unwrap();
    }
    assert!(slots > 100, "expected decisions, got {slots}");
}

#[test]
fn flushes_cut_short_preserve_invariants() {
    let mut slots = 0;
    let mut cuts = 0;
    for seed in 0..200 {
        let mut dice = Dice(seed);
        let mut h = Harness::new();
        for _ in 0..400 {
            let step = match dice.roll(10) {
                0..=1 => Step::Tick(dice.roll(NUM_NODES)),
                2..=7 => Step::Deliver(if dice.roll(8) == 0 { dice.roll(32) } else { 0 }),
                8 => Step::Propose(dice.roll(NUM_NODES), dice.roll(1000) as u32),
                _ => Step::Drop(dice.roll(32)),
            };
            if dice.roll(12) == 0 {
                h.cut = Some(dice.roll(4));
            }
            h.step(step);
            h.cut = None;
            h.assert_invariants();
        }
        slots += h.decisions.iter().map(|d| d.len()).max().unwrap();
        cuts += h.cuts;
    }
    assert!(slots > 100, "expected decisions, got {slots}");
    assert!(cuts > 100, "expected flushes cut short, got {cuts}");
}
