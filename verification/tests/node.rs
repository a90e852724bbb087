//! Whole nodes, driven event by event over a network that the tests hold in hand.
use concensus::config::{NodeId, PeerInfo, RaftConfig};
use concensus::error::{NodeError, ProposeError, StorageError};
use concensus::message::{
    Decision, Message, MessageVariant, RaftMessage, SendTarget, WireVariant,
};
use concensus::node::{
    propose_error, recipients, Decided, Node, NodeAction, NodeAlgorithm, NodeEvent, NodeRole,
    NodeState, Phase, QueueRefusal, Then, TICK_MILLIS,
};
use concensus::protocol::ProtocolImpl;
use concensus::storage::{
    AcceptorState, MemoryStorage, PaxosStored, RaftMemoryStorage, RaftStorage, Storage,
};
use concensus::value::Model;
use std::collections::{HashMap, HashSet, VecDeque};

type Solo = Node<String, MemoryStorage<String>, RaftMemoryStorage<String>>;

struct Network {
    nodes: Vec<Solo>,
    ids: Vec<NodeId>,
    queue: VecDeque<(usize, usize, WireVariant<String>)>,
    decided: Vec<Vec<Decided<String>>>,
    ended: Vec<Option<Result<(), NodeError>>>,
    /// Nodes that nothing reaches and that reach nothing.
    cut_off: HashSet<usize>,
    now: u64,
}

fn peers_of(ids: &[NodeId], node: usize) -> Vec<NodeId> {
    ids.iter()
        .enumerate()
        .filter(|(i, _)| *i != node)
        .map(|(_, id)| id.clone())
        .collect()
}

fn names(n: usize) -> Vec<NodeId> {
    (0..n).map(|i| NodeId::new(&format!("node-{i}"), 1000)).collect()
}

impl Network {
    fn of(nodes: Vec<Solo>, ids: Vec<NodeId>, now: u64) -> Self {
        let n = nodes.len();
        let mut network = Network {
            nodes,
            ids,
            queue: VecDeque::new(),
            decided: vec![Vec::new(); n],
            ended: (0..n).map(|_| None).collect(),
            cut_off: HashSet::new(),
            now,
        };
        for i in 0..n {
            network.nodes[i].start(now).unwrap();
        }
        network
    }

    fn paxos_with(storages: Vec<MemoryStorage<String>>) -> Self {
        let ids = names(storages.len());
        let nodes = storages
            .into_iter()
            .enumerate()
            .map(|(i, s)| Node::paxos_with_id(ids[i].clone(), peers_of(&ids, i), s))
            .collect();
        Network::of(nodes, ids, 0)
    }

    fn paxos(n: usize) -> Self {
        Network::paxos_with((0..n).map(|_| MemoryStorage::new()).collect())
    }

    fn raft(n: usize) -> Self {
        let ids = names(n);
        let nodes = (0..n)
            .map(|i| {
                Node::raft_with_id(
                    ids[i].clone(),
                    RaftConfig::default(),
                    peers_of(&ids, i),
                    RaftMemoryStorage::new(),
                    0,
                )
            })
            .collect();
        Network::of(nodes, ids, 0)
    }

    /// Hands a node an event, and does all that it asks for.
    fn drive(&mut self, node: usize, event: NodeEvent<String>) {
        let mut event = event;
        loop {
            assert!(self.nodes[node].can_step(&event, self.now));
            match self.nodes[node].step(event, self.now) {
                NodeAction::Wait => return,
                NodeAction::Stop(result) => {
                    self.ended[node] = Some(result);
                    return;
                }
                NodeAction::Send(out) => {
                    for o in out {
                        let peers = self.nodes[node].peers.clone();
                        for at in recipients(&o.target, &peers) {
                            let to = self.ids.iter().position(|id| *id == peers[at]).unwrap();
                            self.queue.push_back((node, to, o.message.clone()));
                        }
                    }
                }
                NodeAction::Deliver(list) => self.decided[node].extend(list),
            }
            event = NodeEvent::Done;
        }
    }

    fn propose(&mut self, node: usize, value: &str) {
        self.drive(node, NodeEvent::Proposal(value.to_string()));
    }

    fn deliver_all(&mut self) {
        while let Some((from, to, variant)) = self.queue.pop_front() {
            if self.cut_off.contains(&from) || self.cut_off.contains(&to) {
                continue;
            }
            if self.ended[to].is_some() {
                continue;
            }
            let from = self.ids[from].clone();
            self.drive(to, NodeEvent::Incoming { from, variant });
        }
    }

    /// Lets time pass.
    fn run(&mut self, millis: u64) {
        let until = self.now + millis;
        self.deliver_all();
        while self.now < until {
            self.now += TICK_MILLIS;
            for i in 0..self.nodes.len() {
                if self.ended[i].is_none() {
                    self.drive(i, NodeEvent::Tick);
                    self.deliver_all();
                }
            }
        }
    }

    fn leaders(&self) -> Vec<usize> {
        (0..self.nodes.len())
            .filter(|i| {
                !self.cut_off.contains(i)
                    && self.nodes[*i].peek_state().role == Some(NodeRole::Leader)
            })
            .collect()
    }

    /// No slot has two values.
    fn assert_safety(&self) {
        let mut by_slot: HashMap<u64, &str> = HashMap::new();
        for list in &self.decided {
            for d in list {
                let known = by_slot.entry(d.slot).or_insert(&d.value);
                assert_eq!(*known, d.value, "slot {} has two values", d.slot);
            }
        }
    }

    fn values(&self, node: usize) -> Vec<&str> {
        self.decided[node].iter().map(|d| d.value.as_str()).collect()
    }
}

fn storage_of(node: Solo) -> MemoryStorage<String> {
    match node.protocol {
        ProtocolImpl::Paxos(p) => p.storage,
        ProtocolImpl::Raft(_) => panic!("expected a Paxos node"),
    }
}

fn solo() -> Solo {
    Node::paxos("solo", 1, vec![], MemoryStorage::new())
}

#[test]
fn node_state_is_constructible() {
    let s = NodeState {
        node_id: NodeId::new("a", 1),
        algorithm: NodeAlgorithm::Raft,
        role: Some(NodeRole::Follower),
        term: 3,
        leader: None,
        voted_for: None,
        log_len: 0,
        commit_index: None,
        last_applied: None,
    };
    assert_eq!(s.term, 3);
    assert!(matches!(s.role, Some(NodeRole::Follower)));
}

#[test]
fn node_peek_state_returns_snapshot() {
    let id = NodeId::new("solo", 1);
    let node: Solo = Node::raft_with_id(
        id.clone(),
        RaftConfig::default(),
        vec![],
        RaftMemoryStorage::new(),
        0,
    );
    let s = node.peek_state();
    assert_eq!(s.node_id, id);
    assert_eq!(s.algorithm, NodeAlgorithm::Raft);
    assert_eq!(s.term, 0);
    assert!(matches!(s.role, Some(NodeRole::Follower)));
}

#[test]
fn a_paxos_snapshot_has_no_role() {
    let s = solo().peek_state();
    assert_eq!(s.algorithm, NodeAlgorithm::Paxos);
    assert_eq!(s.node_id, NodeId::new("solo", 1));
    assert_eq!(s.role, None);
    assert_eq!(s.log_len, 0);
}

#[test]
fn paxos_constructor_works() {
    let node: Solo = Node::paxos("test", 1, vec![], MemoryStorage::new());
    assert!(!node.listens());
}

#[test]
fn raft_constructor_works() {
    let node: Solo = Node::raft(
        "test",
        1,
        RaftConfig::default(),
        vec![NodeId::new("peer", 1)],
        RaftMemoryStorage::new(),
        0,
    );
    assert!(node.listens());
    assert_eq!(node.peek_state().node_id, NodeId::new("test", 1));
}

#[test]
fn a_refused_proposal_is_told() {
    assert_eq!(propose_error(QueueRefusal::Full), ProposeError::ChannelFull);
    assert_eq!(
        propose_error(QueueRefusal::Closed),
        ProposeError::NotRunning
    );
}

#[test]
fn single_node_consensus() {
    let mut network = Network::paxos(1);
    network.propose(0, "hello");
    network.run(100);
    assert_eq!(network.decided[0].len(), 1);
    assert_eq!(network.decided[0][0].slot, 0);
    assert_eq!(network.decided[0][0].value, "hello");
}

#[test]
fn three_node_consensus() {
    let mut network = Network::paxos(3);
    network.propose(0, "hello");
    network.run(100);
    for i in 0..3 {
        assert_eq!(network.decided[i].len(), 1);
        assert_eq!(network.decided[i][0].value, "hello");
        assert_eq!(network.decided[i][0].slot, network.decided[0][0].slot);
    }
}

#[test]
fn paxos_node_drops_raft_messages_silently() {
    let raft_msg: Message<String> = Message {
        sender: NodeId::new("attacker", 1),
        variant: WireVariant::Raft(RaftMessage::RequestVote {
            term: 99,
            candidate: NodeId::new("attacker", 1),
            last_log_index: None,
            last_log_term: 0,
        }),
    };
    let mut network = Network::paxos(2);
    network.drive(
        0,
        NodeEvent::Incoming {
            from: raft_msg.sender,
            variant: raft_msg.variant,
        },
    );
    network.run(300);
    assert!(
        network.decided[0].is_empty(),
        "no decision should have been delivered"
    );
    assert!(
        network.ended[0].is_none(),
        "node should still be running"
    );
    assert!(network.queue.is_empty());
}

#[test]
fn single_node_shuts_down_on_handle_drop() {
    let mut network = Network::paxos(1);
    network.drive(0, NodeEvent::HandlesDropped);
    assert!(matches!(network.ended[0], Some(Ok(()))));
}

#[test]
fn dropping_all_handles_causes_clean_shutdown() {
    let mut network = Network::paxos(3);
    for i in 0..3 {
        network.drive(i, NodeEvent::HandlesDropped);
        assert!(matches!(network.ended[i], Some(Ok(()))));
    }
}

#[test]
fn shutdown_during_active_proposal() {
    let mut network = Network::paxos(3);
    network.propose(0, "inflight");
    for i in 0..3 {
        network.drive(i, NodeEvent::HandlesDropped);
        assert!(network.ended[i].is_some());
    }
}

#[test]
fn a_stopped_node_takes_nothing() {
    let mut network = Network::paxos(1);
    network.drive(0, NodeEvent::HandlesDropped);
    let node = &network.nodes[0];
    assert!(!node.can_step(&NodeEvent::Tick, 0));
    assert!(!node.can_step(&NodeEvent::Proposal("late".to_string()), 0));
    assert!(!node.can_step(&NodeEvent::Done, 0));
}

#[test]
fn a_node_that_waits_has_nothing_to_finish() {
    let node = solo();
    assert!(!node.can_step(&NodeEvent::Done, 0));
    assert!(!node.can_step(&NodeEvent::PeerLost, 0));
    assert!(node.can_step(&NodeEvent::Undecodable, 0));
}

#[test]
fn an_undecodable_message_is_dropped() {
    let mut network = Network::paxos(3);
    network.drive(0, NodeEvent::Undecodable);
    assert!(network.queue.is_empty());
    assert!(network.ended[0].is_none());
}

#[test]
fn lost_peers_stop_a_busy_node_only() {
    let mut network = Network::paxos(3);
    network.drive(0, NodeEvent::PeerLost);
    network.drive(0, NodeEvent::PeerLost);
    assert!(network.ended[0].is_none(), "an idle node goes on");

    let mut network = Network::paxos(3);
    network.propose(0, "inflight");
    network.drive(0, NodeEvent::PeerLost);
    assert!(network.ended[0].is_none(), "two of three are a quorum");
    network.drive(0, NodeEvent::PeerLost);
    assert!(matches!(
        network.ended[0],
        Some(Err(NodeError::NoQuorum))
    ));
}

#[test]
fn a_failed_receiver_stops_a_busy_node() {
    let mut network = Network::paxos(3);
    network.propose(0, "inflight");
    network.drive(0, NodeEvent::ReceiverFailed);
    assert!(matches!(
        network.ended[0],
        Some(Err(NodeError::NoQuorum))
    ));

    let mut network = Network::paxos(3);
    network.drive(0, NodeEvent::ReceiverFailed);
    assert!(network.ended[0].is_none());
}

#[test]
fn messages_find_their_peers() {
    let peers = vec![
        NodeId::new("a", 1),
        NodeId::new("b", 1),
        NodeId::new("a", 1),
    ];
    assert_eq!(recipients(&SendTarget::Broadcast, &peers), vec![0, 1, 2]);
    assert_eq!(
        recipients(&SendTarget::Peer(NodeId::new("a", 1)), &peers),
        vec![0]
    );
    assert_eq!(
        recipients(&SendTarget::Peer(NodeId::new("b", 1)), &peers),
        vec![1]
    );
    assert!(recipients(&SendTarget::Peer(NodeId::new("b", 2)), &peers).is_empty());
}

#[test]
fn peer_info_holds_sender() {
    let info = PeerInfo {
        id: NodeId::new("peer-1", 1000),
        sender: "queue",
    };
    assert_eq!(info.id.name(), "peer-1");
    assert_eq!(info.sender, "queue");
}

fn single_value(mut network: Network) {
    network.run(500);
    network.propose(0, "hello");
    network.run(500);
    for i in 0..3 {
        assert_eq!(network.values(i), vec!["hello"]);
    }
    network.assert_safety();
}

#[test]
fn paxos_single_value() {
    single_value(Network::paxos(3));
}

#[test]
fn raft_single_value() {
    single_value(Network::raft(3));
}

fn sequential_proposals(mut network: Network, n: usize) {
    network.run(500);
    let values = ["alpha", "beta", "gamma"];
    for v in values {
        network.propose(0, v);
        network.run(50);
    }
    network.run(500);
    for i in 0..n {
        assert_eq!(network.values(i), values.to_vec());
    }
    network.assert_safety();
}

#[test]
fn paxos_sequential_proposals() {
    sequential_proposals(Network::paxos(3), 3);
}

#[test]
fn raft_sequential_proposals() {
    sequential_proposals(Network::raft(3), 3);
}

fn larger_cluster(mut network: Network, n: usize) {
    network.run(500);
    network.propose(0, "alpha");
    network.propose(0, "beta");
    network.propose(0, "gamma");
    network.run(1000);
    for i in 0..n {
        assert_eq!(network.decided[i].len(), 3);
    }
    network.assert_safety();
}

#[test]
fn paxos_5_node_consensus() {
    larger_cluster(Network::paxos(5), 5);
}

#[test]
fn raft_5_node_consensus() {
    larger_cluster(Network::raft(5), 5);
}

#[test]
fn paxos_7_node_consensus() {
    larger_cluster(Network::paxos(7), 7);
}

#[test]
fn raft_7_node_consensus() {
    larger_cluster(Network::raft(7), 7);
}

#[test]
fn raft_cluster_starts_without_panic() {
    let mut network = Network::raft(3);
    network.run(1000);
    assert_eq!(network.leaders().len(), 1);
}

#[test]
fn a_new_leader_goes_on_where_the_old_one_failed() {
    let mut network = Network::raft(3);
    network.run(1000);
    let leader = network.leaders()[0];
    network.propose(leader, "before");
    network.run(300);
    network.cut_off.insert(leader);
    network.run(2000);
    let next = network.leaders()[0];
    assert_ne!(next, leader);
    network.propose(next, "after");
    network.run(300);
    for i in (0..3).filter(|i| *i != leader) {
        assert_eq!(network.values(i), vec!["before", "after"]);
    }
    network.assert_safety();
}

#[test]
fn a_leader_in_the_minority_steps_down() {
    let mut network = Network::raft(3);
    network.run(1000);
    let leader = network.leaders()[0];
    network.cut_off.insert(leader);
    network.propose(leader, "lost");
    network.run(2000);
    let next = network.leaders()[0];
    network.propose(next, "kept");
    network.run(300);
    assert!(network.decided[leader].is_empty());
    network.cut_off.clear();
    network.run(1000);
    assert_eq!(network.leaders().len(), 1);
    assert_eq!(network.values(leader)[0], "kept");
    network.assert_safety();
}

#[test]
fn paxos_restart_recovers_decisions() {
    let mut network = Network::paxos(3);
    for v in ["v0", "v1", "v2"] {
        network.propose(0, v);
    }
    network.run(500);
    assert_eq!(network.decided[0].len(), 3);
    let storage0 = storage_of(network.nodes.remove(0));
    assert_eq!(storage0.load_decisions().unwrap().len(), 3);

    let mut network =
        Network::paxos_with(vec![storage0, MemoryStorage::new(), MemoryStorage::new()]);
    network.propose(0, "v3");
    network.run(10_000);
    assert_eq!(network.values(0), vec!["v3"]);
    assert_eq!(network.decided[0][0].slot, 3);
}

#[test]
fn raft_restart_recovers_decisions() {
    let mut network = Network::raft(3);
    network.run(1000);
    for v in ["v0", "v1", "v2"] {
        network.propose(0, v);
    }
    network.run(500);
    assert_eq!(network.decided[0].len(), 3);
    let storage0 = match network.nodes.remove(0).protocol {
        ProtocolImpl::Raft(p) => p.storage,
        ProtocolImpl::Paxos(_) => panic!("expected a Raft node"),
    };
    assert!(storage0.load_term().unwrap() >= 1);
    assert!(!storage0.load_log().unwrap().is_empty());
    assert_eq!(storage0.load_decisions().unwrap().len(), 3);
}

#[test]
fn node_recovers_from_storage_and_continues() {
    let mut network = Network::paxos(3);
    network.propose(0, "value-a");
    network.run(500);
    for i in 0..3 {
        assert_eq!(network.values(i), vec!["value-a"]);
    }
    let storage0 = storage_of(network.nodes.remove(0));

    let mut network =
        Network::paxos_with(vec![storage0, MemoryStorage::new(), MemoryStorage::new()]);
    network.propose(1, "value-b");
    network.run(5000);
    for i in 0..3 {
        assert!(network.values(i).contains(&"value-b"));
    }
}

#[test]
fn recovered_node_skips_decided_slots() {
    let mut network = Network::paxos(3);
    network.propose(0, "value-a");
    network.run(500);
    let storage0 = storage_of(network.nodes.remove(0));

    let mut network =
        Network::paxos_with(vec![storage0, MemoryStorage::new(), MemoryStorage::new()]);
    network.propose(1, "value-b");
    network.run(5000);
    assert!(!network.values(0).contains(&"value-a"));
    let last = network.decided[0].last().unwrap();
    assert_eq!(last.value, "value-b");
    assert!(last.slot >= 1);
    for i in 1..3 {
        assert!(network.values(i).contains(&"value-b"));
    }
    network.assert_safety();
}

/// A storage that refuses what it is told to.
struct Broken {
    inner: MemoryStorage<String>,
    states: bool,
    decisions: bool,
}

impl Storage<String> for Broken {
    fn stored(&self) -> PaxosStored<Model<String>> {
        unreachable!("what is stored is for proofs only")
    }

    fn save_decision(&mut self, slot: u64, value: String) -> Result<(), StorageError> {
        if self.decisions {
            return Err(StorageError::Persist("disk full".to_string()));
        }
        self.inner.save_decision(slot, value)
    }

    fn load_decisions(&self) -> Result<Vec<(u64, String)>, StorageError> {
        self.inner.load_decisions()
    }

    fn save_acceptor_state(
        &mut self,
        slot: u64,
        highest_promised: Option<(u64, NodeId)>,
        accepted: Option<((u64, NodeId), String)>,
    ) -> Result<(), StorageError> {
        if self.states {
            return Err(StorageError::Persist("disk full".to_string()));
        }
        self.inner
            .save_acceptor_state(slot, highest_promised, accepted)
    }

    fn load_acceptor_states(&self) -> Result<Vec<AcceptorState<String>>, StorageError> {
        self.inner.load_acceptor_states()
    }

    fn delete_acceptor_state(&mut self, slot: u64) -> Result<(), StorageError> {
        self.inner.delete_acceptor_state(slot)
    }
}

fn broken(
    peers: Vec<NodeId>,
    states: bool,
    decisions: bool,
) -> Node<String, Broken, RaftMemoryStorage<String>> {
    Node::paxos_with_id(
        NodeId::new("solo", 1),
        peers,
        Broken {
            inner: MemoryStorage::new(),
            states,
            decisions,
        },
    )
}

#[test]
fn a_node_that_cannot_save_says_nothing() {
    let mut node = broken(vec![NodeId::new("peer", 1)], true, false);
    match node.step(NodeEvent::Proposal("v".to_string()), 0) {
        NodeAction::Stop(Err(NodeError::Storage(e))) => {
            assert!(matches!(e, StorageError::Persist(why) if why == "disk full"))
        }
        _ => panic!("expected the node to stop"),
    }
    assert_eq!(node.phase, Phase::Stopped);
}

#[test]
fn a_broken_storage_that_is_not_needed_stops_nothing() {
    let mut node = broken(vec![NodeId::new("peer", 1)], true, true);
    let action = node.step(NodeEvent::Tick, 0);
    assert!(matches!(action, NodeAction::Send(out) if out.is_empty()));
    let action = node.step(NodeEvent::Done, 0);
    assert!(matches!(action, NodeAction::Deliver(list) if list.is_empty()));
}

#[test]
fn what_the_storage_answers_decides_how_a_node_goes_on() {
    let mut node = solo();
    let action = node.flushed(Ok(()), vec![], Then::TakeLost);
    assert!(matches!(action, NodeAction::Send(out) if out.is_empty()));
    assert_eq!(node.phase, Phase::Sending { then: Then::TakeLost });

    let mut node = solo();
    let action = node.flushed(
        Err(StorageError::Persist("disk full".to_string())),
        vec![],
        Then::Wait,
    );
    assert!(matches!(
        action,
        NodeAction::Stop(Err(NodeError::Storage(StorageError::Persist(why)))) if why == "disk full"
    ));
    assert_eq!(node.phase, Phase::Stopped);

    let mut node = solo();
    let decision = Decision {
        slot: 3,
        value: "v".to_string(),
    };
    match node.drained(Ok(vec![decision]), Then::Wait) {
        NodeAction::Deliver(list) => {
            assert_eq!(list.len(), 1);
            assert_eq!((list[0].slot, list[0].value.as_str()), (3, "v"));
        }
        _ => panic!("expected the decision"),
    }
    assert_eq!(node.phase, Phase::Delivering { then: Then::Wait });

    let mut node = solo();
    let action = node.drained(Err(StorageError::Delete("gone".to_string())), Then::Wait);
    assert!(matches!(
        action,
        NodeAction::Stop(Err(NodeError::Storage(StorageError::Delete(why)))) if why == "gone"
    ));
    assert_eq!(node.phase, Phase::Stopped);
}

#[test]
fn a_node_that_cannot_save_a_decision_delivers_nothing() {
    let mut node = broken(vec![], false, true);
    let action = node.step(NodeEvent::Proposal("v".to_string()), 0);
    assert!(matches!(action, NodeAction::Send(_)));
    let action = node.step(NodeEvent::Done, 0);
    assert!(matches!(
        action,
        NodeAction::Stop(Err(NodeError::Storage(_)))
    ));
}

#[test]
fn a_lost_proposal_is_made_again() {
    let peers = vec![NodeId::new("b", 1), NodeId::new("c", 1)];
    let mut node: Solo = Node::paxos_with_id(NodeId::new("a", 1), peers, MemoryStorage::new());
    assert!(matches!(
        node.step(NodeEvent::Proposal("mine".to_string()), 0),
        NodeAction::Send(_)
    ));
    node.step(NodeEvent::Done, 0);
    node.step(NodeEvent::Done, 0);
    let decide = NodeEvent::Incoming {
        from: NodeId::new("b", 1),
        variant: WireVariant::Paxos(MessageVariant::Decide {
            slot: 0,
            value: "theirs".to_string(),
        }),
    };
    assert!(matches!(node.step(decide, 0), NodeAction::Send(out) if out.is_empty()));
    assert!(matches!(
        node.step(NodeEvent::Done, 0),
        NodeAction::Deliver(list) if list[0].value == "theirs"
    ));
    match node.step(NodeEvent::Done, 0) {
        NodeAction::Send(out) => assert!(matches!(
            &out[0].message,
            WireVariant::Paxos(MessageVariant::Prepare { slot: 1, .. })
        )),
        _ => panic!("expected the proposal to be made again"),
    }
    node.step(NodeEvent::Done, 0);
    assert!(matches!(node.step(NodeEvent::Done, 0), NodeAction::Wait));
    assert_eq!(node.phase, Phase::Waiting);
}
