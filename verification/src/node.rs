//! The node around a protocol state machine.
//!
//! A [`Node`] takes events (a proposal, a message, a tick, the end of what it
//! asked for) and answers each with an action: messages to send, decisions to
//! deliver, or the end of the event loop. What has to be durable is written
//! before the messages that depend on it are handed out.
use crate::config::{NodeId, NodeName, RaftConfig};
use crate::error::{NodeError, ProposeError, StorageError};
use crate::message::{
    decided, packets, Decision, Outgoing, Packet, SendTarget, Target, Wire, WireVariant,
};
use crate::paxos_model::PaxosState;
use crate::paxos_protocol::PaxosProtocol;
use crate::protocol::{Engine, ProtocolImpl};
use crate::raft::{node_role, quorum_of, ProtocolSnapshot, RaftProtocol};
use crate::raft_model::{deadline, majority, RaftState};
use crate::random::timeout_allowed;
use crate::storage::{RaftStorage, Storage};
use crate::value::{opt, views, Value};
use vstd::prelude::*;

verus! {

/// Public mirror of the Raft role.
#[derive(Clone, Copy, Debug, PartialEq, Eq, Structural)]
pub enum NodeRole {
    Follower,
    Candidate,
    Leader,
}

/// Identifies which consensus algorithm a node is running.
#[derive(Clone, Copy, Debug, PartialEq, Eq, Structural)]
pub enum NodeAlgorithm {
    Paxos,
    Raft,
}

/// Snapshot of a node's protocol state, for tests and observability.
///
/// Fields that don't apply to the active algorithm carry sentinel values: a
/// Paxos node always reports `role = None`, `term = 0`, `voted_for = None`.
#[derive(Clone, Debug)]
pub struct NodeState {
    pub node_id: NodeId,
    pub algorithm: NodeAlgorithm,
    pub role: Option<NodeRole>,
    pub term: u64,
    pub leader: Option<NodeId>,
    pub voted_for: Option<NodeId>,
    pub log_len: u64,
    pub commit_index: Option<u64>,
    pub last_applied: Option<u64>,
}

/// A value that has reached consensus, paired with its slot number.
///
/// Consumers must treat delivery as at-least-once and dedupe by slot: across a
/// restart the same slot may be delivered again, with the same value.
#[derive(Clone, Debug)]
pub struct Decided<V> {
    /// The slot number this value was decided in.
    pub slot: u64,
    /// The decided value.
    pub value: V,
}

impl<V: View> View for Decided<V> {
    type V = (u64, V::V);

    open spec fn view(&self) -> (u64, V::V) {
        (self.slot, self.value@)
    }
}

/// How many proposals wait for a node at most.
pub const PROPOSAL_CHANNEL_CAPACITY: usize = 1024;

/// How many decisions wait for their consumer at most.
pub const DECISION_CHANNEL_CAPACITY: usize = 1024;

/// How often a node is woken up, in milliseconds.
pub const TICK_MILLIS: u64 = 50;

/// Why a queue of proposals took no more.
#[derive(Clone, Copy, Debug, PartialEq, Eq, Structural)]
pub enum QueueRefusal {
    Full,
    Closed,
}

/// The error of a proposal that the queue did not take.
pub fn propose_error(refusal: QueueRefusal) -> (error: ProposeError)
    ensures
        refusal == QueueRefusal::Full ==> error == ProposeError::ChannelFull,
        refusal == QueueRefusal::Closed ==> error == ProposeError::NotRunning,
{
    match refusal {
        QueueRefusal::Full => ProposeError::ChannelFull,
        QueueRefusal::Closed => ProposeError::NotRunning,
    }
}

/// Whether a node with work of its own has lost its quorum: those it still
/// reaches, itself included, are less than a majority.
pub open spec fn no_quorum(active_peers: nat, peers: nat, idle: bool) -> bool {
    active_peers + 1 < majority((peers + 1) as usize) && !idle
}

/// What follows once the messages at hand are sent and the decisions at hand
/// are delivered.
#[derive(Clone, Copy, Debug, PartialEq, Eq, Structural)]
pub enum Then {
    /// Wait for the next event.
    Wait,
    /// Take the proposals that were lost, and make each again.
    TakeLost,
    /// Go on with the lost proposals.
    NextLost,
}

/// Where a node stands between two events.
#[derive(Clone, Copy, Debug, PartialEq, Eq, Structural)]
pub enum Phase {
    /// Waiting for something to happen.
    Waiting,
    /// Messages are being sent.
    Sending { then: Then },
    /// Decisions are being delivered.
    Delivering { then: Then },
    /// The event loop has ended.
    Stopped,
}

/// What happens to a node.
#[derive(Debug)]
pub enum NodeEvent<V> {
    /// A value was proposed through a handle.
    Proposal(V),
    /// All handles are gone.
    HandlesDropped,
    /// A message came in.
    Incoming { from: NodeId, variant: WireVariant<V> },
    /// Something came in that is no message.
    Undecodable,
    /// The connection to one peer ended.
    PeerLost,
    /// The transport failed.
    ReceiverFailed,
    /// Time has passed.
    Tick,
    /// What the last action asked for is done.
    Done,
}

/// The model of [`NodeEvent`].
pub enum Happening<T> {
    Proposal(T),
    HandlesDropped,
    Incoming { from: NodeName, message: Wire<T> },
    Undecodable,
    PeerLost,
    ReceiverFailed,
    Tick,
    Done,
}

impl<V: View> View for NodeEvent<V> {
    type V = Happening<V::V>;

    open spec fn view(&self) -> Happening<V::V> {
        match self {
            NodeEvent::Proposal(value) => Happening::Proposal(value@),
            NodeEvent::HandlesDropped => Happening::HandlesDropped,
            NodeEvent::Incoming { from, variant } => Happening::Incoming {
                from: from@,
                message: variant@,
            },
            NodeEvent::Undecodable => Happening::Undecodable,
            NodeEvent::PeerLost => Happening::PeerLost,
            NodeEvent::ReceiverFailed => Happening::ReceiverFailed,
            NodeEvent::Tick => Happening::Tick,
            NodeEvent::Done => Happening::Done,
        }
    }
}

/// What a node asks for.
pub enum NodeAction<V> {
    /// Wait for the next event.
    Wait,
    /// Send these messages, then report `Done`.
    Send(Vec<Outgoing<WireVariant<V>>>),
    /// Deliver these decisions, then report `Done`.
    Deliver(Vec<Decided<V>>),
    /// End the event loop with this result.
    Stop(Result<(), NodeError>),
}

/// The model of [`NodeAction`].
pub enum Answer<T> {
    Wait,
    Send(Seq<Packet<Wire<T>>>),
    Deliver(Seq<(u64, T)>),
    Stop,
    NoQuorum,
    StorageFailed(StorageError),
}

impl<V: View> View for NodeAction<V> {
    type V = Answer<V::V>;

    open spec fn view(&self) -> Answer<V::V> {
        match self {
            NodeAction::Wait => Answer::Wait,
            NodeAction::Send(out) => Answer::Send(packets(out@)),
            NodeAction::Deliver(decisions) => Answer::Deliver(
                decisions@.map_values(|d: Decided<V>| d@),
            ),
            NodeAction::Stop(r) => match r {
                Ok(_) => Answer::Stop,
                Err(NodeError::NoQuorum) => Answer::NoQuorum,
                Err(NodeError::Storage(e)) => Answer::StorageFailed(*e),
            },
        }
    }
}

/// A consensus node.
///
/// With no peers the node acts as a single-node cluster: Multi-Paxos decides
/// values as soon as they are proposed, Raft completes a one-vote election
/// first.
pub struct Node<V, PS, RS> {
    pub node_id: NodeId,
    pub peers: Vec<NodeId>,
    pub active_peers: usize,
    pub protocol: ProtocolImpl<V, PS, RS>,
    pub phase: Phase,
    pub lost: Vec<V>,
}

/// The model of [`Node`].
#[verifier::reject_recursive_types(T)]
pub struct NodeModel<T> {
    pub node_id: NodeName,
    pub peers: Seq<NodeName>,
    pub active_peers: nat,
    pub engine: Engine<T>,
    pub phase: Phase,
    pub lost: Seq<T>,
}

impl<V: Value, PS: Storage<V>, RS: RaftStorage<V>> View for Node<V, PS, RS> {
    type V = NodeModel<V::V>;

    open spec fn view(&self) -> NodeModel<V::V> {
        NodeModel {
            node_id: self.node_id@,
            peers: views(self.peers@),
            active_peers: self.active_peers as nat,
            engine: self.protocol.engine(),
            phase: self.phase,
            lost: views(self.lost@),
        }
    }
}

impl<T> NodeModel<T> {
    /// Whether the node takes an event where it stands: the end of what it asked
    /// for while it waits for that, everything else while it waits for nothing.
    pub open spec fn takes(self, event: Happening<T>, now: u64) -> bool {
        match (self.phase, event) {
            (Phase::Sending { .. }, Happening::Done) => true,
            (Phase::Delivering { then }, Happening::Done) => match then {
                Then::Wait => true,
                Then::TakeLost => self.engine.lost().len() > 0 ==> self.engine.can_propose(),
                Then::NextLost => self.lost.len() > 0 ==> self.engine.can_propose(),
            },
            (Phase::Waiting, Happening::Proposal(_)) => self.engine.can_propose(),
            (Phase::Waiting, Happening::Incoming { from, message }) => self.engine.can_receive(
                from,
                message,
            ),
            (Phase::Waiting, Happening::Tick) => self.engine.can_tick(now),
            (Phase::Waiting, Happening::PeerLost) => self.active_peers > 0,
            (Phase::Waiting, Happening::Done) => false,
            (Phase::Waiting, _) => true,
            _ => false,
        }
    }

    /// The engine has answered with messages: what it has to remember is
    /// written, then the messages are handed out.
    pub open spec fn hands_out(
        self,
        mid: Engine<T>,
        out: Seq<Packet<Wire<T>>>,
        then: Then,
        after: NodeModel<T>,
        answer: Answer<T>,
    ) -> bool {
        match answer {
            Answer::Send(o) => {
                &&& o == out
                &&& mid.flushes(after.engine, true)
                &&& after == (NodeModel {
                    engine: after.engine,
                    phase: Phase::Sending { then },
                    ..self
                })
            },
            Answer::StorageFailed(_) => {
                &&& mid.flushes(after.engine, false)
                &&& after == (NodeModel { engine: after.engine, phase: Phase::Stopped, ..self })
            },
            _ => false,
        }
    }

    /// A value is proposed, then `then`.
    pub open spec fn proposes(
        self,
        value: T,
        now: u64,
        then: Then,
        after: NodeModel<T>,
        answer: Answer<T>,
    ) -> bool {
        exists|mid: Engine<T>, out: Seq<Packet<Wire<T>>>| #[trigger]
            self.engine.proposes(value, now, mid, out) && self.hands_out(
                mid,
                out,
                then,
                after,
                answer,
            )
    }

    /// A message is handled; afterwards lost proposals are made again.
    pub open spec fn receives(
        self,
        from: NodeName,
        message: Wire<T>,
        now: u64,
        after: NodeModel<T>,
        answer: Answer<T>,
    ) -> bool {
        exists|mid: Engine<T>, out: Seq<Packet<Wire<T>>>| #[trigger]
            self.engine.receives(from, message, now, mid, out) && self.hands_out(
                mid,
                out,
                Then::TakeLost,
                after,
                answer,
            )
    }

    /// Time passes.
    pub open spec fn ticks(self, now: u64, after: NodeModel<T>, answer: Answer<T>) -> bool {
        exists|mid: Engine<T>, out: Seq<Packet<Wire<T>>>| #[trigger]
            self.engine.ticks(now, mid, out) && self.hands_out(
                mid,
                out,
                Then::Wait,
                after,
                answer,
            )
    }

    /// The decisions are saved, then handed out.
    pub open spec fn delivers(self, then: Then, after: NodeModel<T>, answer: Answer<T>) -> bool {
        match answer {
            Answer::Deliver(decisions) => {
                &&& decisions == self.engine.waiting()
                &&& self.engine.drains(after.engine, true)
                &&& after == (NodeModel {
                    engine: after.engine,
                    phase: Phase::Delivering { then },
                    ..self
                })
            },
            Answer::StorageFailed(_) => {
                &&& self.engine.drains(after.engine, false)
                &&& after == (NodeModel { engine: after.engine, phase: Phase::Stopped, ..self })
            },
            _ => false,
        }
    }

    /// The next lost proposal is made again; without one the node waits.
    pub open spec fn goes_on(self, now: u64, after: NodeModel<T>, answer: Answer<T>) -> bool {
        if self.lost.len() == 0 {
            &&& answer == Answer::<T>::Wait
            &&& after == (NodeModel { phase: Phase::Waiting, ..self })
        } else {
            (NodeModel { lost: self.lost.drop_first(), ..self }).proposes(
                self.lost[0],
                now,
                Then::NextLost,
                after,
                answer,
            )
        }
    }

    /// A peer or the transport is gone; `active_peers` are left.
    pub open spec fn misses(self, active_peers: nat, after: NodeModel<T>, answer: Answer<T>) -> bool {
        if no_quorum(active_peers, self.peers.len(), self.engine.idle()) {
            &&& answer == Answer::<T>::NoQuorum
            &&& after == (NodeModel { phase: Phase::Stopped, ..self })
        } else {
            &&& answer == Answer::<T>::Wait
            &&& after == self
        }
    }

    /// What an event leads to.
    pub open spec fn steps(
        self,
        event: Happening<T>,
        now: u64,
        after: NodeModel<T>,
        answer: Answer<T>,
    ) -> bool {
        match event {
            Happening::Proposal(value) => self.proposes(value, now, Then::Wait, after, answer),
            Happening::HandlesDropped => {
                &&& answer == Answer::<T>::Stop
                &&& after == (NodeModel { phase: Phase::Stopped, ..self })
            },
            Happening::Incoming { from, message } => self.receives(
                from,
                message,
                now,
                after,
                answer,
            ),
            Happening::Undecodable => {
                &&& answer == Answer::<T>::Wait
                &&& after == self
            },
            Happening::PeerLost => {
                let left = (self.active_peers - 1) as nat;
                (NodeModel { active_peers: left, ..self }).misses(left, after, answer)
            },
            Happening::ReceiverFailed => self.misses(0, after, answer),
            Happening::Tick => self.ticks(now, after, answer),
            Happening::Done => match self.phase {
                Phase::Sending { then } => self.delivers(then, after, answer),
                Phase::Delivering { then } => match then {
                    Then::Wait => {
                        &&& answer == Answer::<T>::Wait
                        &&& after == (NodeModel { phase: Phase::Waiting, ..self })
                    },
                    Then::TakeLost => (NodeModel {
                        engine: self.engine.without_lost(),
                        lost: self.engine.lost(),
                        ..self
                    }).goes_on(now, after, answer),
                    Then::NextLost => self.goes_on(now, after, answer),
                },
                _ => false,
            },
        }
    }
}

/// The decisions as they are delivered.
fn deliverable<V: Value>(decisions: Vec<Decision<V>>) -> (list: Vec<Decided<V>>)
    ensures
        list@.map_values(|d: Decided<V>| d@) == decided(decisions@),
{
    let mut list: Vec<Decided<V>> = Vec::new();
    for d in iter: decisions
        invariant
            list.len() == iter.index(),
            iter.seq() == decisions@,
            forall|i: int| 0 <= i < list.len() ==> (#[trigger] list[i])@ == decisions[i]@,
    {
        list.push(Decided { slot: d.slot, value: d.value });
    }
    assert(list@.map_values(|d: Decided<V>| d@) =~= decided(decisions@));
    list
}

impl<V: Value, PS: Storage<V>, RS: RaftStorage<V>> Node<V, PS, RS> {
    /// The protocol is well-formed with nothing left to persist, and no more
    /// peers are active than there are.
    pub open spec fn wf(&self) -> bool {
        &&& self.protocol.settled()
        &&& self.active_peers <= self.peers.len() < usize::MAX
    }

    fn with_protocol(node_id: NodeId, peers: Vec<NodeId>, protocol: ProtocolImpl<V, PS, RS>) -> (node:
        Self)
        requires
            protocol.settled(),
            peers.len() < usize::MAX,
        ensures
            node.wf(),
            node@ == (NodeModel {
                node_id: node_id@,
                peers: views(peers@),
                active_peers: peers@.len(),
                engine: protocol.engine(),
                phase: Phase::Waiting,
                lost: Seq::empty(),
            }),
    {
        let active_peers: usize = peers.len();
        let node = Node {
            node_id,
            peers,
            active_peers,
            protocol,
            phase: Phase::Waiting,
            lost: Vec::new(),
        };
        assert(node@.lost =~= Seq::empty());
        node
    }

    /// Creates a Multi-Paxos node with an explicit identity.
    pub fn paxos_with_id(node_id: NodeId, peers: Vec<NodeId>, storage: PS) -> (node: Self)
        requires
            peers.len() < usize::MAX,
        ensures
            node.wf(),
            node@ == (NodeModel {
                node_id: node_id@,
                peers: views(peers@),
                active_peers: peers@.len(),
                engine: Engine::Paxos {
                    state: PaxosState::initial(node_id@, (peers@.len() + 1) as usize),
                    stored: storage.stored(),
                },
                phase: Phase::Waiting,
                lost: Seq::empty(),
            }),
    {
        let protocol: PaxosProtocol<V, PS> = PaxosProtocol::new(
            node_id.clone(),
            peers.len() + 1,
            storage,
        );
        Node::with_protocol(node_id, peers, ProtocolImpl::Paxos(protocol))
    }

    /// Creates a Multi-Paxos node. Its identity is formed from the given name
    /// and from the time it starts at, as the incarnation number.
    pub fn paxos(name: &str, incarnation: u64, peers: Vec<NodeId>, storage: PS) -> (node: Self)
        requires
            peers.len() < usize::MAX,
        ensures
            node.wf(),
            ({
                let id = NodeName { name: name@, incarnation };
                node@ == (NodeModel {
                    node_id: id,
                    peers: views(peers@),
                    active_peers: peers@.len(),
                    engine: Engine::Paxos {
                        state: PaxosState::initial(id, (peers@.len() + 1) as usize),
                        stored: storage.stored(),
                    },
                    phase: Phase::Waiting,
                    lost: Seq::empty(),
                })
            }),
    {
        Node::paxos_with_id(NodeId::new(name, incarnation), peers, storage)
    }

    /// Creates a Raft node with an explicit identity.
    pub fn raft_with_id(
        node_id: NodeId,
        config: RaftConfig,
        peers: Vec<NodeId>,
        storage: RS,
        now: u64,
    ) -> (node: Self)
        requires
            peers.len() < usize::MAX,
        ensures
            node.wf(),
            node.raft_starts(node_id@, config, views(peers@), storage, now),
    {
        let protocol: RaftProtocol<V, RS> = RaftProtocol::new(
            node_id.clone(),
            peers.len() + 1,
            config,
            storage,
            now,
        );
        Node::with_protocol(node_id, peers, ProtocolImpl::Raft(protocol))
    }

    /// Whether this is a fresh Raft node with a drawn first election timeout.
    pub open spec fn raft_starts(
        &self,
        id: NodeName,
        config: RaftConfig,
        peers: Seq<NodeName>,
        storage: RS,
        now: u64,
    ) -> bool {
        exists|timeout: u64| #[trigger]
            timeout_allowed(config, timeout) && self@ == (NodeModel {
                node_id: id,
                peers,
                active_peers: peers.len(),
                engine: Engine::Raft {
                    state: RaftState::initial(
                        id,
                        (peers.len() + 1) as usize,
                        config,
                        deadline(now, timeout),
                    ),
                    stored: storage.stored(),
                },
                phase: Phase::Waiting,
                lost: Seq::empty(),
            })
    }

    /// Creates a Raft node. Its identity is formed from the given name and from
    /// the time it starts at, as the incarnation number.
    pub fn raft(
        name: &str,
        incarnation: u64,
        config: RaftConfig,
        peers: Vec<NodeId>,
        storage: RS,
        now: u64,
    ) -> (node: Self)
        requires
            peers.len() < usize::MAX,
        ensures
            node.wf(),
            node.raft_starts(
                NodeName { name: name@, incarnation },
                config,
                views(peers@),
                storage,
                now,
            ),
    {
        Node::raft_with_id(NodeId::new(name, incarnation), config, peers, storage, now)
    }

    /// The node's state, for tests and observability.
    pub fn peek_state(&self) -> (state: NodeState)
        requires
            self.wf(),
        ensures
            state.node_id@ == self.node_id@,
            self@.engine matches Engine::Raft { state: s, .. } ==> {
                &&& state.algorithm == NodeAlgorithm::Raft
                &&& state.role == Some(node_role(s.role))
                &&& state.term == s.current_term
                &&& opt(state.leader) == s.leader
                &&& opt(state.voted_for) == s.voted_for
                &&& state.log_len == s.log.len()
                &&& state.commit_index == s.commit_index
                &&& state.last_applied == s.last_applied
            },
            self@.engine is Paxos ==> {
                &&& state.algorithm == NodeAlgorithm::Paxos
                &&& state.role is None
                &&& state.term == 0
                &&& state.leader is None
                &&& state.voted_for is None
                &&& state.log_len == 0
                &&& state.commit_index is None
                &&& state.last_applied is None
            },
    {
        match &self.protocol {
            ProtocolImpl::Paxos(_) => NodeState {
                node_id: self.node_id.clone(),
                algorithm: NodeAlgorithm::Paxos,
                role: None,
                term: 0,
                leader: None,
                voted_for: None,
                log_len: 0,
                commit_index: None,
                last_applied: None,
            },
            ProtocolImpl::Raft(p) => {
                let snapshot: ProtocolSnapshot = p.peek_state();
                NodeState {
                    node_id: self.node_id.clone(),
                    algorithm: NodeAlgorithm::Raft,
                    role: snapshot.role,
                    term: snapshot.term,
                    leader: snapshot.leader,
                    voted_for: snapshot.voted_for,
                    log_len: snapshot.log_len,
                    commit_index: snapshot.commit_index,
                    last_applied: snapshot.last_applied,
                }
            },
        }
    }

    /// Whether the persisted state can be loaded.
    pub fn can_start(&self) -> (r: Result<bool, NodeError>)
        ensures
            r matches Ok(yes) ==> yes == self@.engine.can_recover(),
            r matches Err(e) ==> e is Storage && self.protocol.load_fails(e->Storage_0),
            self@.engine is Raft ==> r is Ok,
    {
        match self.protocol.can_recover() {
            Ok(yes) => Ok(yes),
            Err(e) => Err(NodeError::Storage(e)),
        }
    }

    /// Loads the persisted state, before the first event. The only failure is
    /// that of a load.
    pub fn start(&mut self, now: u64) -> (r: Result<(), NodeError>)
        requires
            old(self).wf(),
            old(self)@.engine.can_recover(),
        ensures
            final(self).wf(),
            final(self)@ == (NodeModel { engine: final(self)@.engine, ..old(self)@ }),
            r is Ok ==> old(self)@.engine.recovers(now, final(self)@.engine),
            r is Err ==> final(self)@.engine == old(self)@.engine,
            r matches Err(e) ==> e is Storage && old(self).protocol.load_fails(e->Storage_0),
    {
        match self.protocol.recover(now) {
            Ok(_) => Ok(()),
            Err(e) => Err(NodeError::Storage(e)),
        }
    }

    /// Whether the node listens to a transport: a node without peers does not.
    pub fn listens(&self) -> (r: bool)
        ensures
            r == (self@.peers.len() > 0),
    {
        self.peers.len() > 0
    }

    /// Whether the node takes an event where it stands.
    pub fn can_step(&self, event: &NodeEvent<V>, now: u64) -> (r: bool)
        requires
            self.wf(),
        ensures
            r == self@.takes(event@, now),
    {
        match (&self.phase, event) {
            (Phase::Sending { .. }, NodeEvent::Done) => true,
            (Phase::Delivering { then }, NodeEvent::Done) => match then {
                Then::Wait => true,
                Then::TakeLost => !self.protocol.has_lost_proposals() || self.protocol.can_propose(),
                Then::NextLost => self.lost.len() == 0 || self.protocol.can_propose(),
            },
            (Phase::Waiting, NodeEvent::Proposal(_)) => self.protocol.can_propose(),
            (Phase::Waiting, NodeEvent::Incoming { from, variant }) => self.protocol.can_receive(
                from,
                variant,
            ),
            (Phase::Waiting, NodeEvent::Tick) => self.protocol.can_tick(now),
            (Phase::Waiting, NodeEvent::PeerLost) => self.active_peers > 0,
            (Phase::Waiting, NodeEvent::Done) => false,
            (Phase::Waiting, _) => true,
            (_, _) => false,
        }
    }

    /// Whether a write to the storage can fail with this error.
    pub open spec fn write_fails(&self, e: StorageError) -> bool {
        self.protocol.flush_fails(e) || self.protocol.save_fails(e)
    }

    /// Goes on once what has to be persisted was written: the messages are handed
    /// out, or the failure of the storage ends the event loop.
    pub fn flushed(
        &mut self,
        result: Result<(), StorageError>,
        out: Vec<Outgoing<WireVariant<V>>>,
        then: Then,
    ) -> (action: NodeAction<V>)
        requires
            old(self).wf(),
        ensures
            final(self).wf(),
            result is Ok ==> action == NodeAction::Send(out) && final(self)@ == (NodeModel {
                phase: Phase::Sending { then },
                ..old(self)@
            }),
            result matches Err(e) ==> action == NodeAction::<V>::Stop(Err(NodeError::Storage(e)))
                && final(self)@ == (NodeModel { phase: Phase::Stopped, ..old(self)@ }),
            final(self).protocol == old(self).protocol,
    {
        match result {
            Ok(_) => {
                self.phase = Phase::Sending { then };
                NodeAction::Send(out)
            },
            Err(e) => {
                self.phase = Phase::Stopped;
                NodeAction::Stop(Err(NodeError::Storage(e)))
            },
        }
    }

    /// Goes on once the decisions at hand were saved: they are handed out, or the
    /// failure of the storage ends the event loop.
    pub fn drained(
        &mut self,
        result: Result<Vec<Decision<V>>, StorageError>,
        then: Then,
    ) -> (action: NodeAction<V>)
        requires
            old(self).wf(),
        ensures
            final(self).wf(),
            result matches Ok(decisions) ==> action@ == Answer::Deliver(decided(decisions@))
                && final(self)@ == (NodeModel { phase: Phase::Delivering { then }, ..old(self)@ }),
            result matches Err(e) ==> action == NodeAction::<V>::Stop(Err(NodeError::Storage(e)))
                && final(self)@ == (NodeModel { phase: Phase::Stopped, ..old(self)@ }),
            final(self).protocol == old(self).protocol,
    {
        match result {
            Ok(decisions) => {
                self.phase = Phase::Delivering { then };
                NodeAction::Deliver(deliverable(decisions))
            },
            Err(e) => {
                self.phase = Phase::Stopped;
                NodeAction::Stop(Err(NodeError::Storage(e)))
            },
        }
    }

    /// Writes what has to be persisted, then hands out messages.
    fn hand_out(&mut self, out: Vec<Outgoing<WireVariant<V>>>, then: Then) -> (action: NodeAction<V>)
        requires
            old(self).protocol.wf(),
            old(self).active_peers <= old(self).peers.len() < usize::MAX,
        ensures
            final(self).wf(),
            old(self)@.hands_out(
                old(self)@.engine,
                packets(out@),
                then,
                final(self)@,
                action@,
            ),
            action@ matches Answer::StorageFailed(e) ==> old(self).write_fails(e),
    {
        let result: Result<(), StorageError> = self.protocol.flush_persist();
        self.flushed(result, out, then)
    }

    /// Proposes a value, then `then`.
    fn handle_proposal(&mut self, value: V, now: u64, then: Then) -> (action: NodeAction<V>)
        requires
            old(self).wf(),
            old(self)@.engine.can_propose(),
        ensures
            final(self).wf(),
            old(self)@.proposes(value@, now, then, final(self)@, action@),
            action@ matches Answer::StorageFailed(e) ==> old(self).write_fails(e),
    {
        let out: Vec<Outgoing<WireVariant<V>>> = self.protocol.propose(value, now);
        let ghost mid = self@.engine;
        let ghost sent = packets(out@);
        let action: NodeAction<V> = self.hand_out(out, then);
        assert(old(self)@.engine.proposes(value@, now, mid, sent));
        assert(old(self)@.hands_out(mid, sent, then, self@, action@));
        action
    }

    /// Handles a message; one of the other algorithm changes nothing.
    fn handle_incoming(&mut self, from: NodeId, variant: WireVariant<V>, now: u64) -> (action:
        NodeAction<V>)
        requires
            old(self).wf(),
            old(self)@.engine.can_receive(from@, variant@),
        ensures
            final(self).wf(),
            old(self)@.receives(from@, variant@, now, final(self)@, action@),
            action@ matches Answer::StorageFailed(e) ==> old(self).write_fails(e),
    {
        let ghost sender = from@;
        let ghost message = variant@;
        let out: Vec<Outgoing<WireVariant<V>>> = self.protocol.handle_wire_message(
            from,
            variant,
            now,
        );
        let ghost mid = self@.engine;
        let ghost sent = packets(out@);
        let action: NodeAction<V> = self.hand_out(out, Then::TakeLost);
        assert(old(self)@.engine.receives(sender, message, now, mid, sent));
        assert(old(self)@.hands_out(mid, sent, Then::TakeLost, self@, action@));
        action
    }

    /// Lets time pass.
    fn handle_retries(&mut self, now: u64) -> (action: NodeAction<V>)
        requires
            old(self).wf(),
            old(self)@.engine.can_tick(now),
        ensures
            final(self).wf(),
            old(self)@.ticks(now, final(self)@, action@),
            action@ matches Answer::StorageFailed(e) ==> old(self).write_fails(e),
    {
        let out: Vec<Outgoing<WireVariant<V>>> = self.protocol.on_tick(now);
        let ghost mid = self@.engine;
        let ghost sent = packets(out@);
        let action: NodeAction<V> = self.hand_out(out, Then::Wait);
        assert(old(self)@.engine.ticks(now, mid, sent));
        assert(old(self)@.hands_out(mid, sent, Then::Wait, self@, action@));
        action
    }

    /// Saves the decisions at hand, then hands them out.
    fn process_decisions(&mut self, then: Then) -> (action: NodeAction<V>)
        requires
            old(self).wf(),
        ensures
            final(self).wf(),
            old(self)@.delivers(then, final(self)@, action@),
            action@ matches Answer::StorageFailed(e) ==> old(self).write_fails(e),
    {
        let result: Result<Vec<Decision<V>>, StorageError> = self.protocol.drain_decisions();
        self.drained(result, then)
    }

    /// Makes the next lost proposal again; without one the node waits.
    fn repropose(&mut self, now: u64) -> (action: NodeAction<V>)
        requires
            old(self).wf(),
            old(self).lost.len() > 0 ==> old(self)@.engine.can_propose(),
        ensures
            final(self).wf(),
            old(self)@.goes_on(now, final(self)@, action@),
            action@ matches Answer::StorageFailed(e) ==> old(self).write_fails(e),
    {
        if self.lost.len() == 0 {
            self.phase = Phase::Waiting;
            return NodeAction::Wait;
        }
        let ghost before = self@;
        let value: V = self.lost.remove(0);
        assert(self@.lost =~= before.lost.drop_first());
        assert(value@ == before.lost[0]);
        assert(self@ == (NodeModel { lost: before.lost.drop_first(), ..before }));
        self.handle_proposal(value, now, Then::NextLost)
    }

    /// Stops the node where it has lost its quorum.
    fn miss(&mut self, active_peers: usize) -> (action: NodeAction<V>)
        requires
            old(self).wf(),
            active_peers <= old(self).peers.len(),
        ensures
            final(self).wf(),
            old(self)@.misses(active_peers as nat, final(self)@, action@),
    {
        let quorum: usize = quorum_of(self.peers.len() + 1);
        if active_peers + 1 < quorum && !self.protocol.is_idle() {
            self.phase = Phase::Stopped;
            NodeAction::Stop(Err(NodeError::NoQuorum))
        } else {
            NodeAction::Wait
        }
    }

    /// Takes an event and answers it with what is to be done. A storage error
    /// ends the event loop only where a write to the storage failed with it.
    pub fn step(&mut self, event: NodeEvent<V>, now: u64) -> (action: NodeAction<V>)
        requires
            old(self).wf(),
            old(self)@.takes(event@, now),
        ensures
            final(self).wf(),
            old(self)@.steps(event@, now, final(self)@, action@),
            action@ matches Answer::StorageFailed(e) ==> old(self).write_fails(e),
    {
        match event {
            NodeEvent::Proposal(value) => self.handle_proposal(value, now, Then::Wait),
            NodeEvent::HandlesDropped => {
                self.phase = Phase::Stopped;
                NodeAction::Stop(Ok(()))
            },
            NodeEvent::Incoming { from, variant } => self.handle_incoming(from, variant, now),
            NodeEvent::Undecodable => NodeAction::Wait,
            NodeEvent::PeerLost => {
                self.active_peers = self.active_peers - 1;
                let left: usize = self.active_peers;
                self.miss(left)
            },
            NodeEvent::ReceiverFailed => self.miss(0),
            NodeEvent::Tick => self.handle_retries(now),
            NodeEvent::Done => match self.phase {
                Phase::Sending { then } => self.process_decisions(then),
                Phase::Delivering { then } => match then {
                    Then::Wait => {
                        self.phase = Phase::Waiting;
                        NodeAction::Wait
                    },
                    Then::TakeLost => {
                        self.lost = self.protocol.take_lost_proposals();
                        self.repropose(now)
                    },
                    Then::NextLost => self.repropose(now),
                },
                _ => NodeAction::Wait,
            },
        }
    }
}

/// Whether a message for `target` goes to the `i`-th of `peers`: a broadcast to
/// every peer, a message for one peer to the first entry with its name.
pub open spec fn reaches(target: Target, peers: Seq<NodeName>, i: int) -> bool {
    match target {
        Target::Broadcast => true,
        Target::Peer(name) => peers[i] == name && forall|j: int|
            0 <= j < i ==> #[trigger] peers[j] != name,
    }
}

/// The positions of the peers that a message goes to, in order. A message for a
/// node that is no peer goes nowhere.
pub fn recipients(target: &SendTarget, peers: &Vec<NodeId>) -> (list: Vec<usize>)
    ensures
        forall|k: int|
            0 <= k < list.len() ==> (#[trigger] list[k]) < peers.len() && reaches(
                target@,
                views(peers@),
                list[k] as int,
            ),
        forall|i: int|
            0 <= i < peers.len() && #[trigger] reaches(target@, views(peers@), i)
                ==> list@.contains(i as usize),
        forall|k: int, m: int| 0 <= k < m < list.len() ==> list[k] < list[m],
{
    let mut list: Vec<usize> = Vec::new();
    let ghost names = views(peers@);
    let mut i: usize = 0;
    while i < peers.len()
        invariant
            i <= peers.len(),
            names == views(peers@),
            forall|k: int|
                0 <= k < list.len() ==> (#[trigger] list[k]) < i && reaches(
                    target@,
                    names,
                    list[k] as int,
                ),
            forall|j: int|
                0 <= j < i && #[trigger] reaches(target@, names, j) ==> list@.contains(j as usize),
            forall|k: int, m: int| 0 <= k < m < list.len() ==> list[k] < list[m],
            target@ is Peer ==> forall|j: int|
                0 <= j < i ==> #[trigger] names[j] != target@->Peer_0,
        decreases peers.len() - i,
    {
        let goes: bool = match target {
            SendTarget::Broadcast => true,
            SendTarget::Peer(name) => peers[i] == *name,
        };
        let ghost was = list@;
        assert(names[i as int] == peers[i as int]@);
        if goes {
            list.push(i);
            assert(list[list.len() - 1] == i);
            assert forall|j: int| 0 <= j < i + 1 && #[trigger] reaches(target@, names, j) implies
                list@.contains(j as usize) by {
                if j < i {
                    let k = choose|k: int| 0 <= k < was.len() && was[k] == j as usize;
                    assert(list[k] == j as usize);
                }
            }
            if let SendTarget::Peer(_) = target {
                assert forall|j: int|
                    0 <= j < peers.len() && #[trigger] reaches(target@, names, j) implies
                    list@.contains(j as usize) by {
                    if j > i {
                        assert(names[i as int] != target@->Peer_0);
                    }
                }
                return list;
            }
        }
        i += 1;
    }
    list
}

} // verus!
