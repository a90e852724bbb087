//! The algorithm a node runs, behind one interface.
use crate::config::{NodeId, NodeName};
use crate::error::StorageError;
use crate::message::{
    decided, no_messages, packets, wire_paxos, wire_raft, wired_paxos, wired_raft, Decision,
    Outgoing, Packet, Wire, WireVariant,
};
use crate::paxos_model::{changed_states, Instance, PaxosState};
use crate::paxos_protocol::{
    concluded, concluding_failed, noted, noting_failed, PaxosProtocol,
};
use crate::raft::RaftProtocol;
use crate::raft_laws::{flushing_keeps_the_mirror, Event};
use crate::raft_model::{cut_short, saved, saving_failed, written, RaftState, Role};
use crate::random::timeout_allowed;
use crate::storage::{
    flush_fails, load_fails, raft_flush_fails, raft_load_fails, raft_save_fails, save_fails,
    PaxosStored, RaftStorage, RaftStored, Storage,
};
use crate::value::{views, Value};
use vstd::prelude::*;

verus! {

/// A protocol state machine with its storage.
pub enum ProtocolImpl<V, PS, RS> {
    Paxos(PaxosProtocol<V, PS>),
    Raft(RaftProtocol<V, RS>),
}

/// The model of [`ProtocolImpl`].
#[allow(inconsistent_fields)]
#[verifier::reject_recursive_types(T)]
pub enum Engine<T> {
    Paxos { state: PaxosState<T>, stored: PaxosStored<T> },
    Raft { state: RaftState<T>, stored: RaftStored<T> },
}

impl<T> Engine<T> {
    /// Whether a proposal can be taken in: slots end with the last number there
    /// is.
    pub open spec fn can_propose(self) -> bool {
        match self {
            Engine::Paxos { state, .. } => state.next_slot < u64::MAX,
            Engine::Raft { .. } => true,
        }
    }

    /// Whether a message can be handled.
    pub open spec fn can_receive(self, from: NodeName, message: Wire<T>) -> bool {
        match (self, message) {
            (Engine::Paxos { state, .. }, Wire::Paxos(m)) => state.can_handle(from, m),
            _ => true,
        }
    }

    /// Whether time can pass.
    pub open spec fn can_tick(self, now: u64) -> bool {
        match self {
            Engine::Paxos { state, .. } => state.can_tick(now),
            Engine::Raft { state, .. } => state.election_due(now) ==> state.current_term
                < u64::MAX,
        }
    }

    /// Whether the storage can be loaded.
    pub open spec fn can_recover(self) -> bool {
        match self {
            Engine::Paxos { stored, .. } => !stored.decisions.contains_key(u64::MAX)
                && !stored.acceptors.contains_key(u64::MAX),
            Engine::Raft { .. } => true,
        }
    }

    /// A proposal is taken in.
    pub open spec fn proposes(
        self,
        value: T,
        now: u64,
        after: Engine<T>,
        out: Seq<Packet<Wire<T>>>,
    ) -> bool {
        match (self, after) {
            (Engine::Paxos { state, stored }, Engine::Paxos { state: t, stored: u }) => {
                &&& u == stored
                &&& exists|jitter: u64|
                    jitter <= 50 && t == (#[trigger] state.propose(value, now, jitter)).0 && out
                        == wired_paxos(state.propose(value, now, jitter).1)
            },
            (Engine::Raft { state, stored }, Engine::Raft { state: t, stored: u }) => {
                &&& u == stored
                &&& t == state.propose(value, now).0
                &&& out == wired_raft(state.propose(value, now).1)
            },
            _ => false,
        }
    }

    /// A message is handled; one of the other algorithm is dropped.
    pub open spec fn receives(
        self,
        from: NodeName,
        message: Wire<T>,
        now: u64,
        after: Engine<T>,
        out: Seq<Packet<Wire<T>>>,
    ) -> bool {
        match (self, message, after) {
            (
                Engine::Paxos { state, stored },
                Wire::Paxos(m),
                Engine::Paxos { state: t, stored: u },
            ) => {
                &&& u == stored
                &&& exists|jitter: u64|
                    jitter <= state.nack_delay(m) / 2 && t == (#[trigger] state.receive(
                        from,
                        m,
                        now,
                        jitter,
                    )).0 && out == wired_paxos(state.receive(from, m, now, jitter).1)
            },
            (Engine::Raft { state, stored }, Wire::Raft(m), Engine::Raft { state: t, stored: u }) => {
                &&& u == stored
                &&& exists|timeout: u64| #[trigger]
                    timeout_allowed(state.config, timeout) && t == state.receive(
                        from,
                        m,
                        now,
                        timeout,
                    ).0 && out == wired_raft(state.receive(from, m, now, timeout).1)
            },
            (Engine::Paxos { .. }, Wire::Raft(_), _) => after == self && out == Seq::<
                Packet<Wire<T>>,
            >::empty(),
            (Engine::Raft { .. }, Wire::Paxos(_), _) => after == self && out == Seq::<
                Packet<Wire<T>>,
            >::empty(),
            _ => false,
        }
    }

    /// Time passes.
    pub open spec fn ticks(self, now: u64, after: Engine<T>, out: Seq<Packet<Wire<T>>>) -> bool {
        match (self, after) {
            (Engine::Paxos { state, stored }, Engine::Paxos { state: t, stored: u }) => {
                &&& u == stored
                &&& exists|plan: Seq<(u64, u64)>| #[trigger]
                    state.plans(plan, now) && t == state.ticked(plan, now).0 && out == wired_paxos(
                        state.ticked(plan, now).1,
                    )
            },
            (Engine::Raft { state, stored }, Engine::Raft { state: t, stored: u }) => {
                &&& u == stored
                &&& exists|timeout: u64| #[trigger]
                    timeout_allowed(state.config, timeout) && t == state.tick(now, timeout).0
                        && out == wired_raft(state.tick(now, timeout).1)
            },
            _ => false,
        }
    }

    /// Whether nothing has to be written.
    pub open spec fn clean(self) -> bool {
        match self {
            Engine::Paxos { state, .. } => changed_states(state.dirty, state.instances).len() == 0,
            Engine::Raft { state, .. } => state.clean(),
        }
    }

    /// What has to be persisted is written. Where a write fails, those before it
    /// are done and those after it are not. Where nothing has to be written,
    /// nothing fails.
    pub open spec fn flushes(self, after: Engine<T>, ok: bool) -> bool {
        match (self, after) {
            (Engine::Paxos { state, stored }, Engine::Paxos { state: t, stored: u }) => {
                &&& self.clean() ==> ok
                &&& t == (PaxosState { dirty: Seq::empty(), ..state })
                &&& ok ==> u == (PaxosStored {
                    acceptors: noted(
                        stored.acceptors,
                        changed_states(state.dirty, state.instances),
                    ),
                    ..stored
                })
                &&& !ok ==> noting_failed(
                    stored,
                    changed_states(state.dirty, state.instances),
                    u,
                )
            },
            (Engine::Raft { state, stored }, Engine::Raft { state: t, stored: u }) => {
                &&& self.clean() ==> ok
                &&& t == state.persisted()
                &&& ok ==> u == written(stored, state.persist_intent())
                &&& !ok ==> cut_short(stored, state.persist_intent(), u)
            },
            _ => false,
        }
    }

    /// The decisions that wait for delivery.
    pub open spec fn waiting(self) -> Seq<(u64, T)> {
        match self {
            Engine::Paxos { state, .. } => state.pending_decisions,
            Engine::Raft { state, .. } => state.pending_decisions,
        }
    }

    /// The decisions that wait for delivery are saved and taken. Where a save
    /// fails, those before it are done and those after it are not. Where none
    /// waits, nothing fails.
    pub open spec fn drains(self, after: Engine<T>, ok: bool) -> bool {
        match (self, after) {
            (Engine::Paxos { state, stored }, Engine::Paxos { state: t, stored: u }) => {
                &&& self.waiting().len() == 0 ==> ok
                &&& t == (PaxosState { pending_decisions: Seq::empty(), ..state })
                &&& ok ==> u == concluded(stored, state.pending_decisions)
                &&& !ok ==> concluding_failed(stored, state.pending_decisions, u)
            },
            (Engine::Raft { state, stored }, Engine::Raft { state: t, stored: u }) => {
                &&& self.waiting().len() == 0 ==> ok
                &&& t == (RaftState { pending_decisions: Seq::empty(), ..state })
                &&& ok ==> u == (RaftStored {
                    decisions: saved(stored.decisions, state.pending_decisions),
                    ..stored
                })
                &&& !ok ==> saving_failed(stored, state.pending_decisions, u)
            },
            _ => false,
        }
    }

    /// The proposals that have to be made again.
    pub open spec fn lost(self) -> Seq<T> {
        match self {
            Engine::Paxos { state, .. } => state.lost,
            Engine::Raft { state, .. } => state.lost_proposals,
        }
    }

    /// The engine once the lost proposals were taken.
    pub open spec fn without_lost(self) -> Engine<T> {
        match self {
            Engine::Paxos { state, stored } => Engine::Paxos {
                state: PaxosState { lost: Seq::empty(), ..state },
                stored,
            },
            Engine::Raft { state, stored } => Engine::Raft {
                state: RaftState { lost_proposals: Seq::empty(), ..state },
                stored,
            },
        }
    }

    /// Whether the node has no work of its own.
    pub open spec fn idle(self) -> bool {
        match self {
            Engine::Paxos { state, .. } => state.instances == Map::<u64, Instance<T>>::empty(),
            Engine::Raft { state, .. } => state.idle(),
        }
    }

    /// The storage is loaded.
    pub open spec fn recovers(self, now: u64, after: Engine<T>) -> bool {
        match (self, after) {
            (Engine::Paxos { state, stored }, Engine::Paxos { state: t, stored: u }) => {
                &&& u == stored
                &&& state.recovers(stored, t)
            },
            (Engine::Raft { state, stored }, Engine::Raft { state: t, stored: u }) => {
                &&& u == stored
                &&& exists|timeout: u64| #[trigger]
                    timeout_allowed(state.config, timeout) && t == state.restored(
                        stored.term,
                        stored.voted_for,
                        stored.log,
                        stored.decisions.dom(),
                        stored.commit_index,
                        now,
                        timeout,
                    )
            },
            _ => false,
        }
    }
}

/// What an event of a Raft node without pending work marks for persistence lies
/// within its log.
proof fn lemma_marks_in_log<T>(s: RaftState<T>, event: Event<T>)
    requires
        s.allows(event),
        s.clean(),
        s.log.len() <= u64::MAX,
        s.after_event(event).log.len() <= u64::MAX,
    ensures
        s.after_event(event).pending_persist_log_from matches Some(from) ==> from <= s.after_event(
            event,
        ).log.len(),
{
    let stored = RaftStored {
        decisions: Map::<u64, T>::empty(),
        term: s.current_term,
        voted_for: s.voted_for,
        log: s.log,
        commit_index: s.commit_index,
    };
    flushing_keeps_the_mirror(s, stored, event);
}

impl<V: Value, PS: Storage<V>, RS: RaftStorage<V>> ProtocolImpl<V, PS, RS> {
    pub open spec fn engine(&self) -> Engine<V::V> {
        match self {
            ProtocolImpl::Paxos(p) => Engine::Paxos { state: p.state@, stored: p.storage.stored() },
            ProtocolImpl::Raft(p) => Engine::Raft { state: p@, stored: p.storage.stored() },
        }
    }

    /// The state machine is well-formed, and what it marked for persistence can
    /// be written.
    pub open spec fn wf(&self) -> bool {
        match self {
            ProtocolImpl::Paxos(p) => p.wf(),
            ProtocolImpl::Raft(p) => p.wf() && (p.pending_persist_log_from matches Some(from)
                ==> from <= p.log.len()),
        }
    }

    /// Whether nothing is marked for persistence.
    pub open spec fn settled(&self) -> bool {
        &&& self.wf()
        &&& self matches ProtocolImpl::Raft(p) ==> p@.clean()
    }

    /// Whether a proposal can be taken in.
    pub fn can_propose(&self) -> (r: bool)
        ensures
            r == self.engine().can_propose(),
    {
        match self {
            ProtocolImpl::Paxos(p) => p.state.next_slot < u64::MAX,
            ProtocolImpl::Raft(_) => true,
        }
    }

    /// Whether a message can be handled.
    pub fn can_receive(&self, from: &NodeId, variant: &WireVariant<V>) -> (r: bool)
        requires
            self.wf(),
        ensures
            r == self.engine().can_receive(from@, variant@),
    {
        match (self, variant) {
            (ProtocolImpl::Paxos(p), WireVariant::Paxos(m)) => p.state.can_handle(from, m),
            (_, _) => true,
        }
    }

    /// Whether time can pass.
    pub fn can_tick(&self, now: u64) -> (r: bool)
        requires
            self.wf(),
        ensures
            r == self.engine().can_tick(now),
    {
        match self {
            ProtocolImpl::Paxos(p) => p.can_tick(now),
            ProtocolImpl::Raft(p) => p.role == Role::Leader || now < p.election_deadline
                || p.current_term < u64::MAX,
        }
    }

    /// Whether what is persisted can be loaded.
    pub fn can_recover(&self) -> (r: Result<bool, StorageError>)
        ensures
            r matches Ok(yes) ==> yes == self.engine().can_recover(),
            r matches Err(e) ==> self.load_fails(e),
            self is Raft ==> r is Ok,
    {
        match self {
            ProtocolImpl::Paxos(p) => p.can_recover(),
            ProtocolImpl::Raft(_) => Ok(true),
        }
    }

    /// Whether one of the loads from the storage can fail with this error.
    pub open spec fn load_fails(&self, e: StorageError) -> bool {
        match self {
            ProtocolImpl::Paxos(p) => load_fails::<V, PS>(p.storage, e),
            ProtocolImpl::Raft(p) => raft_load_fails::<V, RS>(p.storage, e),
        }
    }

    /// Loads the persisted state. Where a load fails, its error is returned and
    /// the state stays as it was; there is no other failure.
    pub fn recover(&mut self, now: u64) -> (r: Result<(), StorageError>)
        requires
            old(self).settled(),
            old(self).engine().can_recover(),
        ensures
            final(self).settled(),
            r is Ok ==> old(self).engine().recovers(now, final(self).engine()),
            r is Err ==> final(self).engine() == old(self).engine(),
            r matches Err(e) ==> old(self).load_fails(e),
    {
        match self {
            ProtocolImpl::Paxos(p) => p.recover(),
            ProtocolImpl::Raft(p) => p.recover(now),
        }
    }

    /// Takes in a proposal.
    pub fn propose(&mut self, value: V, now: u64) -> (out: Vec<Outgoing<WireVariant<V>>>)
        requires
            old(self).settled(),
            old(self).engine().can_propose(),
        ensures
            final(self).wf(),
            old(self).engine().proposes(value@, now, final(self).engine(), packets(out@)),
    {
        match self {
            ProtocolImpl::Paxos(p) => {
                let (_slot, out) = p.state.propose(value, now);
                wire_paxos(out)
            },
            ProtocolImpl::Raft(p) => {
                let ghost before = p@;
                assert(before.log.len() == p.log.len());
                let out: Vec<Outgoing<_>> = p.propose(value, now);
                assert(p@.log.len() == p.log.len());
                proof {
                    lemma_marks_in_log(before, Event::Propose { value: value@, now });
                }
                wire_raft(out)
            },
        }
    }

    /// Handles a message; one of the other algorithm is dropped.
    pub fn handle_wire_message(&mut self, from: NodeId, variant: WireVariant<V>, now: u64) -> (out:
        Vec<Outgoing<WireVariant<V>>>)
        requires
            old(self).settled(),
            old(self).engine().can_receive(from@, variant@),
        ensures
            final(self).wf(),
            old(self).engine().receives(
                from@,
                variant@,
                now,
                final(self).engine(),
                packets(out@),
            ),
    {
        match (self, variant) {
            (ProtocolImpl::Paxos(p), WireVariant::Paxos(m)) => {
                let out: Vec<Outgoing<_>> = p.state.handle_message(from, m, now);
                wire_paxos(out)
            },
            (ProtocolImpl::Raft(p), WireVariant::Raft(m)) => {
                let ghost before = p@;
                assert(before.log.len() == p.log.len());
                let out: Vec<Outgoing<_>> = p.handle_message(from, m, now);
                assert(p@.log.len() == p.log.len());
                proof {
                    let timeout = choose|timeout: u64| #[trigger]
                        timeout_allowed(before.config, timeout) && (p@, packets(out@))
                            == before.receive(from@, m@, now, timeout);
                    lemma_marks_in_log(
                        before,
                        Event::Receive { from: from@, message: m@, now, timeout },
                    );
                }
                wire_raft(out)
            },
            (_, _) => no_messages(),
        }
    }

    /// Lets time pass.
    pub fn on_tick(&mut self, now: u64) -> (out: Vec<Outgoing<WireVariant<V>>>)
        requires
            old(self).settled(),
            old(self).engine().can_tick(now),
        ensures
            final(self).wf(),
            old(self).engine().ticks(now, final(self).engine(), packets(out@)),
    {
        match self {
            ProtocolImpl::Paxos(p) => {
                let out: Vec<Outgoing<_>> = p.on_tick(now);
                wire_paxos(out)
            },
            ProtocolImpl::Raft(p) => {
                let ghost before = p@;
                assert(before.log.len() == p.log.len());
                let out: Vec<Outgoing<_>> = p.on_tick(now);
                assert(p@.log.len() == p.log.len());
                proof {
                    let timeout = choose|timeout: u64| #[trigger]
                        timeout_allowed(before.config, timeout) && (p@, packets(out@))
                            == before.tick(now, timeout);
                    lemma_marks_in_log(before, Event::Tick { now, timeout });
                }
                wire_raft(out)
            },
        }
    }

    /// Whether a write of what the node has to remember can fail with this error.
    pub open spec fn flush_fails(&self, e: StorageError) -> bool {
        match self {
            ProtocolImpl::Paxos(_) => flush_fails::<V, PS>(e),
            ProtocolImpl::Raft(_) => raft_flush_fails::<V, RS>(e),
        }
    }

    /// Whether saving a decision can fail with this error.
    pub open spec fn save_fails(&self, e: StorageError) -> bool {
        match self {
            ProtocolImpl::Paxos(_) => save_fails::<V, PS>(e),
            ProtocolImpl::Raft(_) => raft_save_fails::<V, RS>(e),
        }
    }

    /// Writes what has to be persisted. The only failure is that of a write.
    pub fn flush_persist(&mut self) -> (r: Result<(), StorageError>)
        requires
            old(self).wf(),
        ensures
            final(self).settled(),
            old(self).engine().flushes(final(self).engine(), r is Ok),
            r matches Err(e) ==> old(self).flush_fails(e),
    {
        match self {
            ProtocolImpl::Paxos(p) => p.flush_persist(),
            ProtocolImpl::Raft(p) => p.flush_persist(),
        }
    }

    /// Takes the decisions that are ready to be delivered, once each is saved. The
    /// only failure is that of a save.
    pub fn drain_decisions(&mut self) -> (r: Result<Vec<Decision<V>>, StorageError>)
        requires
            old(self).settled(),
        ensures
            final(self).settled(),
            old(self).engine().drains(final(self).engine(), r is Ok),
            r matches Ok(taken) ==> decided(taken@) == old(self).engine().waiting(),
            r matches Err(e) ==> old(self).save_fails(e),
    {
        match self {
            ProtocolImpl::Paxos(p) => p.drain_decisions(),
            ProtocolImpl::Raft(p) => p.drain_decisions(),
        }
    }

    /// Takes the proposals that have to be made again.
    pub fn take_lost_proposals(&mut self) -> (taken: Vec<V>)
        requires
            old(self).settled(),
        ensures
            final(self).settled(),
            views(taken@) == old(self).engine().lost(),
            final(self).engine() == old(self).engine().without_lost(),
    {
        match self {
            ProtocolImpl::Paxos(p) => p.state.take_lost_proposals(),
            ProtocolImpl::Raft(p) => p.take_lost_proposals(),
        }
    }

    /// Whether proposals have to be made again.
    pub fn has_lost_proposals(&self) -> (r: bool)
        ensures
            r == (self.engine().lost().len() > 0),
    {
        match self {
            ProtocolImpl::Paxos(p) => p.state.lost_proposals.len() > 0,
            ProtocolImpl::Raft(p) => p.lost_proposals.len() > 0,
        }
    }

    /// Whether the node has no work of its own.
    pub fn is_idle(&self) -> (idle: bool)
        ensures
            idle == self.engine().idle(),
    {
        match self {
            ProtocolImpl::Paxos(p) => p.state.is_idle(),
            ProtocolImpl::Raft(p) => p.is_idle(),
        }
    }
}

} // verus!
