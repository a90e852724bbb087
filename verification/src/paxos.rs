//! The Multi-Paxos state machine.
//!
//! A [`ProtocolState`] holds the state of one node over all slots. Its methods
//! take an event and return the messages to send; `paxos_model` says what each
//! does.
use crate::collections::{slots_of, NodeSet};
use crate::config::NodeId;
use crate::message::{
    copy_number, decided, no_messages, number_less, number_same, packets, to_all, to_peer, Ballot,
    Decision, MessageVariant, Outgoing, PaxosMsg, ProposalNumber, SendTarget,
};
use crate::paxos_model::{
    backoff, changed_states, decide_broadcasts, round_max, still_recent, with_acceptors,
    with_decisions, Instance, PaxosState, REBROADCAST_MILLIS,
};
use crate::raft::quorum_of;
use crate::random::sample_jitter;
use crate::storage::{copy_accepted, copy_number_opt, table, AcceptorState};
use crate::value::{opt, views, Value};
use std::collections::HashMap;
use vstd::prelude::*;

verus! {

broadcast use vstd::std_specs::hash::group_hash_axioms;

/// Per-slot Paxos instance.
pub struct PaxosInstance<V> {
    // Proposer state: promises of phase 1, acceptances of phase 2.
    pub proposal_number: ProposalNumber,
    pub promises_received: NodeSet,
    pub accepts_received: NodeSet,
    // The highest-numbered accepted proposal among the promises of this round.
    pub highest_accepted: Option<(ProposalNumber, V)>,
    pub proposed_value: Option<V>,
    // The value that phase 2 of this round asks for.
    pub asked_value: Option<V>,
    // Acceptor state, independent of the proposer's rounds.
    pub highest_promised: Option<ProposalNumber>,
    pub accepted: Option<(ProposalNumber, V)>,
    pub decided: bool,
    // Whether this node initiated the proposal for this slot.
    pub is_proposer: bool,
    pub nacked: bool,
    pub highest_seen_nack: Option<u64>,
    pub last_nack_time: Option<u64>,
    pub retry_count: u32,
    // When this instance last sent messages (propose or retry).
    pub last_send_time: Option<u64>,
    // Earliest time at which the next retry is allowed.
    pub next_retry_at: Option<u64>,
}

impl<V: View> View for PaxosInstance<V> {
    type V = Instance<V::V>;

    open spec fn view(&self) -> Instance<V::V> {
        Instance {
            number: self.proposal_number@,
            promises: self.promises_received@,
            accepts: self.accepts_received@,
            highest_accepted: opt(self.highest_accepted),
            proposed: opt(self.proposed_value),
            asked: opt(self.asked_value),
            promised: opt(self.highest_promised),
            accepted: opt(self.accepted),
            decided: self.decided,
            is_proposer: self.is_proposer,
            nacked: self.nacked,
            highest_nack: self.highest_seen_nack,
            last_nack_time: self.last_nack_time,
            retry_count: self.retry_count,
            last_send_time: self.last_send_time,
            next_retry_at: self.next_retry_at,
        }
    }
}

/// The longest jitter there is: half the longest delay.
pub const MAX_JITTER: u64 = 400;

/// The delay before a proposal is tried again.
pub fn backoff_millis(retry_count: u32) -> (delay: u64)
    ensures
        delay == backoff(retry_count),
        delay <= 800,
{
    match retry_count {
        0 => 100,
        1 => 200,
        2 => 400,
        _ => 800,
    }
}

/// The higher of an optional round and another one.
fn max_round(a: Option<u64>, b: u64) -> (r: u64)
    ensures
        r == round_max(a, b),
{
    match a {
        Some(x) => if x >= b {
            x
        } else {
            b
        },
        None => b,
    }
}

impl<V: Value> PaxosInstance<V> {
    /// The sets of votes hold no identity twice.
    pub open spec fn wf(&self) -> bool {
        self.promises_received.wf() && self.accepts_received.wf()
    }

    /// A slot of which nothing was heard yet.
    pub fn new(_slot: u64) -> (instance: Self)
        ensures
            instance.wf(),
            instance@ == Instance::<V::V>::fresh(),
    {
        proof {
            reveal_strlit("");
        }
        let instance = PaxosInstance {
            proposal_number: (0, NodeId::new("", 0)),
            promises_received: NodeSet::new(),
            accepts_received: NodeSet::new(),
            highest_accepted: None,
            proposed_value: None,
            asked_value: None,
            highest_promised: None,
            accepted: None,
            decided: false,
            is_proposer: false,
            nacked: false,
            highest_seen_nack: None,
            last_nack_time: None,
            retry_count: 0,
            last_send_time: None,
            next_retry_at: None,
        };
        assert(instance@.number.1.name =~= Seq::empty());
        assert(instance@ =~= Instance::<V::V>::fresh());
        instance
    }

    /// Whether the acceptor promises `number`.
    fn promises_to(&self, number: &ProposalNumber) -> (r: bool)
        ensures
            r == self@.promises_to(number@),
    {
        match &self.highest_promised {
            Some(promised) => number_less(promised, number),
            None => true,
        }
    }

    /// Whether the acceptor accepts `number`.
    fn accepts_at(&self, number: &ProposalNumber) -> (r: bool)
        ensures
            r == self@.accepts_at(number@),
    {
        match &self.highest_promised {
            Some(promised) => !number_less(number, promised),
            None => true,
        }
    }

    /// Counts a promise and keeps the highest-numbered accepted proposal.
    fn add_promise(&mut self, from: NodeId, accepted: Option<(ProposalNumber, V)>)
        requires
            old(self).wf(),
        ensures
            final(self).wf(),
            final(self)@ == old(self)@.with_promise(from@, opt(accepted)),
    {
        self.promises_received.insert(from);
        if let Some(new) = accepted {
            let higher: bool = match &self.highest_accepted {
                Some(old) => number_less(&old.0, &new.0),
                None => true,
            };
            if higher {
                self.highest_accepted = Some(new);
            }
        }
    }

    /// Remembers a refusal.
    fn refuse(&mut self, round: u64, now: u64, jitter: u64)
        requires
            old(self).wf(),
            jitter <= MAX_JITTER,
        ensures
            final(self).wf(),
            final(self)@ == old(self)@.refused(round, now, jitter),
    {
        self.nacked = true;
        self.last_nack_time = Some(now);
        self.highest_seen_nack = Some(max_round(self.highest_seen_nack, round));
        self.next_retry_at = Some(now.saturating_add(backoff_millis(self.retry_count) + jitter));
    }

    /// Opens round 1 for `value`.
    fn open(&mut self, node: &NodeId, value: V, now: u64, jitter: u64)
        requires
            old(self).wf(),
            jitter <= MAX_JITTER,
        ensures
            final(self).wf(),
            final(self)@ == old(self)@.opened(node@, value@, now, jitter),
    {
        let number: ProposalNumber = (1, node.clone());
        if self.accepts_at(&number) {
            let accepted: Option<(ProposalNumber, V)> = copy_accepted(&self.accepted);
            self.highest_promised = Some(copy_number(&number));
            self.add_promise(node.clone(), accepted);
        }
        assert(self@ == old(self)@.phase1_voted(node@, number@));
        self.proposal_number = number;
        self.proposed_value = Some(value);
        self.asked_value = None;
        self.is_proposer = true;
        self.last_send_time = Some(now);
        self.next_retry_at = Some(now.saturating_add(100 + jitter));
    }

    /// The round that a retry has to exceed.
    fn last_round(&self) -> (round: u64)
        ensures
            round == self@.last_round(),
    {
        let promised: Option<u64> = match &self.highest_promised {
            Some(p) => Some(p.0),
            None => None,
        };
        let nack: u64 = match self.highest_seen_nack {
            Some(r) => r,
            None => 0,
        };
        max_round(Some(max_round(promised, nack)), self.proposal_number.0)
    }

    /// Opens the next round.
    fn reopen(&mut self, node: &NodeId, now: u64, jitter: u64)
        requires
            old(self).wf(),
            old(self)@.last_round() < u64::MAX,
            old(self).retry_count < u32::MAX,
            jitter <= MAX_JITTER,
        ensures
            final(self).wf(),
            final(self)@ == old(self)@.reopened(node@, now, jitter),
    {
        let round: u64 = self.last_round() + 1;
        self.proposal_number = (round, node.clone());
        self.promises_received.clear();
        self.accepts_received.clear();
        self.highest_accepted = copy_accepted(&self.accepted);
        self.asked_value = None;
        self.nacked = false;
        self.highest_seen_nack = None;
        self.last_nack_time = None;
        self.retry_count = self.retry_count + 1;
        self.last_send_time = Some(now);
        self.next_retry_at = Some(now.saturating_add(backoff_millis(self.retry_count) + jitter));
        self.highest_promised = Some((round, node.clone()));
        self.promises_received.insert(node.clone());
        assert(self@ =~= old(self)@.reopened(node@, now, jitter));
    }

    /// Whether the proposal is due for another round.
    fn retryable(&self, quorum: usize, now: u64) -> (r: bool)
        requires
            self.wf(),
        ensures
            r == self@.retryable(quorum as nat, now),
    {
        if self.decided || !self.is_proposer {
            return false;
        }
        let due: bool = match self.next_retry_at {
            Some(t) => now >= t,
            None => false,
        };
        if !due {
            return false;
        }
        if self.nacked {
            return true;
        }
        if !self.accepts_received.is_empty() {
            self.accepts_received.len() < quorum
        } else {
            self.promises_received.len() < quorum
        }
    }
}

/// Manages all active Paxos instances.
pub struct ProtocolState<V> {
    pub node_id: NodeId,
    pub instances: HashMap<u64, PaxosInstance<V>>,
    pub next_slot: u64,
    pub quorum_size: usize,
    pub decided_slots: HashMap<u64, V>,
    pub pending_decisions: Vec<Decision<V>>,
    pub lost_proposals: Vec<V>,
    // Recent decisions, sent again so that peers that missed one can learn it.
    pub recent_decisions: Vec<(u64, u64, V)>,
    // Slots whose acceptor state has changed since it was last taken.
    pub dirty_acceptor_slots: Vec<u64>,
}

impl<V: Value> View for ProtocolState<V> {
    type V = PaxosState<V::V>;

    open spec fn view(&self) -> PaxosState<V::V> {
        PaxosState {
            node_id: self.node_id@,
            instances: table(self.instances@),
            next_slot: self.next_slot,
            quorum: self.quorum_size as nat,
            decided: table(self.decided_slots@),
            pending_decisions: decided(self.pending_decisions@),
            lost: views(self.lost_proposals@),
            recent: views(self.recent_decisions@),
            dirty: self.dirty_acceptor_slots@,
        }
    }
}

impl<V: Value> ProtocolState<V> {
    /// The vote sets are well-formed, and every open proposal has a value.
    pub open spec fn wf(&self) -> bool {
        &&& forall|slot: u64| #[trigger]
            self.instances@.contains_key(slot) ==> self.instances@[slot].wf()
        &&& self@.sound()
    }

    /// Creates a node that knows nothing, in a cluster of `total_nodes`.
    pub fn new(node_id: NodeId, total_nodes: usize) -> (state: Self)
        ensures
            state.wf(),
            state@ == PaxosState::<V::V>::initial(node_id@, total_nodes),
    {
        let state = ProtocolState {
            node_id,
            instances: HashMap::new(),
            next_slot: 0,
            quorum_size: quorum_of(total_nodes),
            decided_slots: HashMap::new(),
            pending_decisions: Vec::new(),
            lost_proposals: Vec::new(),
            recent_decisions: Vec::new(),
            dirty_acceptor_slots: Vec::new(),
        };
        assert(state@ =~= PaxosState::<V::V>::initial(node_id@, total_nodes));
        state
    }

    /// Whether no slot is open.
    pub fn is_idle(&self) -> (idle: bool)
        ensures
            idle == (self@.instances == Map::<u64, Instance<V::V>>::empty()),
    {
        let n: usize = self.instances.len();
        proof {
            if n == 0 {
                assert(self.instances@.dom() =~= Set::empty());
                assert(self@.instances =~= Map::empty());
            } else {
                if self@.instances == Map::<u64, Instance<V::V>>::empty() {
                    assert(self.instances@.dom() =~= self@.instances.dom());
                }
            }
        }
        n == 0
    }

    /// Takes the decisions that are ready to be delivered.
    pub fn take_decisions(&mut self) -> (taken: Vec<Decision<V>>)
        requires
            old(self).wf(),
        ensures
            final(self).wf(),
            decided(taken@) == old(self)@.pending_decisions,
            final(self)@ == (PaxosState { pending_decisions: Seq::empty(), ..old(self)@ }),
    {
        let mut taken: Vec<Decision<V>> = Vec::new();
        std::mem::swap(&mut taken, &mut self.pending_decisions);
        assert(decided(self.pending_decisions@) =~= Seq::empty());
        taken
    }

    /// Takes the proposals of this node that lost their slot.
    pub fn take_lost_proposals(&mut self) -> (taken: Vec<V>)
        requires
            old(self).wf(),
        ensures
            final(self).wf(),
            views(taken@) == old(self)@.lost,
            final(self)@ == (PaxosState { lost: Seq::empty(), ..old(self)@ }),
    {
        let mut taken: Vec<V> = Vec::new();
        std::mem::swap(&mut taken, &mut self.lost_proposals);
        assert(views(self.lost_proposals@) =~= Seq::empty());
        taken
    }

    /// The instance of a slot, taken out of the table.
    fn take_instance(&mut self, slot: u64) -> (instance: PaxosInstance<V>)
        requires
            old(self).wf(),
        ensures
            instance.wf(),
            instance@ == old(self)@.instance(slot),
            final(self).instances@ == old(self).instances@.remove(slot),
            *final(self) == (ProtocolState { instances: final(self).instances, ..*old(self) }),
            final(self)@ == (PaxosState {
                instances: old(self)@.instances.remove(slot),
                ..old(self)@
            }),
            final(self).wf(),
    {
        let instance: PaxosInstance<V> = match self.instances.remove(&slot) {
            Some(instance) => instance,
            None => PaxosInstance::new(slot),
        };
        assert(self@.instances =~= old(self)@.instances.remove(slot));
        proof {
            assert forall|other: u64| #[trigger]
                self@.instances.contains_key(other) && self@.instances[other].is_proposer implies
                self@.instances[other].proposed is Some && other < u64::MAX by {
                assert(old(self)@.instances.contains_key(other));
            }
        }
        instance
    }

    /// Puts the instance of a slot into the table.
    fn put_instance(&mut self, slot: u64, instance: PaxosInstance<V>)
        requires
            instance.wf(),
            instance@.is_proposer ==> instance@.proposed is Some && slot < u64::MAX,
            forall|other: u64| #[trigger]
                old(self).instances@.contains_key(other) ==> old(self).instances@[other].wf(),
            old(self)@.sound(),
        ensures
            final(self).wf(),
            final(self)@ == old(self)@.with_instance(slot, instance@),
    {
        let ghost i = instance@;
        self.instances.insert(slot, instance);
        assert(table(self.instances@) =~= table(old(self).instances@).insert(slot, i));
        assert(self@ =~= old(self)@.with_instance(slot, i));
        proof {
            assert forall|other: u64| #[trigger]
                self@.instances.contains_key(other) && self@.instances[other].is_proposer implies
                self@.instances[other].proposed is Some && other < u64::MAX by {
                if other != slot {
                    assert(old(self)@.instances.contains_key(other));
                }
            }
        }
    }

    /// The value of an own proposal that loses its slot to `value`.
    fn loser(&self, slot: u64, value: &V) -> (lost: Option<V>)
        ensures
            opt(lost) == (if self@.loses(slot, value@) {
                self@.instance(slot).proposed
            } else {
                None
            }),
    {
        match self.instances.get(&slot) {
            Some(instance) => {
                assert(self@.instances[slot] == instance@);
                if !instance.is_proposer {
                    return None;
                }
                match &instance.proposed_value {
                    Some(proposed) => if proposed.same(value) {
                        None
                    } else {
                        Some(proposed.copied())
                    },
                    None => None,
                }
            },
            None => None,
        }
    }

    /// Records a decision, hands back an own proposal that lost the slot, and
    /// forgets the slot's instance.
    fn decide(&mut self, slot: u64, value: V, now: u64)
        requires
            old(self).wf(),
            slot < u64::MAX,
        ensures
            final(self).wf(),
            final(self)@ == old(self)@.close(slot, value@, now),
    {
        if let Some(proposed) = self.loser(slot, &value) {
            self.lost_proposals.push(proposed);
        }
        self.decided_slots.insert(slot, value.copied());
        self.recent_decisions.push((now, slot, value.copied()));
        if slot >= self.next_slot {
            self.next_slot = slot + 1;
        }
        let ghost v = value@;
        self.pending_decisions.push(Decision { slot, value });
        self.instances.remove(&slot);
        proof {
            let after = old(self)@.close(slot, v, now);
            assert(self@.lost =~= after.lost);
            assert(self@.decided =~= after.decided);
            assert(self@.recent =~= after.recent);
            assert(self@.pending_decisions =~= after.pending_decisions);
            assert(self@.instances =~= after.instances);
            assert(self@ =~= after);
            assert forall|other: u64| #[trigger]
                self@.instances.contains_key(other) && self@.instances[other].is_proposer implies
                self@.instances[other].proposed is Some && other < u64::MAX by {
                assert(old(self)@.instances.contains_key(other));
            }
        }
    }

    /// Notes that the acceptor state of `slot` has changed.
    fn touch(&mut self, slot: u64)
        requires
            old(self).wf(),
        ensures
            final(self).wf(),
            final(self)@ == old(self)@.touched(slot),
    {
        self.dirty_acceptor_slots.push(slot);
    }

    /// Phase 1, acceptor side: promise a number that is strictly greater than
    /// any promised before.
    pub fn handle_prepare(&mut self, from: NodeId, slot: u64, proposal_number: ProposalNumber) -> (out:
        Vec<Outgoing<MessageVariant<V>>>)
        requires
            old(self).wf(),
        ensures
            final(self).wf(),
            (final(self)@, packets(out@)) == old(self)@.on_prepare(from@, slot, proposal_number@),
    {
        if let Some(value) = self.decided_slots.get(&slot) {
            return to_peer(from, MessageVariant::Decide { slot, value: value.copied() });
        }
        let ghost before = self@;
        let mut instance: PaxosInstance<V> = self.take_instance(slot);
        let ghost i = instance@;
        if instance.promises_to(&proposal_number) {
            instance.highest_promised = Some(copy_number(&proposal_number));
            let accepted: Option<(ProposalNumber, V)> = copy_accepted(&instance.accepted);
            assert(instance@ =~= i.promise(proposal_number@));
            self.put_instance(slot, instance);
            self.touch(slot);
            assert(self@ =~= before.with_instance(slot, i.promise(proposal_number@)).touched(slot));
            to_peer(from, MessageVariant::Promise { slot, proposal_number, accepted })
        } else {
            let highest_promised: ProposalNumber = match &instance.highest_promised {
                Some(promised) => copy_number(promised),
                None => copy_number(&proposal_number),
            };
            self.put_instance(slot, instance);
            assert(self@ =~= before);
            to_peer(from, MessageVariant::NackPrepare { slot, proposal_number, highest_promised })
        }
    }

    /// Phase 2, acceptor side: accept unless a higher number was promised.
    pub fn handle_accept(
        &mut self,
        from: NodeId,
        slot: u64,
        proposal_number: ProposalNumber,
        value: V,
    ) -> (out: Vec<Outgoing<MessageVariant<V>>>)
        requires
            old(self).wf(),
        ensures
            final(self).wf(),
            (final(self)@, packets(out@)) == old(self)@.on_accept(
                from@,
                slot,
                proposal_number@,
                value@,
            ),
    {
        if let Some(decided_value) = self.decided_slots.get(&slot) {
            return to_peer(from, MessageVariant::Decide { slot, value: decided_value.copied() });
        }
        let ghost before = self@;
        let mut instance: PaxosInstance<V> = self.take_instance(slot);
        let ghost i = instance@;
        if instance.accepts_at(&proposal_number) {
            instance.highest_promised = Some(copy_number(&proposal_number));
            instance.accepted = Some((copy_number(&proposal_number), value.copied()));
            assert(instance@ =~= i.accept(proposal_number@, value@));
            self.put_instance(slot, instance);
            self.touch(slot);
            assert(self@ =~= before.with_instance(slot, i.accept(proposal_number@, value@)).touched(
                slot,
            ));
            to_peer(from, MessageVariant::Accepted { slot, proposal_number, value })
        } else {
            let highest_promised: ProposalNumber = match &instance.highest_promised {
                Some(promised) => copy_number(promised),
                None => copy_number(&proposal_number),
            };
            self.put_instance(slot, instance);
            assert(self@ =~= before);
            to_peer(from, MessageVariant::NackAccept { slot, proposal_number, highest_promised })
        }
    }

    /// Whether an answer to `number` concerns the current round of a slot.
    fn is_current(&self, slot: u64, number: &ProposalNumber) -> (r: bool)
        ensures
            r == self@.current(slot, number@),
    {
        if self.decided_slots.contains_key(&slot) {
            return false;
        }
        match self.instances.get(&slot) {
            Some(instance) => number_same(&instance.proposal_number, number) && !instance.decided,
            None => false,
        }
    }

    /// Phase 1, proposer side: count a promise for the current round. A quorum of
    /// them opens phase 2; promises that come later ask for the same value again.
    pub fn handle_promise(
        &mut self,
        from: NodeId,
        slot: u64,
        proposal_number: ProposalNumber,
        accepted: Option<(ProposalNumber, V)>,
        now: u64,
    ) -> (out: Vec<Outgoing<MessageVariant<V>>>)
        requires
            old(self).wf(),
            old(self)@.can_handle(
                from@,
                PaxosMsg::Promise {
                    slot,
                    proposal_number: proposal_number@,
                    accepted: opt(accepted),
                },
            ),
        ensures
            final(self).wf(),
            (final(self)@, packets(out@)) == old(self)@.on_promise(
                from@,
                slot,
                proposal_number@,
                opt(accepted),
                now,
            ),
    {
        if !self.is_current(slot, &proposal_number) {
            return no_messages();
        }
        let ghost before = self@;
        let mut instance: PaxosInstance<V> = self.take_instance(slot);
        instance.add_promise(from, accepted);
        let ghost i = instance@;
        let has_quorum: bool = instance.promises_received.len() >= self.quorum_size;
        self.put_instance(slot, instance);
        assert(self@ =~= before.with_instance(slot, i));
        if has_quorum {
            self.start_phase2(slot, now)
        } else {
            no_messages()
        }
    }

    /// Phase 2, proposer side: count an acceptance for the current round. A quorum
    /// of them decides the slot with the value that was asked for.
    pub fn handle_accepted(
        &mut self,
        from: NodeId,
        slot: u64,
        proposal_number: ProposalNumber,
        now: u64,
    ) -> (out: Vec<Outgoing<MessageVariant<V>>>)
        requires
            old(self).wf(),
            old(self)@.current(slot, proposal_number@) && old(
                self,
            )@.instances[slot].accepts.insert(from@).len() >= old(self)@.quorum && old(
                self,
            )@.instances[slot].asked is Some ==> slot < u64::MAX,
        ensures
            final(self).wf(),
            (final(self)@, packets(out@)) == old(self)@.on_accepted(
                from@,
                slot,
                proposal_number@,
                now,
            ),
    {
        if !self.is_current(slot, &proposal_number) {
            return no_messages();
        }
        let ghost before = self@;
        let mut instance: PaxosInstance<V> = self.take_instance(slot);
        instance.accepts_received.insert(from);
        let ghost i = instance@;
        let asked: Option<V> = if instance.accepts_received.len() >= self.quorum_size {
            match &instance.asked_value {
                Some(value) => Some(value.copied()),
                None => None,
            }
        } else {
            None
        };
        self.put_instance(slot, instance);
        assert(self@ =~= before.with_instance(slot, i));
        match asked {
            Some(value) => {
                let ghost v = value@;
                self.decide(slot, value.copied(), now);
                assert(self@ =~= before.close(slot, v, now));
                to_all(MessageVariant::Decide { slot, value })
            },
            None => no_messages(),
        }
    }

    /// Learn a decision. The first one for a slot stands.
    pub fn handle_decide(&mut self, slot: u64, value: V, now: u64)
        requires
            old(self).wf(),
            slot < u64::MAX || old(self)@.decided.contains_key(slot),
        ensures
            final(self).wf(),
            final(self)@ == old(self)@.on_decide(slot, value@, now),
    {
        if self.decided_slots.contains_key(&slot) {
            return ;
        }
        self.decide(slot, value, now);
    }

    /// Hear of a higher number: the next retry outbids it, after a pause.
    pub fn handle_nack(&mut self, slot: u64, highest_promised: ProposalNumber, now: u64, jitter: u64)
        requires
            old(self).wf(),
            jitter <= MAX_JITTER,
        ensures
            final(self).wf(),
            final(self)@ == old(self)@.on_nack(slot, highest_promised@.0, now, jitter),
    {
        if !self.instances.contains_key(&slot) {
            return ;
        }
        let ghost before = self@;
        let mut instance: PaxosInstance<V> = self.take_instance(slot);
        instance.refuse(highest_promised.0, now, jitter);
        let ghost i = instance@;
        self.put_instance(slot, instance);
        assert(self@ =~= before.with_instance(slot, i));
    }

    /// Phase 2: ask for acceptance of the value that the promises allow.
    fn start_phase2(&mut self, slot: u64, now: u64) -> (out: Vec<Outgoing<MessageVariant<V>>>)
        requires
            old(self).wf(),
            old(self)@.instances.contains_key(slot),
            old(self)@.instances[slot].has_value(),
            old(self)@.instances[slot].phase2_voted(old(self)@.node_id).accepts.len() >= old(
                self,
            )@.quorum ==> slot < u64::MAX,
        ensures
            final(self).wf(),
            (final(self)@, packets(out@)) == old(self)@.start_phase2(slot, now),
    {
        let ghost before = self@;
        let mut instance: PaxosInstance<V> = self.take_instance(slot);
        let ghost i0 = instance@;
        let value: V = match (
            &instance.asked_value,
            &instance.highest_accepted,
            &instance.proposed_value,
        ) {
            (Some(asked), _, _) => asked.copied(),
            (None, Some(accepted), _) => accepted.1.copied(),
            (None, None, Some(proposed)) => proposed.copied(),
            (None, None, None) => {
                assert(false);
                return no_messages();
            },
        };
        let proposal_number: ProposalNumber = copy_number(&instance.proposal_number);
        let votes: bool = instance.accepts_at(&proposal_number);
        if votes {
            instance.highest_promised = Some(copy_number(&proposal_number));
            instance.accepted = Some((copy_number(&proposal_number), value.copied()));
            instance.accepts_received.insert(self.node_id.clone());
        }
        instance.asked_value = Some(value.copied());
        let ghost i = instance@;
        assert(i =~= i0.phase2_voted(before.node_id));
        let has_quorum: bool = instance.accepts_received.len() >= self.quorum_size;
        self.put_instance(slot, instance);
        assert(self@ =~= before.with_instance(slot, i));
        if votes {
            self.touch(slot);
        }
        if has_quorum {
            self.decide(slot, value.copied(), now);
            return to_all(MessageVariant::Decide { slot, value });
        }
        to_all(MessageVariant::Accept { slot, proposal_number, value })
    }

    /// Proposes `value` for the next slot, with a drawn `jitter` on the time of
    /// the first retry. Returns the slot and the messages to send.
    pub fn propose_with(&mut self, value: V, now: u64, jitter: u64) -> (r: (
        u64,
        Vec<Outgoing<MessageVariant<V>>>,
    ))
        requires
            old(self).wf(),
            old(self).next_slot < u64::MAX,
            jitter <= MAX_JITTER,
        ensures
            final(self).wf(),
            r.0 == old(self).next_slot,
            (final(self)@, packets(r.1@)) == old(self)@.propose(value@, now, jitter),
    {
        let slot: u64 = self.next_slot;
        self.next_slot = slot + 1;
        let ghost before = self@;
        let mut instance: PaxosInstance<V> = self.take_instance(slot);
        let node_id: NodeId = self.node_id.clone();
        instance.open(&node_id, value, now, jitter);
        let ghost i = instance@;
        let has_quorum: bool = instance.promises_received.len() >= self.quorum_size;
        self.put_instance(slot, instance);
        self.touch(slot);
        assert(self@ =~= before.with_instance(slot, i).touched(slot));
        if has_quorum {
            return (slot, self.start_phase2(slot, now));
        }
        (slot, to_all(MessageVariant::Prepare { slot, proposal_number: (1, node_id) }))
    }

    /// Proposes `value` for the next slot.
    pub fn propose(&mut self, value: V, now: u64) -> (r: (u64, Vec<Outgoing<MessageVariant<V>>>))
        requires
            old(self).wf(),
            old(self).next_slot < u64::MAX,
        ensures
            final(self).wf(),
            r.0 == old(self).next_slot,
            exists|jitter: u64|
                jitter <= 50 && (final(self)@, packets(r.1@)) == #[trigger] old(self)@.propose(
                    value@,
                    now,
                    jitter,
                ),
    {
        let jitter: u64 = sample_jitter(100);
        self.propose_with(value, now, jitter)
    }

    /// Handles a message, with `jitter` on the time of a retry that a refusal
    /// puts off.
    pub fn handle_message_with(
        &mut self,
        from: NodeId,
        msg: MessageVariant<V>,
        now: u64,
        jitter: u64,
    ) -> (out: Vec<Outgoing<MessageVariant<V>>>)
        requires
            old(self).wf(),
            old(self)@.can_handle(from@, msg@),
            jitter <= MAX_JITTER,
        ensures
            final(self).wf(),
            (final(self)@, packets(out@)) == old(self)@.receive(from@, msg@, now, jitter),
    {
        match msg {
            MessageVariant::Prepare { slot, proposal_number } => self.handle_prepare(
                from,
                slot,
                proposal_number,
            ),
            MessageVariant::Promise { slot, proposal_number, accepted } => self.handle_promise(
                from,
                slot,
                proposal_number,
                accepted,
                now,
            ),
            MessageVariant::Accept { slot, proposal_number, value } => self.handle_accept(
                from,
                slot,
                proposal_number,
                value,
            ),
            MessageVariant::Accepted { slot, proposal_number, value } => self.handle_accepted(
                from,
                slot,
                proposal_number,
                now,
            ),
            MessageVariant::Decide { slot, value } => {
                self.handle_decide(slot, value, now);
                no_messages()
            },
            MessageVariant::NackPrepare { slot, highest_promised, proposal_number } => {
                self.handle_nack(slot, highest_promised, now, jitter);
                no_messages()
            },
            MessageVariant::NackAccept { slot, highest_promised, proposal_number } => {
                self.handle_nack(slot, highest_promised, now, jitter);
                no_messages()
            },
        }
    }

    /// The delay that the jitter on a retry is half of, at most.
    fn delay_after(&self, msg: &MessageVariant<V>) -> (delay: u64)
        ensures
            delay == self@.nack_delay(msg@),
            delay <= 800,
    {
        let slot: u64 = match msg {
            MessageVariant::NackPrepare { slot, .. } => *slot,
            MessageVariant::NackAccept { slot, .. } => *slot,
            _ => return 0,
        };
        match self.instances.get(&slot) {
            Some(instance) => backoff_millis(instance.retry_count),
            None => backoff_millis(0),
        }
    }

    /// Handles a message; a refusal puts the next retry off by a delay with a
    /// drawn jitter.
    pub fn handle_message(&mut self, from: NodeId, msg: MessageVariant<V>, now: u64) -> (out: Vec<
        Outgoing<MessageVariant<V>>,
    >)
        requires
            old(self).wf(),
            old(self)@.can_handle(from@, msg@),
        ensures
            final(self).wf(),
            exists|jitter: u64|
                jitter <= old(self)@.nack_delay(msg@) / 2 && (final(self)@, packets(out@))
                    == #[trigger] old(self)@.receive(from@, msg@, now, jitter),
    {
        let delay: u64 = self.delay_after(&msg);
        let jitter: u64 = sample_jitter(delay);
        self.handle_message_with(from, msg, now, jitter)
    }

    /// Whether a message can be handled: a decision needs a slot behind it, and a
    /// quorum of promises a value to ask for.
    pub fn can_handle(&self, from: &NodeId, msg: &MessageVariant<V>) -> (r: bool)
        requires
            self.wf(),
        ensures
            r == self@.can_handle(from@, msg@),
    {
        match msg {
            MessageVariant::Promise { slot, proposal_number, accepted } => {
                if !self.is_current(*slot, proposal_number) {
                    return true;
                }
                match self.instances.get(slot) {
                    Some(instance) => {
                        let ghost after = instance@.with_promise(from@, opt(*accepted));
                        if !instance.promises_received.reaches_with(from, self.quorum_size) {
                            return true;
                        }
                        if instance.asked_value.is_none() && instance.highest_accepted.is_none()
                            && instance.proposed_value.is_none() && accepted.is_none() {
                            return false;
                        }
                        if *slot < u64::MAX {
                            return true;
                        }
                        if instance.accepts_at(&instance.proposal_number) {
                            !instance.accepts_received.reaches_with(
                                &self.node_id,
                                self.quorum_size,
                            )
                        } else {
                            instance.accepts_received.len() < self.quorum_size
                        }
                    },
                    None => true,
                }
            },
            MessageVariant::Accepted { slot, proposal_number, .. } => {
                if !self.is_current(*slot, proposal_number) {
                    return true;
                }
                match self.instances.get(slot) {
                    Some(instance) => {
                        !instance.accepts_received.reaches_with(from, self.quorum_size)
                            || instance.asked_value.is_none() || *slot < u64::MAX
                    },
                    None => true,
                }
            },
            MessageVariant::Decide { slot, .. } => *slot < u64::MAX
                || self.decided_slots.contains_key(slot),
            _ => true,
        }
    }

    /// Whether a proposal can be retried: there is a round behind the last one
    /// and a number behind the retry count.
    pub fn can_retry(&self, slot: u64) -> (r: bool)
        requires
            self.wf(),
        ensures
            r == self@.can_retry(slot),
    {
        match self.instances.get(&slot) {
            Some(instance) => {
                assert(self@.instances[slot] == instance@);
                instance.decided || !instance.is_proposer || (instance.last_round() < u64::MAX
                    && instance.retry_count < u32::MAX)
            },
            None => true,
        }
    }

    /// Tries an open proposal again in the next round, with `jitter` on the
    /// time of the retry after it.
    pub fn retry_proposal_with(&mut self, slot: u64, now: u64, jitter: u64) -> (out: Vec<
        Outgoing<MessageVariant<V>>,
    >)
        requires
            old(self).wf(),
            old(self)@.can_retry(slot),
            jitter <= MAX_JITTER,
        ensures
            final(self).wf(),
            (final(self)@, packets(out@)) == old(self)@.retry(slot, now, jitter),
    {
        let proposing: bool = match self.instances.get(&slot) {
            Some(instance) => !instance.decided && instance.is_proposer,
            None => false,
        };
        if !proposing {
            return no_messages();
        }
        let ghost before = self@;
        assert(before.instances.contains_key(slot));
        let mut instance: PaxosInstance<V> = self.take_instance(slot);
        let node_id: NodeId = self.node_id.clone();
        instance.reopen(&node_id, now, jitter);
        let ghost i = instance@;
        let proposal_number: ProposalNumber = copy_number(&instance.proposal_number);
        let has_quorum: bool = instance.promises_received.len() >= self.quorum_size;
        self.put_instance(slot, instance);
        self.touch(slot);
        assert(self@ =~= before.with_instance(slot, i).touched(slot));
        if has_quorum {
            return self.start_phase2(slot, now);
        }
        to_all(MessageVariant::Prepare { slot, proposal_number })
    }

    /// Tries an open proposal again in the next round.
    pub fn retry_proposal(&mut self, slot: u64, now: u64) -> (out: Vec<
        Outgoing<MessageVariant<V>>,
    >)
        requires
            old(self).wf(),
            old(self)@.can_retry(slot),
        ensures
            final(self).wf(),
            exists|jitter: u64|
                jitter <= backoff((old(self)@.instance(slot).retry_count + 1) as u32) / 2 && (
                final(self)@, packets(out@)) == #[trigger] old(self)@.retry(slot, now, jitter),
    {
        let retries: u32 = match self.instances.get(&slot) {
            Some(instance) => instance.retry_count,
            None => 0,
        };
        let delay: u64 = backoff_millis(if retries < u32::MAX {
            retries + 1
        } else {
            0
        });
        let jitter: u64 = sample_jitter(delay);
        if retries == u32::MAX {
            assert(old(self)@.instances.contains_key(slot));
            assert(!old(self)@.proposing(slot));
            let out: Vec<Outgoing<MessageVariant<V>>> = self.retry_proposal_with(slot, now, 0);
            assert((self@, packets(out@)) == old(self)@.retry(slot, now, 0));
            return out;
        }
        self.retry_proposal_with(slot, now, jitter)
    }

    /// The slots whose proposal is due for another round, in any order.
    pub fn get_retryable_proposals(&self, now: u64) -> (due: Vec<u64>)
        requires
            self.wf(),
        ensures
            due@.no_duplicates(),
            forall|slot: u64|
                #![trigger due@.contains(slot)]
                due@.contains(slot) <==> self@.instances.contains_key(slot)
                    && self@.instances[slot].retryable(self@.quorum, now),
    {
        let slots: Vec<u64> = slots_of(&self.instances);
        let mut due: Vec<u64> = Vec::new();
        let mut k: usize = 0;
        while k < slots.len()
            invariant
                k <= slots.len(),
                self.wf(),
                slots@.no_duplicates(),
                slots@.to_set() == self.instances@.dom(),
                due@.no_duplicates(),
                forall|slot: u64|
                    #![trigger due@.contains(slot)]
                    due@.contains(slot) <==> slots@.take(k as int).contains(slot)
                        && self@.instances[slot].retryable(self@.quorum, now),
            decreases slots.len() - k,
        {
            let slot: u64 = slots[k];
            let ghost was = due@;
            assert(slots@.to_set().contains(slot));
            assert(slots@.take(k + 1) =~= slots@.take(k as int).push(slot));
            assert(!slots@.take(k as int).contains(slot));
            assert(!was.contains(slot));
            if let Some(instance) = self.instances.get(&slot) {
                if instance.retryable(self.quorum_size, now) {
                    due.push(slot);
                    assert forall|other: u64| #[trigger] due@.contains(other) <==> was.contains(
                        other,
                    ) || other == slot by {
                        if was.contains(other) {
                            let j = was.index_of(other);
                            assert(due@[j] == other);
                        }
                        assert(due@[was.len() as int] == slot);
                    }
                }
            }
            assert forall|other: u64|
                #![trigger due@.contains(other)]
                due@.contains(other) <==> slots@.take(k + 1).contains(other)
                    && self@.instances[other].retryable(self@.quorum, now) by {
                let before = slots@.take(k as int);
                assert(slots@.take(k + 1).contains(other) <==> before.contains(other) || other
                    == slot) by {
                    if before.contains(other) {
                        let j = before.index_of(other);
                        assert(slots@.take(k + 1)[j] == other);
                    }
                    assert(slots@.take(k + 1)[k as int] == slot);
                }
            }
            k += 1;
        }
        assert(slots@.take(k as int) =~= slots@);
        proof {
            assert forall|slot: u64|
                #![trigger due@.contains(slot)]
                due@.contains(slot) <==> self@.instances.contains_key(slot)
                    && self@.instances[slot].retryable(self@.quorum, now) by {
                assert(slots@.contains(slot) <==> slots@.to_set().contains(slot));
            }
        }
        due
    }

    /// The broadcasts of the decisions of the last five seconds; older ones are
    /// forgotten.
    pub fn get_decision_rebroadcasts(&mut self, now: u64) -> (out: Vec<
        Outgoing<MessageVariant<V>>,
    >)
        requires
            old(self).wf(),
        ensures
            final(self).wf(),
            final(self)@ == (PaxosState {
                recent: still_recent(old(self)@.recent, now),
                ..old(self)@
            }),
            packets(out@) == decide_broadcasts(still_recent(old(self)@.recent, now)),
    {
        let mut all: Vec<(u64, u64, V)> = Vec::new();
        std::mem::swap(&mut all, &mut self.recent_decisions);
        let ghost recent = views(all@);
        let mut kept: Vec<(u64, u64, V)> = Vec::new();
        let mut out: Vec<Outgoing<MessageVariant<V>>> = Vec::new();
        let mut k: usize = 0;
        assert(recent.take(0) =~= Seq::empty());
        while k < all.len()
            invariant
                k <= all.len(),
                recent == views(all@),
                views(kept@) == still_recent(recent.take(k as int), now),
                packets(out@) == decide_broadcasts(views(kept@)),
            decreases all.len() - k,
        {
            proof {
                let more = recent.take(k + 1);
                assert(more.drop_last() =~= recent.take(k as int));
                assert(more.last() == recent[k as int]);
                assert(recent[k as int] == all@[k as int]@);
            }
            let time: u64 = all[k].0;
            if now.saturating_sub(time) < REBROADCAST_MILLIS {
                let slot: u64 = all[k].1;
                let ghost was = views(kept@);
                let ghost sent = packets(out@);
                kept.push((time, slot, all[k].2.copied()));
                let message = Outgoing {
                    target: SendTarget::Broadcast,
                    message: MessageVariant::Decide { slot, value: all[k].2.copied() },
                };
                let ghost packet = message@;
                out.push(message);
                proof {
                    assert(views(kept@) =~= was.push(recent[k as int]));
                    assert(packets(out@) =~= sent.push(packet));
                    let all_packets = decide_broadcasts(views(kept@));
                    assert(all_packets[was.len() as int] == packet);
                    assert(all_packets =~= decide_broadcasts(was).push(packet));
                }
            }
            k += 1;
        }
        assert(recent.take(k as int) =~= recent);
        self.recent_decisions = kept;
        assert(self@ =~= (PaxosState {
            recent: still_recent(old(self)@.recent, now),
            ..old(self)@
        }));
        out
    }

    /// Takes the acceptor states that changed and belong to open slots.
    pub fn take_dirty_acceptor_slots(&mut self) -> (states: Vec<
        (u64, Option<ProposalNumber>, Option<(ProposalNumber, V)>),
    >)
        requires
            old(self).wf(),
        ensures
            final(self).wf(),
            final(self)@ == (PaxosState { dirty: Seq::empty(), ..old(self)@ }),
            acceptor_views(states@) == changed_states(old(self)@.dirty, old(self)@.instances),
    {
        let mut slots: Vec<u64> = Vec::new();
        std::mem::swap(&mut slots, &mut self.dirty_acceptor_slots);
        let mut states: Vec<(u64, Option<ProposalNumber>, Option<(ProposalNumber, V)>)> =
            Vec::new();
        let mut k: usize = 0;
        assert(slots@.take(0) =~= Seq::empty());
        assert(acceptor_views(states@) =~= Seq::empty());
        while k < slots.len()
            invariant
                k <= slots.len(),
                acceptor_views(states@) == changed_states(
                    slots@.take(k as int),
                    table(self.instances@),
                ),
            decreases slots.len() - k,
        {
            let slot: u64 = slots[k];
            proof {
                let more = slots@.take(k + 1);
                assert(more.drop_last() =~= slots@.take(k as int));
                assert(more.last() == slot);
            }
            if let Some(instance) = self.instances.get(&slot) {
                let ghost was = acceptor_views(states@);
                let state = (
                    slot,
                    copy_number_opt(&instance.highest_promised),
                    copy_accepted(&instance.accepted),
                );
                states.push(state);
                assert(acceptor_views(states@) =~= was.push(
                    (slot, instance@.promised, instance@.accepted),
                ));
            }
            k += 1;
        }
        assert(slots@.take(k as int) =~= slots@);
        assert(self@ =~= (PaxosState { dirty: Seq::empty(), ..old(self)@ }));
        states
    }

    /// Loads decided slots at startup.
    pub fn initialize_from_decisions(&mut self, decisions: Vec<(u64, V)>)
        requires
            old(self).wf(),
            forall|i: int| 0 <= i < decisions.len() ==> (#[trigger] decisions[i]).0 < u64::MAX,
        ensures
            final(self).wf(),
            final(self)@ == with_decisions(old(self)@, views(decisions@)),
    {
        let ghost pairs = views(decisions@);
        let mut k: usize = 0;
        assert(pairs.take(0) =~= Seq::empty());
        while k < decisions.len()
            invariant
                k <= decisions.len(),
                forall|i: int| 0 <= i < decisions.len() ==> (#[trigger] decisions[i]).0 < u64::MAX,
                pairs == views(decisions@),
                self.wf(),
                self@ == with_decisions(old(self)@, pairs.take(k as int)),
            decreases decisions.len() - k,
        {
            let ghost before = self@;
            let ghost inner = self.instances@;
            proof {
                let more = pairs.take(k + 1);
                assert(more.drop_last() =~= pairs.take(k as int));
                assert(more.last() == pairs[k as int]);
                assert(pairs[k as int] == decisions@[k as int]@);
            }
            let slot: u64 = decisions[k].0;
            let value: V = decisions[k].1.copied();
            let ghost v = value@;
            self.decided_slots.insert(slot, value);
            if slot >= self.next_slot {
                self.next_slot = slot + 1;
            }
            proof {
                assert(self@.decided =~= before.decided.insert(slot, v));
                assert(self@ =~= with_decisions(old(self)@, pairs.take(k + 1)));
                assert(self@.instances == before.instances);
            }
            k += 1;
        }
        assert(pairs.take(k as int) =~= pairs);
    }

    /// Loads the acceptor states of undecided slots at startup.
    pub fn initialize_from_acceptor_states(&mut self, states: Vec<AcceptorState<V>>)
        requires
            old(self).wf(),
            forall|i: int| 0 <= i < states.len() ==> (#[trigger] states[i]).slot < u64::MAX,
        ensures
            final(self).wf(),
            final(self)@ == with_acceptors(old(self)@, state_views(states@)),
    {
        let ghost all = state_views(states@);
        let mut k: usize = 0;
        assert(all.take(0) =~= Seq::empty());
        while k < states.len()
            invariant
                k <= states.len(),
                forall|i: int| 0 <= i < states.len() ==> (#[trigger] states[i]).slot < u64::MAX,
                all == state_views(states@),
                self.wf(),
                self@ == with_acceptors(old(self)@, all.take(k as int)),
            decreases states.len() - k,
        {
            let ghost before = self@;
            proof {
                let more = all.take(k + 1);
                assert(more.drop_last() =~= all.take(k as int));
                assert(more.last() == all[k as int]);
            }
            let slot: u64 = states[k].slot;
            if !self.decided_slots.contains_key(&slot) {
                if slot >= self.next_slot {
                    self.next_slot = slot + 1;
                }
                assert(self.wf());
                let mut instance: PaxosInstance<V> = self.take_instance(slot);
                let ghost i = instance@;
                instance.highest_promised = copy_number_opt(&states[k].highest_promised);
                instance.accepted = copy_accepted(&states[k].accepted);
                let ghost i2 = instance@;
                assert(i2 =~= (Instance {
                    promised: opt(states@[k as int].highest_promised),
                    accepted: opt(states@[k as int].accepted),
                    ..i
                }));
                proof {
                    if i.is_proposer {
                        assert(before.instances.contains_key(slot));
                    }
                }
                self.put_instance(slot, instance);
                assert(self@.instances =~= before.instances.insert(slot, i2));
                assert(self@ =~= with_acceptors(old(self)@, all.take(k + 1)));
            }
            k += 1;
        }
        assert(all.take(k as int) =~= all);
    }
}

/// The views of a list of acceptor states.
pub open spec fn acceptor_views<V: View>(
    states: Seq<(u64, Option<ProposalNumber>, Option<(ProposalNumber, V)>)>,
) -> Seq<(u64, Option<Ballot>, Option<(Ballot, V::V)>)> {
    states.map_values(
        |s: (u64, Option<ProposalNumber>, Option<(ProposalNumber, V)>)| (s.0, opt(s.1), opt(s.2)),
    )
}

/// The views of a list of acceptor states.
pub open spec fn state_views<V: View>(states: Seq<AcceptorState<V>>) -> Seq<
    (u64, Option<Ballot>, Option<(Ballot, V::V)>),
> {
    states.map_values(
        |s: AcceptorState<V>| (s.slot, opt(s.highest_promised), opt(s.accepted)),
    )
}

} // verus!
