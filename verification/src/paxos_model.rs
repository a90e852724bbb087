//! The Multi-Paxos state machine as pure functions from state and event to the
//! next state and the messages to send.
use crate::config::NodeName;
use crate::message::{ballot_less, Ballot, Packet, PaxosMsg, Target};
use crate::raft_model::{deadline, majority};
use vstd::prelude::*;

verus! {

/// One slot of Multi-Paxos: the proposer's and the acceptor's view of it.
#[verifier::ext_equal]
pub struct Instance<T> {
    pub number: Ballot,
    pub promises: Set<NodeName>,
    pub accepts: Set<NodeName>,
    pub highest_accepted: Option<(Ballot, T)>,
    pub proposed: Option<T>,
    /// The value that phase 2 of the current round asks for.
    pub asked: Option<T>,
    pub promised: Option<Ballot>,
    pub accepted: Option<(Ballot, T)>,
    pub decided: bool,
    pub is_proposer: bool,
    pub nacked: bool,
    pub highest_nack: Option<u64>,
    pub last_nack_time: Option<u64>,
    pub retry_count: u32,
    pub last_send_time: Option<u64>,
    pub next_retry_at: Option<u64>,
}

/// The state of one Multi-Paxos node.
#[verifier::ext_equal]
pub struct PaxosState<T> {
    pub node_id: NodeName,
    pub instances: Map<u64, Instance<T>>,
    pub next_slot: u64,
    pub quorum: nat,
    pub decided: Map<u64, T>,
    pub pending_decisions: Seq<(u64, T)>,
    pub lost: Seq<T>,
    pub recent: Seq<(u64, u64, T)>,
    pub dirty: Seq<u64>,
}

/// The next state together with the messages to send.
pub type PaxosStep<T> = (PaxosState<T>, Seq<Packet<PaxosMsg<T>>>);

/// How long a decision is sent again, in milliseconds.
pub const REBROADCAST_MILLIS: u64 = 5000;

/// The proposal number of a slot for which this node proposed nothing.
pub open spec fn no_ballot() -> Ballot {
    (0u64, NodeName { name: Seq::empty(), incarnation: 0 })
}

/// The delay before a proposal is tried again: 100 ms, doubled with each of the
/// first three retries.
pub open spec fn backoff(retry_count: u32) -> u64 {
    if retry_count == 0 {
        100
    } else if retry_count == 1 {
        200
    } else if retry_count == 2 {
        400
    } else {
        800
    }
}

pub open spec fn tell<T>(peer: NodeName, message: PaxosMsg<T>) -> Seq<Packet<PaxosMsg<T>>> {
    seq![Packet { target: Target::Peer(peer), message }]
}

pub open spec fn tell_all<T>(message: PaxosMsg<T>) -> Seq<Packet<PaxosMsg<T>>> {
    seq![Packet { target: Target::Broadcast, message }]
}

pub open spec fn quiet<T>() -> Seq<Packet<PaxosMsg<T>>> {
    Seq::<Packet<PaxosMsg<T>>>::empty()
}

/// The higher of an optional round and another one.
pub open spec fn round_max(a: Option<u64>, b: u64) -> u64 {
    match a {
        Some(x) => if x >= b {
            x
        } else {
            b
        },
        None => b,
    }
}

impl<T> Instance<T> {
    /// A slot of which nothing was heard yet.
    pub open spec fn fresh() -> Instance<T> {
        Instance {
            number: no_ballot(),
            promises: Set::empty(),
            accepts: Set::empty(),
            highest_accepted: None,
            proposed: None,
            asked: None,
            promised: None,
            accepted: None,
            decided: false,
            is_proposer: false,
            nacked: false,
            highest_nack: None,
            last_nack_time: None,
            retry_count: 0,
            last_send_time: None,
            next_retry_at: None,
        }
    }

    /// Whether the acceptor promises `number`: it is higher than every number
    /// promised before.
    pub open spec fn promises_to(self, number: Ballot) -> bool {
        self.promised is None || ballot_less(self.promised->0, number)
    }

    /// Whether the acceptor accepts `number`: no higher number was promised.
    pub open spec fn accepts_at(self, number: Ballot) -> bool {
        self.promised is None || !ballot_less(number, self.promised->0)
    }

    /// The acceptor's promise.
    pub open spec fn promise(self, number: Ballot) -> Instance<T> {
        Instance { promised: Some(number), ..self }
    }

    /// The acceptor's acceptance.
    pub open spec fn accept(self, number: Ballot, value: T) -> Instance<T> {
        Instance { promised: Some(number), accepted: Some((number, value)), ..self }
    }

    /// Count a promise, and keep the accepted proposal with the highest number
    /// that came with one.
    pub open spec fn with_promise(self, from: NodeName, accepted: Option<(Ballot, T)>) -> Instance<T> {
        Instance {
            promises: self.promises.insert(from),
            highest_accepted: match (self.highest_accepted, accepted) {
                (Some(old), Some(new)) => if ballot_less(old.0, new.0) {
                    Some(new)
                } else {
                    Some(old)
                },
                (old, None) => old,
                (None, new) => new,
            },
            ..self
        }
    }

    /// Whether there is a value to ask acceptors to accept.
    pub open spec fn has_value(self) -> bool {
        self.asked is Some || self.highest_accepted is Some || self.proposed is Some
    }

    /// The value of phase 2: the one that was asked for, once phase 2 is open;
    /// else that of the highest-numbered accepted proposal among the promises,
    /// the node's own promise included; and the node's own value where there is
    /// none.
    pub open spec fn phase2_value(self) -> T {
        match (self.asked, self.highest_accepted) {
            (Some(v), _) => v,
            (None, Some(a)) => a.1,
            (None, None) => self.proposed->0,
        }
    }

    /// Phase 2 is open with its value. The acceptor of the proposing node votes
    /// too, unless it has promised a higher number by now.
    pub open spec fn phase2_voted(self, node: NodeName) -> Instance<T> {
        let value = self.phase2_value();
        if self.accepts_at(self.number) {
            Instance {
                accepts: self.accepts.insert(node),
                asked: Some(value),
                ..self.accept(self.number, value)
            }
        } else {
            Instance { asked: Some(value), ..self }
        }
    }

    /// A refusal was heard.
    pub open spec fn refused(self, round: u64, now: u64, jitter: u64) -> Instance<T> {
        Instance {
            nacked: true,
            last_nack_time: Some(now),
            highest_nack: Some(round_max(self.highest_nack, round)),
            next_retry_at: Some(
                deadline(now, (backoff(self.retry_count) + jitter) as u64),
            ),
            ..self
        }
    }

    /// The acceptor of the proposing node promises `number` too, and reports
    /// what it accepted, unless it has promised a higher number before.
    pub open spec fn phase1_voted(self, node: NodeName, number: Ballot) -> Instance<T> {
        if self.accepts_at(number) {
            self.promise(number).with_promise(node, self.accepted)
        } else {
            self
        }
    }

    /// Open round 1 for `value`, with the vote of the node itself.
    pub open spec fn opened(self, node: NodeName, value: T, now: u64, jitter: u64) -> Instance<T> {
        let number = (1u64, node);
        Instance {
            number,
            proposed: Some(value),
            asked: None,
            is_proposer: true,
            last_send_time: Some(now),
            next_retry_at: Some(deadline(now, (100 + jitter) as u64)),
            ..self.phase1_voted(node, number)
        }
    }

    /// The round that a retry has to exceed: every round promised, refused with
    /// or used before.
    pub open spec fn last_round(self) -> u64 {
        round_max(
            Some(
                round_max(
                    match self.promised {
                        Some(p) => Some(p.0),
                        None => None,
                    },
                    match self.highest_nack {
                        Some(r) => r,
                        None => 0,
                    },
                ),
            ),
            self.number.0,
        )
    }

    /// Open the next round: what the proposer learned from others is forgotten,
    /// what the acceptor promised and accepted is not.
    pub open spec fn reopened(self, node: NodeName, now: u64, jitter: u64) -> Instance<T> {
        let number = ((self.last_round() + 1) as u64, node);
        let retry_count = (self.retry_count + 1) as u32;
        Instance {
            number,
            promises: set![node],
            accepts: Set::empty(),
            highest_accepted: self.accepted,
            asked: None,
            nacked: false,
            highest_nack: None,
            last_nack_time: None,
            retry_count,
            last_send_time: Some(now),
            next_retry_at: Some(deadline(now, (backoff(retry_count) + jitter) as u64)),
            promised: Some(number),
            ..self
        }
    }

    /// Whether the proposal is due for another round at `now`: it was refused,
    /// or it has no quorum in its current phase.
    pub open spec fn retryable(self, quorum: nat, now: u64) -> bool {
        &&& !self.decided
        &&& self.is_proposer
        &&& self.next_retry_at is Some
        &&& now >= self.next_retry_at->0
        &&& self.nacked || (if self.accepts.len() > 0 {
            self.accepts.len() < quorum
        } else {
            self.promises.len() < quorum
        })
    }
}

/// The acceptor states of the changed slots that are still open, in the order
/// of the changes.
pub open spec fn changed_states<T>(dirty: Seq<u64>, instances: Map<u64, Instance<T>>) -> Seq<
    (u64, Option<Ballot>, Option<(Ballot, T)>),
>
    decreases dirty.len(),
{
    if dirty.len() == 0 {
        Seq::empty()
    } else {
        let rest = changed_states(dirty.drop_last(), instances);
        let slot = dirty.last();
        if instances.contains_key(slot) {
            rest.push((slot, instances[slot].promised, instances[slot].accepted))
        } else {
            rest
        }
    }
}

/// The decisions that are not too old to be sent again.
pub open spec fn still_recent<T>(recent: Seq<(u64, u64, T)>, now: u64) -> Seq<(u64, u64, T)>
    decreases recent.len(),
{
    if recent.len() == 0 {
        Seq::empty()
    } else {
        let rest = still_recent(recent.drop_last(), now);
        let age = if now >= recent.last().0 {
            now - recent.last().0
        } else {
            0
        };
        if age < REBROADCAST_MILLIS {
            rest.push(recent.last())
        } else {
            rest
        }
    }
}

/// The broadcasts of a list of decisions.
pub open spec fn decide_broadcasts<T>(recent: Seq<(u64, u64, T)>) -> Seq<Packet<PaxosMsg<T>>> {
    Seq::new(
        recent.len(),
        |i: int|
            Packet {
                target: Target::Broadcast,
                message: PaxosMsg::Decide { slot: recent[i].1, value: recent[i].2 },
            },
    )
}

/// The slot behind `slot`, where that is higher.
pub open spec fn past(next_slot: u64, slot: u64) -> u64 {
    if slot >= next_slot {
        (slot + 1) as u64
    } else {
        next_slot
    }
}

impl<T> PaxosState<T> {
    /// A node that knows nothing.
    pub open spec fn initial(node_id: NodeName, total_nodes: usize) -> PaxosState<T> {
        PaxosState {
            node_id,
            instances: Map::empty(),
            next_slot: 0,
            quorum: majority(total_nodes),
            decided: Map::empty(),
            pending_decisions: Seq::empty(),
            lost: Seq::empty(),
            recent: Seq::empty(),
            dirty: Seq::empty(),
        }
    }

    /// The instance of a slot.
    pub open spec fn instance(self, slot: u64) -> Instance<T> {
        if self.instances.contains_key(slot) {
            self.instances[slot]
        } else {
            Instance::fresh()
        }
    }

    pub open spec fn with_instance(self, slot: u64, instance: Instance<T>) -> PaxosState<T> {
        PaxosState { instances: self.instances.insert(slot, instance), ..self }
    }

    /// The acceptor state of `slot` has changed.
    pub open spec fn touched(self, slot: u64) -> PaxosState<T> {
        PaxosState { dirty: self.dirty.push(slot), ..self }
    }

    /// Answer a prepare request.
    pub open spec fn on_prepare(self, from: NodeName, slot: u64, number: Ballot) -> PaxosStep<T> {
        if self.decided.contains_key(slot) {
            (self, tell(from, PaxosMsg::Decide { slot, value: self.decided[slot] }))
        } else {
            let i = self.instance(slot);
            if i.promises_to(number) {
                (
                    self.with_instance(slot, i.promise(number)).touched(slot),
                    tell(
                        from,
                        PaxosMsg::Promise { slot, proposal_number: number, accepted: i.accepted },
                    ),
                )
            } else {
                (
                    self,
                    tell(
                        from,
                        PaxosMsg::NackPrepare {
                            slot,
                            proposal_number: number,
                            highest_promised: i.promised->0,
                        },
                    ),
                )
            }
        }
    }

    /// Answer an accept request.
    pub open spec fn on_accept(self, from: NodeName, slot: u64, number: Ballot, value: T) -> PaxosStep<
        T,
    > {
        if self.decided.contains_key(slot) {
            (self, tell(from, PaxosMsg::Decide { slot, value: self.decided[slot] }))
        } else {
            let i = self.instance(slot);
            if i.accepts_at(number) {
                (
                    self.with_instance(slot, i.accept(number, value)).touched(slot),
                    tell(from, PaxosMsg::Accepted { slot, proposal_number: number, value }),
                )
            } else {
                (
                    self,
                    tell(
                        from,
                        PaxosMsg::NackAccept {
                            slot,
                            proposal_number: number,
                            highest_promised: i.promised->0,
                        },
                    ),
                )
            }
        }
    }

    /// Whether an answer to `number` concerns the current round of a slot.
    pub open spec fn current(self, slot: u64, number: Ballot) -> bool {
        &&& !self.decided.contains_key(slot)
        &&& self.instances.contains_key(slot)
        &&& self.instances[slot].number == number
        &&& !self.instances[slot].decided
    }

    /// Count a promise; a quorum of them opens phase 2.
    pub open spec fn on_promise(
        self,
        from: NodeName,
        slot: u64,
        number: Ballot,
        accepted: Option<(Ballot, T)>,
        now: u64,
    ) -> PaxosStep<T> {
        if !self.current(slot, number) {
            (self, quiet())
        } else {
            let i = self.instances[slot].with_promise(from, accepted);
            let s = self.with_instance(slot, i);
            if i.promises.len() >= self.quorum {
                s.start_phase2(slot, now)
            } else {
                (s, quiet())
            }
        }
    }

    /// Count an acceptance; a quorum of them decides the slot with the value
    /// that was asked for.
    pub open spec fn on_accepted(
        self,
        from: NodeName,
        slot: u64,
        number: Ballot,
        now: u64,
    ) -> PaxosStep<T> {
        if !self.current(slot, number) {
            (self, quiet())
        } else {
            let i = Instance {
                accepts: self.instances[slot].accepts.insert(from),
                ..self.instances[slot]
            };
            if i.accepts.len() >= self.quorum && i.asked is Some {
                let value = i.asked->0;
                (
                    self.close(slot, value, now),
                    tell_all(PaxosMsg::Decide { slot, value }),
                )
            } else {
                (self.with_instance(slot, i), quiet())
            }
        }
    }

    /// Whether the node's own proposal for a slot loses it to `value`.
    pub open spec fn loses(self, slot: u64, value: T) -> bool {
        let i = self.instance(slot);
        i.is_proposer && i.proposed is Some && i.proposed->0 != value
    }

    /// The slot is decided: it is recorded, queued for delivery, and its
    /// instance is gone. An own proposal for the slot that lost is handed back.
    pub open spec fn close(self, slot: u64, value: T, now: u64) -> PaxosState<T> {
        PaxosState {
            lost: if self.loses(slot, value) {
                self.lost.push(self.instance(slot).proposed->0)
            } else {
                self.lost
            },
            instances: self.instances.remove(slot),
            decided: self.decided.insert(slot, value),
            recent: self.recent.push((now, slot, value)),
            next_slot: past(self.next_slot, slot),
            pending_decisions: self.pending_decisions.push((slot, value)),
            ..self
        }
    }

    /// Learn a decision.
    pub open spec fn on_decide(self, slot: u64, value: T, now: u64) -> PaxosState<T> {
        if self.decided.contains_key(slot) {
            self
        } else {
            self.close(slot, value, now)
        }
    }

    /// Hear a refusal.
    pub open spec fn on_nack(self, slot: u64, round: u64, now: u64, jitter: u64) -> PaxosState<T> {
        if self.instances.contains_key(slot) {
            self.with_instance(slot, self.instances[slot].refused(round, now, jitter))
        } else {
            self
        }
    }

    /// Ask for acceptance; where the own vote is enough, decide.
    pub open spec fn start_phase2(self, slot: u64, now: u64) -> PaxosStep<T> {
        let before = self.instances[slot];
        let value = before.phase2_value();
        let i = before.phase2_voted(self.node_id);
        let s = if before.accepts_at(before.number) {
            self.with_instance(slot, i).touched(slot)
        } else {
            self.with_instance(slot, i)
        };
        if i.accepts.len() >= self.quorum {
            (s.close(slot, value, now), tell_all(PaxosMsg::Decide { slot, value }))
        } else {
            (
                s,
                tell_all(PaxosMsg::Accept { slot, proposal_number: before.number, value }),
            )
        }
    }

    /// Propose `value` for the next slot.
    pub open spec fn propose(self, value: T, now: u64, jitter: u64) -> PaxosStep<T> {
        let slot = self.next_slot;
        let i = self.instance(slot).opened(self.node_id, value, now, jitter);
        let s = PaxosState {
            next_slot: (slot + 1) as u64,
            ..self.with_instance(slot, i).touched(slot)
        };
        if i.promises.len() >= self.quorum {
            s.start_phase2(slot, now)
        } else {
            (s, tell_all(PaxosMsg::Prepare { slot, proposal_number: i.number }))
        }
    }

    /// Whether a slot has an open proposal of this node.
    pub open spec fn proposing(self, slot: u64) -> bool {
        &&& self.instances.contains_key(slot)
        &&& !self.instances[slot].decided
        &&& self.instances[slot].is_proposer
    }

    /// Try an open proposal again in the next round.
    pub open spec fn retry(self, slot: u64, now: u64, jitter: u64) -> PaxosStep<T> {
        if !self.proposing(slot) {
            (self, quiet())
        } else {
            let i = self.instances[slot].reopened(self.node_id, now, jitter);
            let s = self.with_instance(slot, i).touched(slot);
            if i.promises.len() >= self.quorum {
                s.start_phase2(slot, now)
            } else {
                (s, tell_all(PaxosMsg::Prepare { slot, proposal_number: i.number }))
            }
        }
    }

    /// Handle a message.
    pub open spec fn receive(
        self,
        from: NodeName,
        message: PaxosMsg<T>,
        now: u64,
        jitter: u64,
    ) -> PaxosStep<T> {
        match message {
            PaxosMsg::Prepare { slot, proposal_number } => self.on_prepare(
                from,
                slot,
                proposal_number,
            ),
            PaxosMsg::Promise { slot, proposal_number, accepted } => self.on_promise(
                from,
                slot,
                proposal_number,
                accepted,
                now,
            ),
            PaxosMsg::Accept { slot, proposal_number, value } => self.on_accept(
                from,
                slot,
                proposal_number,
                value,
            ),
            PaxosMsg::Accepted { slot, proposal_number, value } => self.on_accepted(
                from,
                slot,
                proposal_number,
                now,
            ),
            PaxosMsg::Decide { slot, value } => (self.on_decide(slot, value, now), quiet()),
            PaxosMsg::NackPrepare { slot, highest_promised, .. } => (
                self.on_nack(slot, highest_promised.0, now, jitter),
                quiet(),
            ),
            PaxosMsg::NackAccept { slot, highest_promised, .. } => (
                self.on_nack(slot, highest_promised.0, now, jitter),
                quiet(),
            ),
        }
    }

    /// The delay that the jitter on a retry is half of, at most.
    pub open spec fn nack_delay(self, message: PaxosMsg<T>) -> u64 {
        match message {
            PaxosMsg::NackPrepare { slot, .. } => backoff(self.instance(slot).retry_count),
            PaxosMsg::NackAccept { slot, .. } => backoff(self.instance(slot).retry_count),
            _ => 0,
        }
    }

    /// Whether a message can be handled: a decision needs a slot behind it, and a
    /// quorum of promises a value to ask for.
    pub open spec fn can_handle(self, from: NodeName, message: PaxosMsg<T>) -> bool {
        match message {
            PaxosMsg::Promise { slot, proposal_number, accepted } => self.current(
                slot,
                proposal_number,
            ) ==> {
                let i = self.instances[slot].with_promise(from, accepted);
                i.promises.len() >= self.quorum ==> i.has_value() && (i.phase2_voted(
                    self.node_id,
                ).accepts.len() >= self.quorum ==> slot < u64::MAX)
            },
            PaxosMsg::Accepted { slot, proposal_number, .. } => self.current(
                slot,
                proposal_number,
            ) ==> {
                let i = self.instances[slot];
                i.accepts.insert(from).len() >= self.quorum && i.asked is Some ==> slot < u64::MAX
            },
            PaxosMsg::Decide { slot, .. } => slot < u64::MAX || self.decided.contains_key(slot),
            _ => true,
        }
    }

    /// Whether a proposal can be retried: there is a round behind the last one
    /// and a number behind the retry count.
    pub open spec fn can_retry(self, slot: u64) -> bool {
        self.proposing(slot) ==> {
            &&& self.instances[slot].last_round() < u64::MAX
            &&& self.instances[slot].retry_count < u32::MAX
        }
    }

    /// Every open proposal of this node has a value, and a slot behind its own.
    pub open spec fn sound(self) -> bool {
        forall|slot: u64| #[trigger]
            self.instances.contains_key(slot) && self.instances[slot].is_proposer
                ==> self.instances[slot].proposed is Some && slot < u64::MAX
    }
}

/// The decisions and the next free slot after decided slots were loaded.
pub open spec fn with_decisions<T>(s: PaxosState<T>, pairs: Seq<(u64, T)>) -> PaxosState<T>
    decreases pairs.len(),
{
    if pairs.len() == 0 {
        s
    } else {
        let before = with_decisions(s, pairs.drop_last());
        let (slot, value) = pairs.last();
        PaxosState {
            decided: before.decided.insert(slot, value),
            next_slot: past(before.next_slot, slot),
            ..before
        }
    }
}

/// The acceptor states of undecided slots after they were loaded; no slot with
/// one is proposed for again.
pub open spec fn with_acceptors<T>(
    s: PaxosState<T>,
    states: Seq<(u64, Option<Ballot>, Option<(Ballot, T)>)>,
) -> PaxosState<T>
    decreases states.len(),
{
    if states.len() == 0 {
        s
    } else {
        let before = with_acceptors(s, states.drop_last());
        let (slot, promised, accepted) = states.last();
        if before.decided.contains_key(slot) {
            before
        } else {
            PaxosState {
                next_slot: past(before.next_slot, slot),
                ..before.with_instance(
                    slot,
                    Instance { promised, accepted, ..before.instance(slot) },
                )
            }
        }
    }
}

} // verus!
