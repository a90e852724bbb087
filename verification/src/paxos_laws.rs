//! What every step of a Multi-Paxos node keeps.
use crate::config::NodeName;
use crate::message::{ballot_le, ballot_order_is_total, Ballot, Packet, PaxosMsg};
use crate::paxos_model::{changed_states, past, quiet, tell_all, Instance, PaxosState};
use crate::paxos_protocol::{concluded, noted, open_slots};
use crate::storage::{Acceptor, PaxosStored};
use vstd::prelude::*;

verus! {

/// One step of a node: a message, a proposal or a retry.
pub enum PaxosEvent<T> {
    Receive { from: NodeName, message: PaxosMsg<T>, now: u64, jitter: u64 },
    Propose { value: T, now: u64, jitter: u64 },
    Retry { slot: u64, now: u64, jitter: u64 },
}

impl<T> PaxosState<T> {
    /// The state after an event.
    pub open spec fn after_event(self, event: PaxosEvent<T>) -> PaxosState<T> {
        match event {
            PaxosEvent::Receive { from, message, now, jitter } => self.receive(
                from,
                message,
                now,
                jitter,
            ).0,
            PaxosEvent::Propose { value, now, jitter } => self.propose(value, now, jitter).0,
            PaxosEvent::Retry { slot, now, jitter } => self.retry(slot, now, jitter).0,
        }
    }

    /// The messages that an event leads to.
    pub open spec fn sent_after(self, event: PaxosEvent<T>) -> Seq<Packet<PaxosMsg<T>>> {
        match event {
            PaxosEvent::Receive { from, message, now, jitter } => self.receive(
                from,
                message,
                now,
                jitter,
            ).1,
            PaxosEvent::Propose { value, now, jitter } => self.propose(value, now, jitter).1,
            PaxosEvent::Retry { slot, now, jitter } => self.retry(slot, now, jitter).1,
        }
    }

    /// Whether an event is possible.
    pub open spec fn allows(self, event: PaxosEvent<T>) -> bool {
        match event {
            PaxosEvent::Receive { from, message, .. } => self.can_handle(from, message),
            PaxosEvent::Propose { .. } => self.next_slot < u64::MAX,
            PaxosEvent::Retry { slot, .. } => self.can_retry(slot),
        }
    }
}

impl<T> PaxosState<T> {
    /// Decided slots are closed and lie below the next slot, as do the slots of
    /// own proposals, every proposal has a value, and what waits for delivery is
    /// decided.
    pub open spec fn tidy(self) -> bool {
        &&& self.sound()
        &&& forall|slot: u64| #[trigger]
            self.decided.contains_key(slot) ==> slot < self.next_slot
                && !self.instances.contains_key(slot)
        &&& forall|slot: u64| #[trigger]
            self.instances.contains_key(slot) && self.instances[slot].is_proposer ==> slot
                < self.next_slot
        &&& forall|k: int|
            0 <= k < self.pending_decisions.len() ==> self.decided.contains_key(
                (#[trigger] self.pending_decisions[k]).0,
            ) && self.decided[self.pending_decisions[k].0] == self.pending_decisions[k].1
        &&& self.next_slot == 0 || self.known((self.next_slot - 1) as u64)
    }

    /// Whether a slot is open or decided.
    pub open spec fn known(self, slot: u64) -> bool {
        self.decided.contains_key(slot) || self.instances.contains_key(slot)
    }
}

/// What the acceptor of an instance remembers.
pub open spec fn acceptor_of<T>(i: Instance<T>) -> Acceptor<T> {
    Acceptor { promised: i.promised, accepted: i.accepted }
}

/// The slot that an event is about.
pub open spec fn slot_of<T>(s: PaxosState<T>, event: PaxosEvent<T>) -> u64 {
    match event {
        PaxosEvent::Receive { message, .. } => match message {
            PaxosMsg::Prepare { slot, .. } => slot,
            PaxosMsg::Promise { slot, .. } => slot,
            PaxosMsg::Accept { slot, .. } => slot,
            PaxosMsg::Accepted { slot, .. } => slot,
            PaxosMsg::Decide { slot, .. } => slot,
            PaxosMsg::NackPrepare { slot, .. } => slot,
            PaxosMsg::NackAccept { slot, .. } => slot,
        },
        PaxosEvent::Propose { .. } => s.next_slot,
        PaxosEvent::Retry { slot, .. } => slot,
    }
}

/// Whether a state differs from another in one slot only, which was not decided:
/// it is open as `t` has it, or it was decided just now.
pub open spec fn moves_on<T>(s: PaxosState<T>, t: PaxosState<T>, slot: u64) -> bool {
    &&& t.node_id == s.node_id
    &&& t.quorum == s.quorum
    &&& s.next_slot <= t.next_slot
    &&& forall|x: u64|
        x != slot ==> (#[trigger] t.instances.contains_key(x)) == s.instances.contains_key(x) && (
        s.instances.contains_key(x) ==> t.instances[x] == s.instances[x])
    &&& t.dirty == s.dirty || t.dirty == s.dirty.push(slot) || t.dirty == s.dirty.push(slot).push(
        slot,
    )
    &&& {
        ||| {
            // The slot stays open, or was not.
            &&& t.decided == s.decided
            &&& t.pending_decisions == s.pending_decisions
            &&& s.instances.contains_key(slot) ==> t.instances.contains_key(slot)
            &&& t.instances.contains_key(slot) && t.dirty == s.dirty
                ==> s.instances.contains_key(slot) && acceptor_of(t.instances[slot])
                == acceptor_of(s.instances[slot])
            &&& t.next_slot == s.next_slot || (t.next_slot == s.next_slot + 1 && slot == s.next_slot
                && t.instances.contains_key(slot))
        }
        ||| {
            // The slot is decided.
            &&& !s.decided.contains_key(slot)
            &&& t.decided.contains_key(slot)
            &&& t.decided == s.decided.insert(slot, t.decided[slot])
            &&& t.pending_decisions == s.pending_decisions.push((slot, t.decided[slot]))
            &&& !t.instances.contains_key(slot)
            &&& slot < t.next_slot
            &&& t.next_slot == s.next_slot || t.next_slot == slot + 1
        }
    }
}

/// Phase 2 concerns its slot only.
proof fn lemma_phase2_moves<T>(s: PaxosState<T>, slot: u64, now: u64)
    requires
        s.instances.contains_key(slot),
        !s.decided.contains_key(slot),
        s.instances[slot].phase2_voted(s.node_id).accepts.len() >= s.quorum ==> slot < u64::MAX,
    ensures
        ({
            let t = s.start_phase2(slot, now).0;
            let i = s.instances[slot].phase2_voted(s.node_id);
            &&& t.node_id == s.node_id
            &&& t.quorum == s.quorum
            &&& t.dirty == s.dirty || t.dirty == s.dirty.push(slot)
            &&& if i.accepts.len() >= s.quorum {
                &&& t.instances == s.instances.remove(slot)
                &&& t.decided == s.decided.insert(slot, s.instances[slot].phase2_value())
                &&& t.pending_decisions == s.pending_decisions.push(
                    (slot, s.instances[slot].phase2_value()),
                )
                &&& t.next_slot == past(s.next_slot, slot)
                &&& t.lost == (if s.loses(slot, s.instances[slot].phase2_value()) {
                    s.lost.push(s.instances[slot].proposed->0)
                } else {
                    s.lost
                })
            } else {
                &&& t.instances == s.instances.insert(slot, i)
                &&& t.decided == s.decided
                &&& t.pending_decisions == s.pending_decisions
                &&& t.next_slot == s.next_slot
                &&& t.dirty == s.dirty ==> acceptor_of(i) == acceptor_of(s.instances[slot])
            }
        }),
{
    let t = s.start_phase2(slot, now).0;
    let i = s.instances[slot].phase2_voted(s.node_id);
    assert(s.dirty.push(slot).len() == s.dirty.len() + 1);
    if i.accepts.len() >= s.quorum {
        assert(t.instances =~= s.instances.remove(slot));
    } else {
        assert(t.instances =~= s.instances.insert(slot, i));
    }
}

/// Every event changes the state of one slot, and an undecided one only.
pub proof fn every_event_moves_one_slot<T>(s: PaxosState<T>, event: PaxosEvent<T>)
    requires
        s.allows(event),
        s.tidy(),
    ensures
        s.after_event(event) == s || moves_on(s, s.after_event(event), slot_of(s, event)),
{
    let t = s.after_event(event);
    let slot = slot_of(s, event);
    assert(s.dirty.push(slot).len() == s.dirty.len() + 1);
    match event {
        PaxosEvent::Receive { from, message, now, jitter } => match message {
            PaxosMsg::Promise { slot, proposal_number, accepted } => {
                if s.current(slot, proposal_number) {
                    let i = s.instances[slot].with_promise(from, accepted);
                    let m = s.with_instance(slot, i);
                    if i.promises.len() >= s.quorum {
                        lemma_phase2_moves(m, slot, now);
                    }
                }
            },
            PaxosMsg::Prepare { .. } => {},
            PaxosMsg::Accept { .. } => {},
            PaxosMsg::Accepted { .. } => {},
            PaxosMsg::Decide { .. } => {},
            PaxosMsg::NackPrepare { .. } => {},
            PaxosMsg::NackAccept { .. } => {},
        },
        PaxosEvent::Propose { value, now, jitter } => {
            let i = s.instance(slot).opened(s.node_id, value, now, jitter);
            let m = PaxosState {
                next_slot: (slot + 1) as u64,
                ..s.with_instance(slot, i).touched(slot)
            };
            if i.promises.len() >= s.quorum {
                lemma_phase2_moves(m, slot, now);
            }
        },
        PaxosEvent::Retry { slot, now, jitter } => {
            if s.proposing(slot) {
                let i = s.instances[slot].reopened(s.node_id, now, jitter);
                let m = s.with_instance(slot, i).touched(slot);
                if i.promises.len() >= s.quorum {
                    lemma_phase2_moves(m, slot, now);
                }
            }
        },
    }
}

/// Every proposal of a node keeps its value through an event.
proof fn lemma_sound_kept<T>(s: PaxosState<T>, event: PaxosEvent<T>)
    requires
        s.allows(event),
        s.tidy(),
    ensures
        s.after_event(event).sound(),
        forall|slot: u64| #[trigger]
            s.after_event(event).instances.contains_key(slot) && s.after_event(
                event,
            ).instances[slot].is_proposer ==> slot < s.after_event(event).next_slot,
{
    let t = s.after_event(event);
    let slot = slot_of(s, event);
    assert forall|x: u64| #[trigger]
        t.instances.contains_key(x) && t.instances[x].is_proposer implies t.instances[x].proposed
        is Some && x < u64::MAX && x < t.next_slot by {
        every_event_moves_one_slot(s, event);
        if x != slot || t == s {
            assert(s.instances.contains_key(x));
        } else {
            match event {
                PaxosEvent::Receive { from, message, now, jitter } => match message {
                    PaxosMsg::Promise { slot, proposal_number, accepted } => {
                        let i = s.instances[slot].with_promise(from, accepted);
                        lemma_phase2_moves(s.with_instance(slot, i), slot, now);
                    },
                    PaxosMsg::Prepare { slot, .. } => {
                        assert(s.instances.contains_key(slot) || !s.instances.contains_key(slot));
                    },
                    PaxosMsg::Accept { slot, .. } => {
                        assert(s.instances.contains_key(slot) || !s.instances.contains_key(slot));
                    },
                    PaxosMsg::Accepted { .. } => {},
                    PaxosMsg::Decide { .. } => {},
                    PaxosMsg::NackPrepare { .. } => {},
                    PaxosMsg::NackAccept { .. } => {},
                },
                PaxosEvent::Propose { value, now, jitter } => {
                    let i = s.instance(slot).opened(s.node_id, value, now, jitter);
                    let m = PaxosState {
                        next_slot: (slot + 1) as u64,
                        ..s.with_instance(slot, i).touched(slot)
                    };
                    lemma_phase2_moves(m, slot, now);
                },
                PaxosEvent::Retry { slot, now, jitter } => {
                    let i = s.instances[slot].reopened(s.node_id, now, jitter);
                    lemma_phase2_moves(s.with_instance(slot, i).touched(slot), slot, now);
                },
            }
        }
    }
}

/// Order is kept: after every event decided slots are closed and lie below the
/// next slot, every proposal has a value, and what waits for delivery is
/// decided.
pub proof fn every_event_keeps_order<T>(s: PaxosState<T>, event: PaxosEvent<T>)
    requires
        s.allows(event),
        s.tidy(),
    ensures
        s.after_event(event).tidy(),
{
    let t = s.after_event(event);
    let slot = slot_of(s, event);
    every_event_moves_one_slot(s, event);
    lemma_sound_kept(s, event);
    if t != s {
        assert forall|x: u64| #[trigger] t.decided.contains_key(x) implies x < t.next_slot
            && !t.instances.contains_key(x) by {
            if x != slot {
                assert(s.decided.contains_key(x));
            }
        }
        assert forall|k: int| 0 <= k < t.pending_decisions.len() implies t.decided.contains_key(
            (#[trigger] t.pending_decisions[k]).0,
        ) && t.decided[t.pending_decisions[k].0] == t.pending_decisions[k].1 by {
            if k < s.pending_decisions.len() {
                assert(t.pending_decisions[k] == s.pending_decisions[k]);
                assert(s.decided.contains_key(s.pending_decisions[k].0));
            }
        }
        if t.next_slot != 0 {
            let last = (t.next_slot - 1) as u64;
            if t.next_slot == s.next_slot {
                assert(s.known(last));
                assert(t.instances.contains_key(last) || !t.instances.contains_key(last));
            }
            assert(t.known(last));
        }
    }
}

/// A decision is final: whatever happens, the slot keeps its value. And the next
/// slot never goes back.
pub proof fn decisions_are_final<T>(s: PaxosState<T>, event: PaxosEvent<T>, slot: u64)
    requires
        s.allows(event),
        s.tidy(),
        s.decided.contains_key(slot),
    ensures
        s.after_event(event).decided.contains_key(slot),
        s.after_event(event).decided[slot] == s.decided[slot],
        s.next_slot <= s.after_event(event).next_slot,
{
    every_event_moves_one_slot(s, event);
}

/// No proposal is dropped: an open proposal stays open with its value, or its
/// slot is decided with that value, or the value is handed back to be proposed
/// again.
pub proof fn proposals_are_kept<T>(s: PaxosState<T>, event: PaxosEvent<T>, slot: u64)
    requires
        s.allows(event),
        s.tidy(),
        s.proposing(slot),
    ensures
        ({
            let t = s.after_event(event);
            let value = s.instances[slot].proposed;
            ||| t.proposing(slot) && t.instances[slot].proposed == value
            ||| t.decided.contains_key(slot) && Some(t.decided[slot]) == value
            ||| t.lost.contains(value->0)
        }),
{
    let t = s.after_event(event);
    assert(s.instances[slot].proposed is Some);
    every_event_moves_one_slot(s, event);
    if slot == slot_of(s, event) {
        match event {
            PaxosEvent::Receive { from, message, now, jitter } => match message {
                PaxosMsg::Promise { slot, proposal_number, accepted } => {
                    if s.current(slot, proposal_number) {
                        let i = s.instances[slot].with_promise(from, accepted);
                        lemma_phase2_moves(s.with_instance(slot, i), slot, now);
                        if t.lost.len() > s.lost.len() {
                            assert(t.lost.last() == s.instances[slot].proposed->0);
                        }
                    }
                },
                PaxosMsg::Decide { slot, value } => {
                    if s.instances[slot].proposed->0 != value {
                        assert(t.lost.last() == s.instances[slot].proposed->0);
                    }
                },
                PaxosMsg::Prepare { .. } => {},
                PaxosMsg::Accept { .. } => {},
                PaxosMsg::Accepted { slot, .. } => {
                    if t.lost.len() > s.lost.len() {
                        assert(t.lost.last() == s.instances[slot].proposed->0);
                    }
                },
                PaxosMsg::NackPrepare { .. } => {},
                PaxosMsg::NackAccept { .. } => {},
            },
            PaxosEvent::Propose { .. } => {},
            PaxosEvent::Retry { slot, now, jitter } => {
                let i = s.instances[slot].reopened(s.node_id, now, jitter);
                lemma_phase2_moves(s.with_instance(slot, i).touched(slot), slot, now);
                if t.lost.len() > s.lost.len() {
                    assert(t.lost.last() == s.instances[slot].proposed->0);
                }
            },
        }
    } else {
        assert(t.instances.contains_key(slot));
    }
}

/// A decision is queued for delivery once: an event queues nothing, or the
/// decision on a slot that was not decided before.
pub proof fn decisions_are_queued_once<T>(s: PaxosState<T>, event: PaxosEvent<T>)
    requires
        s.allows(event),
        s.tidy(),
    ensures
        ({
            let t = s.after_event(event);
            let slot = slot_of(s, event);
            ||| t.decided == s.decided && t.pending_decisions == s.pending_decisions
            ||| !s.decided.contains_key(slot) && t.decided == s.decided.insert(
                slot,
                t.decided[slot],
            ) && t.pending_decisions == s.pending_decisions.push((slot, t.decided[slot]))
        }),
{
    every_event_moves_one_slot(s, event);
}

/// A promise is kept: as long as a slot is open, the number promised for it
/// never goes back.
pub proof fn promises_never_go_back<T>(s: PaxosState<T>, event: PaxosEvent<T>, slot: u64)
    requires
        s.allows(event),
        s.tidy(),
        s.instance(slot).promised is Some,
        s.after_event(event).instances.contains_key(slot),
    ensures
        s.after_event(event).instances[slot].promised is Some,
        ballot_le(
            s.instance(slot).promised->0,
            s.after_event(event).instances[slot].promised->0,
        ),
{
    let t = s.after_event(event);
    let p = s.instance(slot).promised->0;
    every_event_moves_one_slot(s, event);
    if slot == slot_of(s, event) && t != s {
        match event {
            PaxosEvent::Receive { from, message, now, jitter } => match message {
                PaxosMsg::Promise { proposal_number, accepted, .. } => {
                    let i = s.instances[slot].with_promise(from, accepted);
                    if i.promises.len() >= s.quorum {
                        lemma_phase2_moves(s.with_instance(slot, i), slot, now);
                        ballot_order_is_total(p, i.number);
                    }
                },
                PaxosMsg::Prepare { proposal_number, .. } => {
                    ballot_order_is_total(p, proposal_number);
                },
                PaxosMsg::Accept { proposal_number, .. } => {
                    ballot_order_is_total(p, proposal_number);
                },
                PaxosMsg::Accepted { .. } => {},
                PaxosMsg::Decide { .. } => {},
                PaxosMsg::NackPrepare { .. } => {},
                PaxosMsg::NackAccept { .. } => {},
            },
            PaxosEvent::Propose { value, now, jitter } => {
                let i = s.instance(slot).opened(s.node_id, value, now, jitter);
                let m = PaxosState {
                    next_slot: (slot + 1) as u64,
                    ..s.with_instance(slot, i).touched(slot)
                };
                lemma_phase2_moves(m, slot, now);
                ballot_order_is_total(p, i.number);
            },
            PaxosEvent::Retry { now, jitter, .. } => {
                let i = s.instances[slot].reopened(s.node_id, now, jitter);
                lemma_phase2_moves(s.with_instance(slot, i).touched(slot), slot, now);
            },
        }
    }
}

/// An acceptor keeps its word: as long as a slot is open, no event takes back a
/// promise, and what is newly accepted there is not below the promise and is the
/// number promised from then on.
pub proof fn acceptors_keep_their_word<T>(s: PaxosState<T>, event: PaxosEvent<T>, slot: u64)
    requires
        s.allows(event),
        !s.decided.contains_key(slot),
        !s.after_event(event).decided.contains_key(slot),
    ensures
        ({
            let i = s.instance(slot);
            let j = s.after_event(event).instance(slot);
            &&& i.promised matches Some(p) ==> j.promised is Some && ballot_le(p, j.promised->0)
            &&& j.accepted == i.accepted || (j.accepted is Some && i.accepts_at(
                (j.accepted->0).0,
            ) && j.promised == Some((j.accepted->0).0))
        }),
{
    let t = s.after_event(event);
    let i = s.instance(slot);
    let j = t.instance(slot);
    match event {
        PaxosEvent::Receive { from, message, now, jitter } => match message {
            PaxosMsg::Prepare { proposal_number, .. } => {
                if let Some(p) = i.promised {
                    ballot_order_is_total(p, proposal_number);
                }
            },
            PaxosMsg::Promise { proposal_number, accepted, .. } => {
                if let Some(p) = i.promised {
                    ballot_order_is_total(p, i.number);
                }
            },
            PaxosMsg::Accept { proposal_number, .. } => {
                if let Some(p) = i.promised {
                    ballot_order_is_total(p, proposal_number);
                }
            },
            PaxosMsg::Accepted { .. } => {},
            PaxosMsg::Decide { .. } => {},
            PaxosMsg::NackPrepare { .. } => {},
            PaxosMsg::NackAccept { .. } => {},
        },
        PaxosEvent::Propose { .. } => {
            if let Some(p) = i.promised {
                ballot_order_is_total(p, (1u64, s.node_id));
            }
        },
        PaxosEvent::Retry { .. } => {},
    }
}

/// A node remembers what it asks for: every accept request is for the current
/// round of its slot, with the value that the round asks for.
pub proof fn requests_are_remembered<T>(s: PaxosState<T>, event: PaxosEvent<T>, k: int)
    requires
        s.allows(event),
        0 <= k < s.sent_after(event).len(),
        s.sent_after(event)[k].message is Accept,
    ensures
        ({
            let t = s.after_event(event);
            s.sent_after(event)[k].message matches PaxosMsg::Accept {
                slot,
                proposal_number,
                value,
            } && t.instances.contains_key(slot) && t.instances[slot].number == proposal_number
                && t.instances[slot].asked == Some(value)
        }),
{
}

/// A number carries one value: once a round asks for a value, it asks for no
/// other. What a slot asks for stays as long as its round does.
pub proof fn a_number_carries_one_value<T>(s: PaxosState<T>, event: PaxosEvent<T>, slot: u64)
    requires
        s.allows(event),
        s.tidy(),
        s.proposing(slot),
        s.instances[slot].asked is Some,
        s.after_event(event).instances.contains_key(slot),
        s.after_event(event).instances[slot].number == s.instances[slot].number,
    ensures
        s.after_event(event).instances[slot].asked == s.instances[slot].asked,
{
    if slot != slot_of(s, event) {
        every_event_moves_one_slot(s, event);
    }
}

/// The promise handler keeps to one value per number: promises that come once a
/// round asks for a value ask for that value again, whatever they report, and if
/// they decide the slot, they decide it with that value.
pub proof fn late_promises_change_no_value<T>(
    s: PaxosState<T>,
    from: NodeName,
    slot: u64,
    number: Ballot,
    accepted: Option<(Ballot, T)>,
    now: u64,
    value: T,
)
    requires
        s.current(slot, number),
        s.instances[slot].asked == Some(value),
    ensures
        ({
            let (t, out) = s.on_promise(from, slot, number, accepted, now);
            ||| out == quiet::<T>() && t.instances[slot].asked == Some(value)
            ||| out == tell_all(PaxosMsg::Accept { slot, proposal_number: number, value })
                && t.instances[slot].asked == Some(value)
            ||| out == tell_all(PaxosMsg::Decide { slot, value }) && t.decided == s.decided.insert(
                slot,
                value,
            )
        }),
{
}

/// A proposal takes the next slot, which nothing was decided or proposed for, and
/// the next proposal takes a higher one. Where no promise was counted in the slot
/// yet, the one message asks for promises in round 1, and a node that is a quorum
/// by itself decides the value at once.
pub proof fn proposals_open_the_next_slot<T>(s: PaxosState<T>, value: T, now: u64, jitter: u64)
    requires
        s.tidy(),
        s.next_slot < u64::MAX,
        s.quorum > 0,
        s.instance(s.next_slot).promises == Set::<NodeName>::empty(),
        s.instance(s.next_slot).accepts == Set::<NodeName>::empty(),
    ensures
        ({
            let slot = s.next_slot;
            let number = (1u64, s.node_id);
            let i = s.instance(slot);
            let (t, out) = s.propose(value, now, jitter);
            &&& !s.decided.contains_key(slot)
            &&& !s.proposing(slot)
            &&& t.next_slot == slot + 1
            &&& s.quorum > 1 ==> out == tell_all(
                PaxosMsg::<T>::Prepare { slot, proposal_number: number },
            ) && t.decided == s.decided && t.pending_decisions == s.pending_decisions
            &&& s.quorum == 1 && i.accepts_at(number) && i.accepted is None
                && i.highest_accepted is None ==> out == tell_all(PaxosMsg::Decide { slot, value })
                && t.decided == s.decided.insert(slot, value) && t.pending_decisions
                == s.pending_decisions.push((slot, value)) && t.lost == s.lost
        }),
{
    let slot = s.next_slot;
    let i = s.instance(slot);
    let j = i.opened(s.node_id, value, now, jitter);
    assert(i.promises.insert(s.node_id).len() == 1);
    assert(i.accepts.insert(s.node_id).len() == 1);
    assert(s.decided.contains_key(slot) ==> slot < s.next_slot);
    assert(j.promises.len() <= 1);
}

impl<T> PaxosState<T> {
    /// The state after a list of events.
    pub open spec fn after_events(self, events: Seq<PaxosEvent<T>>) -> PaxosState<T>
        decreases events.len(),
    {
        if events.len() == 0 {
            self
        } else {
            self.after_events(events.drop_last()).after_event(events.last())
        }
    }

    /// Whether a list of events is possible.
    pub open spec fn allows_all(self, events: Seq<PaxosEvent<T>>) -> bool
        decreases events.len(),
    {
        events.len() > 0 ==> self.allows_all(events.drop_last()) && self.after_events(
            events.drop_last(),
        ).allows(events.last())
    }
}

/// No two proposals of a node take the same slot, whatever happens between them.
pub proof fn proposals_never_share_a_slot<T>(
    s: PaxosState<T>,
    value: T,
    now: u64,
    jitter: u64,
    events: Seq<PaxosEvent<T>>,
)
    requires
        s.tidy(),
        s.next_slot < u64::MAX,
        s.propose(value, now, jitter).0.allows_all(events),
    ensures
        s.propose(value, now, jitter).0.after_events(events).tidy(),
        s.next_slot < s.propose(value, now, jitter).0.after_events(events).next_slot,
    decreases events.len(),
{
    let t = s.propose(value, now, jitter).0;
    if events.len() == 0 {
        every_event_keeps_order(s, PaxosEvent::Propose { value, now, jitter });
        proposals_take_fresh_slots(s, value, now, jitter);
    } else {
        proposals_never_share_a_slot(s, value, now, jitter, events.drop_last());
        let u = t.after_events(events.drop_last());
        every_event_moves_one_slot(u, events.last());
        every_event_keeps_order(u, events.last());
    }
}

/// A proposal takes a fresh slot: above every slot that the node decided or
/// proposed for, and below the slot of its next proposal.
pub proof fn proposals_take_fresh_slots<T>(s: PaxosState<T>, value: T, now: u64, jitter: u64)
    requires
        s.tidy(),
        s.next_slot < u64::MAX,
    ensures
        forall|slot: u64| #[trigger] s.decided.contains_key(slot) ==> slot < s.next_slot,
        forall|slot: u64| #[trigger] s.proposing(slot) ==> slot < s.next_slot,
        s.next_slot < s.propose(value, now, jitter).0.next_slot,
        ({
            let t = s.propose(value, now, jitter).0;
            t.decided.contains_key(s.next_slot) || (t.instances.contains_key(s.next_slot)
                && t.instances[s.next_slot].proposed == Some(value))
        }),
{
}

/// No restored slot is proposed for: the next slot lies above every slot with a
/// persisted decision or acceptor state.
pub proof fn restored_slots_lie_below<T>(
    s: PaxosState<T>,
    stored: PaxosStored<T>,
    t: PaxosState<T>,
    slot: u64,
)
    requires
        s.tidy(),
        s.recovers(stored, t),
        stored.decisions.contains_key(slot) || stored.acceptors.contains_key(slot),
    ensures
        slot < t.next_slot,
{
    let decided = s.decided.union_prefer_right(stored.decisions);
    let open = open_slots(stored, decided);
    if stored.decisions.contains_key(slot) || open.contains(slot) {
        assert(stored.decisions.dom().union(open).contains(slot));
    } else {
        assert(s.decided.contains_key(slot));
    }
}

/// A retry outbids: its round is above every round that the acceptor promised,
/// that the node was refused with, or that it used before.
pub proof fn retries_outbid<T>(i: Instance<T>, node: NodeName, now: u64, jitter: u64)
    requires
        i.last_round() < u64::MAX,
        i.retry_count < u32::MAX,
    ensures
        ({
            let round = i.reopened(node, now, jitter).number.0;
            &&& round > i.number.0
            &&& i.promised matches Some(p) ==> round > p.0
            &&& i.highest_nack matches Some(r) ==> round > r
        }),
{
}

/// Whether a storage holds what a node has to remember: the acceptor state of
/// every open slot that is not marked as changed, every decision that does not
/// wait for delivery, and nothing the node does not know.
pub open spec fn mirrored<T>(s: PaxosState<T>, stored: PaxosStored<T>) -> bool {
    &&& forall|slot: u64|
        s.instances.contains_key(slot) && !(#[trigger] s.dirty.contains(slot))
            ==> stored.acceptors.contains_key(slot) && stored.acceptors[slot] == acceptor_of(
            s.instances[slot],
        )
    &&& forall|slot: u64| #[trigger] stored.acceptors.contains_key(slot) ==> s.known(slot)
    &&& forall|slot: u64| #[trigger]
        s.decided.contains_key(slot) ==> s.pending_decisions.contains((slot, s.decided[slot])) || (
        stored.decisions.contains_key(slot) && stored.decisions[slot] == s.decided[slot])
    &&& forall|slot: u64| #[trigger]
        stored.decisions.contains_key(slot) ==> s.decided.contains_key(slot)
            && stored.decisions[slot] == s.decided[slot]
}

/// Nothing is forgotten: an event marks every acceptor state it changes and
/// queues every decision it makes, so that a storage that held what the node has
/// to remember still does.
pub proof fn every_event_keeps_the_mirror<T>(
    s: PaxosState<T>,
    stored: PaxosStored<T>,
    event: PaxosEvent<T>,
)
    requires
        s.allows(event),
        s.tidy(),
        mirrored(s, stored),
    ensures
        mirrored(s.after_event(event), stored),
{
    let t = s.after_event(event);
    let slot = slot_of(s, event);
    every_event_moves_one_slot(s, event);
    if t != s {
        assert forall|x: u64|
            t.instances.contains_key(x) && !(#[trigger] t.dirty.contains(x)) implies
            stored.acceptors.contains_key(x) && stored.acceptors[x] == acceptor_of(
            t.instances[x],
        ) by {
            if s.dirty.contains(x) {
                let k = choose|k: int| 0 <= k < s.dirty.len() && s.dirty[k] == x;
                assert(t.dirty[k] == x);
            }
            if x == slot && t.dirty != s.dirty {
                assert(t.dirty[s.dirty.len() as int] == x);
            }
            assert(s.instances.contains_key(x));
        }
        assert forall|x: u64| #[trigger] stored.acceptors.contains_key(x) implies t.known(x) by {
            assert(s.known(x));
            assert(t.instances.contains_key(x) || !t.instances.contains_key(x));
        }
        assert forall|x: u64| #[trigger] t.decided.contains_key(x) implies
            t.pending_decisions.contains((x, t.decided[x])) || (stored.decisions.contains_key(x)
            && stored.decisions[x] == t.decided[x]) by {
            if s.decided.contains_key(x) {
                if s.pending_decisions.contains((x, s.decided[x])) {
                    let k = choose|k: int|
                        0 <= k < s.pending_decisions.len() && s.pending_decisions[k] == (
                            x,
                            s.decided[x],
                        );
                    assert(t.pending_decisions[k] == (x, t.decided[x]));
                }
            } else {
                assert(t.pending_decisions[s.pending_decisions.len() as int] == (x, t.decided[x]));
            }
        }
    }
}

/// The last change written for a slot is the one that counts.
pub proof fn lemma_noted<T>(
    acceptors: Map<u64, Acceptor<T>>,
    dirty: Seq<u64>,
    instances: Map<u64, Instance<T>>,
)
    ensures
        ({
            let after = noted(acceptors, changed_states(dirty, instances));
            &&& forall|slot: u64| #[trigger]
                after.contains_key(slot) <==> acceptors.contains_key(slot) || (dirty.contains(slot)
                    && instances.contains_key(slot))
            &&& forall|slot: u64| #[trigger]
                after.contains_key(slot) ==> after[slot] == (if dirty.contains(slot)
                    && instances.contains_key(slot) {
                    acceptor_of(instances[slot])
                } else {
                    acceptors[slot]
                })
        }),
    decreases dirty.len(),
{
    let after = noted(acceptors, changed_states(dirty, instances));
    if dirty.len() == 0 {
        assert(changed_states(dirty, instances).len() == 0);
    } else {
        let rest = dirty.drop_last();
        lemma_noted(acceptors, rest, instances);
        let last = dirty.last();
        let before = noted(acceptors, changed_states(rest, instances));
        assert forall|slot: u64| #[trigger] dirty.contains(slot) <==> rest.contains(slot) || slot
            == last by {
            if rest.contains(slot) {
                let k = choose|k: int| 0 <= k < rest.len() && rest[k] == slot;
                assert(dirty[k] == slot);
            }
            if slot == last {
                assert(dirty[dirty.len() - 1] == slot);
            }
            if dirty.contains(slot) && slot != last {
                let k = choose|k: int| 0 <= k < dirty.len() && dirty[k] == slot;
                assert(rest[k] == slot);
            }
        }
        let changes = changed_states(dirty, instances);
        if instances.contains_key(last) {
            assert(changes.drop_last() =~= changed_states(rest, instances));
            assert(changes.last() == (last, instances[last].promised, instances[last].accepted));
            assert(after == before.insert(last, acceptor_of(instances[last])));
        } else {
            assert(changes == changed_states(rest, instances));
        }
        assert forall|slot: u64| #[trigger]
            after.contains_key(slot) <==> acceptors.contains_key(slot) || (dirty.contains(slot)
                && instances.contains_key(slot)) by {
            assert(before.contains_key(slot) <==> acceptors.contains_key(slot) || (rest.contains(
                slot,
            ) && instances.contains_key(slot)));
        }
        assert forall|slot: u64| #[trigger] after.contains_key(slot) implies after[slot] == (
        if dirty.contains(slot) && instances.contains_key(slot) {
            acceptor_of(instances[slot])
        } else {
            acceptors[slot]
        }) by {
            if slot != last || !instances.contains_key(last) {
                assert(before.contains_key(slot));
            }
        }
    }
}

/// Writing what is marked keeps the storage up to the node, with nothing left to
/// write.
pub proof fn flushing_keeps_the_mirror<T>(s: PaxosState<T>, stored: PaxosStored<T>)
    requires
        mirrored(s, stored),
    ensures
        mirrored(
            PaxosState { dirty: Seq::empty(), ..s },
            PaxosStored {
                acceptors: noted(stored.acceptors, changed_states(s.dirty, s.instances)),
                ..stored
            },
        ),
{
    let t = PaxosState { dirty: Seq::<u64>::empty(), ..s };
    let after = noted(stored.acceptors, changed_states(s.dirty, s.instances));
    lemma_noted(stored.acceptors, s.dirty, s.instances);
    assert forall|slot: u64|
        t.instances.contains_key(slot) && !(#[trigger] t.dirty.contains(slot)) implies
        after.contains_key(slot) && after[slot] == acceptor_of(t.instances[slot]) by {
        if !s.dirty.contains(slot) {
            assert(stored.acceptors.contains_key(slot));
        }
        assert(after.contains_key(slot));
    }
    assert forall|slot: u64| #[trigger] after.contains_key(slot) implies t.known(slot) by {
        if stored.acceptors.contains_key(slot) {
            assert(s.known(slot));
        }
    }
}

/// A storage after decisions were saved.
pub proof fn lemma_concluded<T>(stored: PaxosStored<T>, decisions: Seq<(u64, T)>)
    ensures
        ({
            let after = concluded(stored, decisions);
            &&& forall|slot: u64| #[trigger]
                after.decisions.contains_key(slot) ==> (stored.decisions.contains_key(slot)
                    && after.decisions[slot] == stored.decisions[slot]) || decisions.contains(
                    (slot, after.decisions[slot]),
                )
            &&& forall|slot: u64|
                stored.decisions.contains_key(slot) ==> #[trigger] after.decisions.contains_key(
                    slot,
                )
            &&& forall|k: int|
                0 <= k < decisions.len() ==> after.decisions.contains_key(
                    (#[trigger] decisions[k]).0,
                )
            &&& forall|slot: u64| #[trigger]
                after.acceptors.contains_key(slot) ==> stored.acceptors.contains_key(slot)
                    && after.acceptors[slot] == stored.acceptors[slot]
            &&& forall|slot: u64|
                stored.acceptors.contains_key(slot) && (forall|k: int|
                    0 <= k < decisions.len() ==> (#[trigger] decisions[k]).0 != slot)
                    ==> #[trigger] after.acceptors.contains_key(slot) && after.acceptors[slot]
                    == stored.acceptors[slot]
        }),
    decreases decisions.len(),
{
    if decisions.len() > 0 {
        let rest = decisions.drop_last();
        lemma_concluded(stored, rest);
        let before = concluded(stored, rest);
        let after = concluded(stored, decisions);
        let last = decisions.last();
        assert(decisions[decisions.len() - 1] == last);
        assert forall|slot: u64| #[trigger] after.decisions.contains_key(slot) implies (
        stored.decisions.contains_key(slot) && after.decisions[slot] == stored.decisions[slot])
            || decisions.contains((slot, after.decisions[slot])) by {
            if slot != last.0 {
                assert(before.decisions.contains_key(slot));
                if rest.contains((slot, before.decisions[slot])) {
                    let k = choose|k: int|
                        0 <= k < rest.len() && rest[k] == (slot, before.decisions[slot]);
                    assert(decisions[k] == (slot, after.decisions[slot]));
                }
            }
        }
        assert forall|k: int| 0 <= k < decisions.len() implies after.decisions.contains_key(
            (#[trigger] decisions[k]).0,
        ) by {
            if k < rest.len() {
                assert(before.decisions.contains_key(rest[k].0));
            }
        }
        assert forall|slot: u64|
            stored.acceptors.contains_key(slot) && (forall|k: int|
                0 <= k < decisions.len() ==> (#[trigger] decisions[k]).0 != slot) implies #[trigger]
        after.acceptors.contains_key(slot) && after.acceptors[slot]
            == stored.acceptors[slot] by {
            assert forall|k: int| 0 <= k < rest.len() implies (#[trigger] rest[k]).0 != slot by {
                assert(decisions[k] == rest[k]);
            }
            assert(before.acceptors.contains_key(slot));
        }
    }
}

/// Saving the first `count` of the decisions that wait for delivery keeps the
/// storage up to the node, with the others left to save.
pub proof fn saving_keeps_the_mirror<T>(s: PaxosState<T>, stored: PaxosStored<T>, count: int)
    requires
        s.tidy(),
        mirrored(s, stored),
        0 <= count <= s.pending_decisions.len(),
    ensures
        mirrored(
            PaxosState { pending_decisions: s.pending_decisions.skip(count), ..s },
            concluded(stored, s.pending_decisions.take(count)),
        ),
{
    let t = PaxosState { pending_decisions: s.pending_decisions.skip(count), ..s };
    let all = s.pending_decisions.take(count);
    let after = concluded(stored, all);
    lemma_concluded(stored, all);
    assert forall|slot: u64|
        t.instances.contains_key(slot) && !(#[trigger] t.dirty.contains(slot)) implies
        after.acceptors.contains_key(slot) && after.acceptors[slot] == acceptor_of(
        t.instances[slot],
    ) by {
        assert(!s.dirty.contains(slot));
        assert(stored.acceptors.contains_key(slot));
        assert forall|k: int| 0 <= k < all.len() implies (#[trigger] all[k]).0 != slot by {
            assert(all[k] == s.pending_decisions[k]);
            assert(s.decided.contains_key(all[k].0));
        }
        assert(after.acceptors.contains_key(slot));
    }
    assert forall|slot: u64| #[trigger] after.acceptors.contains_key(slot) implies t.known(slot) by {
        assert(s.known(slot));
    }
    assert forall|slot: u64| #[trigger] after.decisions.contains_key(slot) implies
        t.decided.contains_key(slot) && after.decisions[slot] == t.decided[slot] by {
        if stored.decisions.contains_key(slot) && after.decisions[slot]
            == stored.decisions[slot] {
        } else {
            let k = choose|k: int| 0 <= k < all.len() && all[k] == (slot, after.decisions[slot]);
            assert(all[k] == s.pending_decisions[k]);
            assert(s.decided.contains_key(all[k].0));
        }
    }
    assert forall|slot: u64| #[trigger] t.decided.contains_key(slot) implies
        t.pending_decisions.contains((slot, t.decided[slot])) || (after.decisions.contains_key(slot)
        && after.decisions[slot] == t.decided[slot]) by {
        if s.pending_decisions.contains((slot, s.decided[slot])) {
            let k = choose|k: int|
                0 <= k < s.pending_decisions.len() && s.pending_decisions[k] == (
                    slot,
                    s.decided[slot],
                );
            if k < count {
                assert(all[k] == s.pending_decisions[k]);
                assert(after.decisions.contains_key(all[k].0));
            } else {
                assert(t.pending_decisions[k - count] == s.pending_decisions[k]);
            }
        } else {
            assert(stored.decisions.contains_key(slot));
            assert(after.decisions.contains_key(slot));
        }
    }
}

/// What is left of an instance after a restart.
pub open spec fn reloaded<T>(i: Instance<T>) -> Instance<T> {
    Instance { promised: i.promised, accepted: i.accepted, ..Instance::fresh() }
}

impl<T> PaxosState<T> {
    /// The state after a restart with everything written and saved.
    pub open spec fn restarted(self, next_slot: u64) -> PaxosState<T> {
        PaxosState {
            next_slot,
            instances: self.instances.map_values(|i: Instance<T>| reloaded(i)),
            pending_decisions: Seq::empty(),
            lost: Seq::empty(),
            recent: Seq::empty(),
            dirty: Seq::empty(),
            ..self
        }
    }
}

/// A node that starts from a storage, whatever it holds, is in order, and the
/// storage holds what the node has to remember.
pub proof fn recovery_is_in_order<T>(
    id: NodeName,
    total_nodes: usize,
    stored: PaxosStored<T>,
    t: PaxosState<T>,
)
    requires
        PaxosState::<T>::initial(id, total_nodes).recovers(stored, t),
    ensures
        t.tidy(),
        mirrored(t, stored),
        t.dirty == Seq::<u64>::empty(),
{
    let fresh = PaxosState::<T>::initial(id, total_nodes);
    let decided = fresh.decided.union_prefer_right(stored.decisions);
    let open = open_slots(stored, decided);
    assert forall|slot: u64| #[trigger] t.instances.contains_key(slot) implies
        open.contains(slot) by {
        assert(t.instances.dom().contains(slot));
    }
    assert forall|slot: u64| #[trigger] open.contains(slot) implies
        t.instances.contains_key(slot) by {
        assert(t.instances.dom().contains(slot));
    }
    assert forall|slot: u64| #[trigger] t.decided.contains_key(slot) implies slot
        < t.next_slot && !t.instances.contains_key(slot) by {
        assert(stored.decisions.dom().union(open).contains(slot));
    }
    assert(t.next_slot == 0 || t.known((t.next_slot - 1) as u64)) by {
        if t.next_slot != 0 {
            let last = (t.next_slot - 1) as u64;
            assert(stored.decisions.dom().union(open).contains(last));
            if open.contains(last) {
                assert(t.instances.contains_key(last));
            } else {
                assert(stored.decisions.contains_key(last));
            }
        }
    }
    assert(t.sound()) by {
        assert forall|slot: u64| #[trigger]
            t.instances.contains_key(slot) && t.instances[slot].is_proposer implies
            t.instances[slot].proposed is Some && slot < u64::MAX by {
            assert(open.contains(slot));
        }
    }
    assert(t.tidy());
    assert forall|slot: u64| #[trigger] stored.acceptors.contains_key(slot) implies t.known(
        slot,
    ) by {
        if !decided.contains_key(slot) {
            assert(open.contains(slot));
        }
    }
    assert(mirrored(t, stored));
}

/// Acceptor states are written and not taken back: after an event and the writes
/// that follow it, a storage still has every acceptor state it had, and those of
/// slots that are not open are as they were. Only a saved decision ends one.
pub proof fn acceptor_states_stay<T>(
    s: PaxosState<T>,
    stored: PaxosStored<T>,
    event: PaxosEvent<T>,
    slot: u64,
)
    requires
        stored.acceptors.contains_key(slot),
    ensures
        ({
            let t = s.after_event(event);
            let after = noted(stored.acceptors, changed_states(t.dirty, t.instances));
            &&& after.contains_key(slot)
            &&& !t.instances.contains_key(slot) ==> after[slot] == stored.acceptors[slot]
        }),
{
    let t = s.after_event(event);
    lemma_noted(stored.acceptors, t.dirty, t.instances);
}

/// A crash forgets nothing but decisions that were not saved. Of the slots of
/// these, and of every slot that was open, the node remembers what its acceptor
/// had promised and accepted, as far as it had a state.
pub proof fn crashes_forget_only_the_unsaved<T>(
    s: PaxosState<T>,
    stored: PaxosStored<T>,
    total_nodes: usize,
    t: PaxosState<T>,
    slot: u64,
)
    requires
        s.tidy(),
        mirrored(s, stored),
        s.dirty.len() == 0,
        PaxosState::<T>::initial(s.node_id, total_nodes).recovers(stored, t),
    ensures
        t.decided.contains_key(slot) ==> s.decided.contains_key(slot) && t.decided[slot]
            == s.decided[slot],
        s.decided.contains_key(slot) && !t.decided.contains_key(slot)
            ==> s.pending_decisions.contains((slot, s.decided[slot])),
        s.instances.contains_key(slot) ==> t.instances.contains_key(slot) && t.instances[slot]
            == reloaded(s.instances[slot]),
        stored.acceptors.contains_key(slot) && !t.decided.contains_key(slot)
            ==> t.instances.contains_key(slot) && acceptor_of(t.instances[slot])
            == stored.acceptors[slot],
        stored.acceptors.contains_key(slot) || t.decided.contains_key(slot) ==> slot < t.next_slot,
{
    let fresh = PaxosState::<T>::initial(s.node_id, total_nodes);
    let decided = fresh.decided.union_prefer_right(stored.decisions);
    let open = open_slots(stored, decided);
    assert(t.instances.dom().contains(slot) == open.contains(slot));
    assert(decided.contains_key(slot) == stored.decisions.contains_key(slot));
    assert(stored.decisions.dom().union(open).contains(slot) == (stored.decisions.contains_key(slot)
        || open.contains(slot)));
    if s.instances.contains_key(slot) {
        assert(!s.dirty.contains(slot));
        if stored.decisions.contains_key(slot) {
            assert(s.decided.contains_key(slot));
        }
    }
    if s.decided.contains_key(slot) {
    }
    if stored.decisions.contains_key(slot) {
    }
}

/// Recovery: a node that starts from the storage of a node with nothing left to
/// write or to save knows every decision of it, remembers what its acceptor
/// promised and accepted in every open slot, and proposes in no slot that it had
/// reached.
pub proof fn recovery_restores<T>(
    s: PaxosState<T>,
    stored: PaxosStored<T>,
    total_nodes: usize,
    t: PaxosState<T>,
)
    requires
        s.tidy(),
        mirrored(s, stored),
        s.dirty.len() == 0,
        s.pending_decisions.len() == 0,
        s.quorum == PaxosState::<T>::initial(s.node_id, total_nodes).quorum,
        PaxosState::<T>::initial(s.node_id, total_nodes).recovers(stored, t),
    ensures
        t == s.restarted(t.next_slot),
        s.next_slot <= t.next_slot,
{
    let fresh = PaxosState::<T>::initial(s.node_id, total_nodes);
    let decided = fresh.decided.union_prefer_right(stored.decisions);
    let open = open_slots(stored, decided);
    assert forall|x: u64| decided.contains_key(x) == s.decided.contains_key(x) by {
        if s.decided.contains_key(x) {
            assert(!s.pending_decisions.contains((x, s.decided[x])));
            assert(stored.decisions.contains_key(x));
        }
    }
    assert(decided =~= s.decided);
    assert forall|x: u64| open.contains(x) == s.instances.contains_key(x) by {
        if s.instances.contains_key(x) {
            assert(!s.dirty.contains(x));
            assert(stored.acceptors.contains_key(x));
            assert(!s.decided.contains_key(x)) by {
                if s.decided.contains_key(x) {
                }
            }
        }
        if open.contains(x) {
            assert(stored.acceptors.contains_key(x));
            assert(s.known(x));
        }
    }
    assert(open =~= s.instances.dom());
    assert(t.instances.dom() =~= s.instances.dom());
    assert forall|x: u64| t.instances.contains_key(x) implies #[trigger] t.instances[x]
        == reloaded(s.instances[x]) by {
        assert(t.instances.dom().contains(x));
        assert(open.contains(x));
        assert(!s.dirty.contains(x));
    }
    assert(t.instances =~= s.instances.map_values(|i: Instance<T>| reloaded(i)));
    assert(t =~= s.restarted(t.next_slot));
    if s.next_slot > 0 {
        let last = (s.next_slot - 1) as u64;
        assert(s.known(last));
        assert(stored.decisions.dom().union(open).contains(last)) by {
            if s.decided.contains_key(last) {
                assert(stored.decisions.contains_key(last));
            }
        }
    }
}

} // verus!
