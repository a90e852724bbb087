//! A Multi-Paxos node that compares no values and answers nothing about slots
//! that are decided.
//!
//! Its rules are those of [`ProtocolState`], with three exceptions: a request for
//! a decided slot is dropped, an own proposal is handed back whatever value a peer
//! reports as decided in its slot (at worst the same value is decided twice, in
//! two slots), and a proposal is tried again only after a refusal.
use crate::collections::slots_of;
use crate::config::{NodeId, NodeName};
use crate::message::{no_messages, packets, MessageVariant, Outgoing, PaxosMsg};
use crate::paxos::{PaxosInstance, ProtocolState, MAX_JITTER};
use crate::paxos_model::{quiet, Instance, PaxosState, PaxosStep};
use crate::value::{opt, views, Value};
use vstd::prelude::*;

verus! {

broadcast use vstd::std_specs::hash::group_hash_axioms;

/// A node that compares no values and answers nothing about decided slots.
pub struct QuietPaxos<V> {
    pub state: ProtocolState<V>,
}

/// The pause after a refusal: 100 ms, doubled with each retry, capped at 5 s.
pub open spec fn pause(retry_count: u32) -> u64 {
    if retry_count == 0 {
        100
    } else if retry_count == 1 {
        200
    } else if retry_count == 2 {
        400
    } else if retry_count == 3 {
        800
    } else if retry_count == 4 {
        1600
    } else if retry_count == 5 {
        3200
    } else {
        5000
    }
}

/// The pause after a refusal.
pub fn pause_millis(retry_count: u32) -> (millis: u64)
    ensures
        millis == pause(retry_count),
{
    if retry_count == 0 {
        100
    } else if retry_count == 1 {
        200
    } else if retry_count == 2 {
        400
    } else if retry_count == 3 {
        800
    } else if retry_count == 4 {
        1600
    } else if retry_count == 5 {
        3200
    } else {
        5000
    }
}

impl<T> Instance<T> {
    /// Whether the proposal was refused and its pause is over.
    pub open spec fn rested(self, now: u64) -> bool {
        &&& self.nacked
        &&& !self.decided
        &&& self.is_proposer
        &&& self.last_nack_time is Some
        &&& now - self.last_nack_time->0 >= pause(self.retry_count)
    }
}

impl<T> PaxosState<T> {
    /// Handle a message without comparing values and without an answer about a
    /// decided slot.
    pub open spec fn receive_quietly(
        self,
        from: NodeName,
        message: PaxosMsg<T>,
        now: u64,
        jitter: u64,
    ) -> PaxosStep<T> {
        match message {
            PaxosMsg::Prepare { slot, .. } => if self.decided.contains_key(slot) {
                (self, quiet())
            } else {
                self.receive(from, message, now, jitter)
            },
            PaxosMsg::Accept { slot, .. } => if self.decided.contains_key(slot) {
                (self, quiet())
            } else {
                self.receive(from, message, now, jitter)
            },
            PaxosMsg::Decide { slot, value } => {
                let i = self.instance(slot);
                if self.decided.contains_key(slot) {
                    (self, quiet())
                } else {
                    (
                        PaxosState {
                            lost: if i.is_proposer && i.proposed is Some {
                                self.lost.push(i.proposed->0)
                            } else {
                                self.lost
                            },
                            ..self.close(slot, value, now)
                        },
                        quiet(),
                    )
                }
            },
            _ => self.receive(from, message, now, jitter),
        }
    }
}

impl<V: Value> QuietPaxos<V> {
    /// The protocol state is well-formed.
    pub open spec fn wf(&self) -> bool {
        self.state.wf()
    }

    /// Creates a node that knows nothing, in a cluster of `total_nodes`.
    pub fn new(node_id: NodeId, total_nodes: usize) -> (node: Self)
        ensures
            node.wf(),
            node.state@ == PaxosState::<V::V>::initial(node_id@, total_nodes),
    {
        QuietPaxos { state: ProtocolState::new(node_id, total_nodes) }
    }

    /// The value of an own proposal for a slot that is not decided, where it is
    /// `value`: such a proposal was not handed back.
    fn unclaimed(&self, slot: u64, value: &V) -> (mine: Option<V>)
        requires
            self.wf(),
        ensures
            ({
                let s = self.state@;
                let i = s.instance(slot);
                opt(mine) == (if !s.decided.contains_key(slot) && i.is_proposer && i.proposed
                    == Some(value@) {
                    Some(value@)
                } else {
                    None
                })
            }),
    {
        if self.state.decided_slots.contains_key(&slot) {
            return None;
        }
        match self.state.instances.get(&slot) {
            Some(instance) => {
                assert(self.state@.instances[slot] == instance@);
                if !instance.is_proposer {
                    return None;
                }
                match &instance.proposed_value {
                    Some(proposed) => if proposed.same(value) {
                        Some(proposed.copied())
                    } else {
                        None
                    },
                    None => None,
                }
            },
            None => None,
        }
    }

    /// Handles a message, with `jitter` on the time of a retry that a refusal
    /// puts off.
    pub fn handle_message_with(
        &mut self,
        from: NodeId,
        msg: MessageVariant<V>,
        now: u64,
        jitter: u64,
    ) -> (out: Vec<Outgoing<MessageVariant<V>>>)
        requires
            old(self).wf(),
            old(self).state@.can_handle(from@, msg@),
            jitter <= MAX_JITTER,
        ensures
            final(self).wf(),
            (final(self).state@, packets(out@)) == old(self).state@.receive_quietly(
                from@,
                msg@,
                now,
                jitter,
            ),
    {
        let ghost before = self.state@;
        let ghost message = msg@;
        let request: Option<u64> = match &msg {
            MessageVariant::Prepare { slot, .. } => Some(*slot),
            MessageVariant::Accept { slot, .. } => Some(*slot),
            _ => None,
        };
        if let Some(slot) = request {
            if self.state.decided_slots.contains_key(&slot) {
                return no_messages();
            }
        }
        let mine: Option<V> = match &msg {
            MessageVariant::Decide { slot, value } => self.unclaimed(*slot, value),
            _ => None,
        };
        let out: Vec<Outgoing<MessageVariant<V>>> = self.state.handle_message_with(
            from,
            msg,
            now,
            jitter,
        );
        let ghost mid = self.state@;
        if let Some(value) = mine {
            let ghost v = value@;
            self.state.lost_proposals.push(value);
            assert(views(self.state.lost_proposals@) =~= mid.lost.push(v));
            assert(self.state@ == (PaxosState { lost: mid.lost.push(v), ..mid }));
            assert(self.state@.sound()) by {
                assert(mid.sound());
            }
        }
        assert((self.state@, packets(out@)) == before.receive_quietly(
            from@,
            message,
            now,
            jitter,
        ));
        out
    }

    /// The slots whose proposal was refused and whose pause is over, in any
    /// order.
    pub fn get_retryable_proposals(&self, now: u64) -> (due: Vec<u64>)
        requires
            self.wf(),
        ensures
            due@.no_duplicates(),
            forall|slot: u64|
                #![trigger due@.contains(slot)]
                due@.contains(slot) <==> self.state@.instances.contains_key(slot)
                    && self.state@.instances[slot].rested(now),
    {
        let slots: Vec<u64> = slots_of(&self.state.instances);
        let mut due: Vec<u64> = Vec::new();
        let mut k: usize = 0;
        while k < slots.len()
            invariant
                k <= slots.len(),
                self.wf(),
                slots@.no_duplicates(),
                slots@.to_set() == self.state.instances@.dom(),
                due@.no_duplicates(),
                forall|slot: u64|
                    #![trigger due@.contains(slot)]
                    due@.contains(slot) <==> slots@.take(k as int).contains(slot)
                        && self.state@.instances[slot].rested(now),
            decreases slots.len() - k,
        {
            let slot: u64 = slots[k];
            let ghost was = due@;
            assert(slots@.to_set().contains(slot));
            assert(slots@.take(k + 1) =~= slots@.take(k as int).push(slot));
            assert(!slots@.take(k as int).contains(slot));
            assert(!was.contains(slot));
            let rested: bool = match self.state.instances.get(&slot) {
                Some(instance) => {
                    assert(self.state@.instances[slot] == instance@);
                    is_rested(instance, now)
                },
                None => false,
            };
            if rested {
                due.push(slot);
            }
            assert forall|x: u64|
                #![trigger due@.contains(x)]
                due@.contains(x) <==> slots@.take(k + 1).contains(x)
                    && self.state@.instances[x].rested(now) by {
                assert(slots@.take(k + 1).contains(x) <==> slots@.take(k as int).contains(x) || x
                    == slot) by {
                    if slots@.take(k as int).contains(x) {
                        let i = choose|i: int| 0 <= i < k && slots@[i] == x;
                        assert(slots@.take(k + 1)[i] == x);
                    }
                    if x == slot {
                        assert(slots@.take(k + 1)[k as int] == x);
                    }
                }
                if rested {
                    assert(due@ == was.push(slot));
                    assert(due@.contains(x) <==> was.contains(x) || x == slot) by {
                        if was.contains(x) {
                            let i = choose|i: int| 0 <= i < was.len() && was[i] == x;
                            assert(due@[i] == x);
                        }
                        if x == slot {
                            assert(due@[was.len() as int] == x);
                        }
                    }
                }
                assert(was.contains(x) <==> slots@.take(k as int).contains(x)
                    && self.state@.instances[x].rested(now));
            }
            k += 1;
        }
        proof {
            assert(slots@.take(k as int) =~= slots@);
            assert forall|slot: u64|
                #![trigger due@.contains(slot)]
                due@.contains(slot) <==> self.state@.instances.contains_key(slot)
                    && self.state@.instances[slot].rested(now) by {
                assert(slots@.contains(slot) <==> slots@.to_set().contains(slot));
            }
        }
        due
    }
}

/// Whether a proposal was refused and its pause is over.
fn is_rested<V: Value>(instance: &PaxosInstance<V>, now: u64) -> (r: bool)
    ensures
        r == instance@.rested(now),
{
    if !instance.nacked || instance.decided || !instance.is_proposer {
        return false;
    }
    match instance.last_nack_time {
        Some(then) => now >= then && now - then >= pause_millis(instance.retry_count),
        None => false,
    }
}

} // verus!
