//! A cluster of Multi-Paxos nodes over a network that may lose, repeat, delay
//! and reorder messages. A node may end between any two actions, and starts again
//! from what it persisted.
use crate::config::NodeName;
use crate::message::{
    ballot_le, ballot_less, ballot_order_is_total, ballot_order_is_transitive, Ballot, Packet,
    PaxosMsg, Target,
};
use crate::paxos_laws::{
    acceptor_of, crashes_forget_only_the_unsaved, decisions_are_final, every_event_keeps_order,
    every_event_keeps_the_mirror, every_event_moves_one_slot, flushing_keeps_the_mirror,
    lemma_concluded, lemma_noted, mirrored,
    proposals_open_the_next_slot, recovery_is_in_order, saving_keeps_the_mirror, PaxosEvent,
};
use crate::paxos_model::{
    changed_states, decide_broadcasts, no_ballot, still_recent, tell_all, Instance, PaxosState,
};
use crate::paxos_protocol::{concluded, noted, open_slots};
use crate::quorum::{is_quorum, quorums_meet};
use crate::raft_model::majority;
use crate::storage::PaxosStored;
use vstd::prelude::*;

verus! {

/// A message on its way.
pub struct Letter<T> {
    pub src: NodeName,
    pub dst: Target,
    pub msg: PaxosMsg<T>,
}

/// A cluster: its nodes, what each persisted, every message ever sent, and what
/// happened so far.
#[verifier::ext_equal]
#[verifier::reject_recursive_types(T)]
pub struct PaxosCluster<T> {
    pub members: Set<NodeName>,
    pub nodes: Map<NodeName, PaxosState<T>>,
    pub stored: Map<NodeName, PaxosStored<T>>,
    pub net: Set<Letter<T>>,
    /// An acceptor accepted a value for a slot under a number.
    pub voted: Set<(u64, NodeName, Ballot, T)>,
    /// A proposer asked for a value for a slot under a number.
    pub asked: Set<(u64, Ballot, T)>,
    /// A node knew the decision on a slot, if only until it ended.
    pub known: Set<(NodeName, u64, T)>,
}

/// What can happen in a cluster.
pub enum PaxosAction<T> {
    /// A node receives a message, perhaps not for the first time.
    Deliver { node: NodeName, letter: Letter<T>, now: u64, jitter: u64 },
    /// A value is proposed at a node.
    Propose { node: NodeName, value: T, now: u64, jitter: u64 },
    /// A node tries an open proposal again.
    Retry { node: NodeName, slot: u64, now: u64, jitter: u64 },
    /// A node sends its recent decisions again.
    Rebroadcast { node: NodeName, now: u64 },
    /// A node saves the first `count` of the decisions that wait for delivery.
    Save { node: NodeName, count: nat },
    /// The proposals that a node has lost are taken out of it.
    Collect { node: NodeName },
    /// A node ends and starts again from what it persisted. What it had not
    /// saved of its decisions is forgotten.
    Restart { node: NodeName, after: PaxosState<T> },
}

/// The node at which an action happens.
pub open spec fn actor<T>(action: PaxosAction<T>) -> NodeName {
    match action {
        PaxosAction::Deliver { node, .. } => node,
        PaxosAction::Propose { node, .. } => node,
        PaxosAction::Retry { node, .. } => node,
        PaxosAction::Rebroadcast { node, .. } => node,
        PaxosAction::Save { node, .. } => node,
        PaxosAction::Collect { node } => node,
        PaxosAction::Restart { node, .. } => node,
    }
}

/// The letters of a list of packets.
pub open spec fn mailed<T>(src: NodeName, out: Seq<Packet<PaxosMsg<T>>>) -> Set<Letter<T>> {
    Set::new(
        |l: Letter<T>|
            exists|i: int|
                #![trigger out[i]]
                0 <= i < out.len() && l == (Letter {
                    src,
                    dst: out[i].target,
                    msg: out[i].message,
                }),
    )
}

/// A node once what it has to remember is written.
pub open spec fn flushed<T>(s: PaxosState<T>) -> PaxosState<T> {
    PaxosState { dirty: Seq::empty(), ..s }
}

/// A storage once what a node has to remember is written to it.
pub open spec fn written<T>(s: PaxosState<T>, stored: PaxosStored<T>) -> PaxosStored<T> {
    PaxosStored {
        acceptors: noted(stored.acceptors, changed_states(s.dirty, s.instances)),
        ..stored
    }
}

impl<T> PaxosState<T> {
    /// The slot and instance with which an action opens phase 2, if it does.
    pub open spec fn opening(self, action: PaxosAction<T>) -> Option<(u64, Instance<T>)> {
        match action {
            PaxosAction::Deliver { letter, .. } => match letter.msg {
                PaxosMsg::Promise { slot, proposal_number, accepted } => {
                    let i = self.instance(slot).with_promise(letter.src, accepted);
                    if self.current(slot, proposal_number) && i.promises.len() >= self.quorum {
                        Some((slot, i))
                    } else {
                        None
                    }
                },
                _ => None,
            },
            PaxosAction::Propose { value, now, jitter, .. } => {
                let i = self.instance(self.next_slot).opened(self.node_id, value, now, jitter);
                if i.promises.len() >= self.quorum {
                    Some((self.next_slot, i))
                } else {
                    None
                }
            },
            PaxosAction::Retry { slot, now, jitter, .. } => {
                let i = self.instance(slot).reopened(self.node_id, now, jitter);
                if self.proposing(slot) && i.promises.len() >= self.quorum {
                    Some((slot, i))
                } else {
                    None
                }
            },
            _ => None,
        }
    }
}

impl<T> PaxosCluster<T> {
    /// Fresh nodes with empty storages, and an empty network.
    pub open spec fn init(self) -> bool {
        &&& self.members.finite()
        &&& 0 < self.members.len() <= usize::MAX
        &&& self.nodes.dom() == self.members
        &&& self.stored.dom() == self.members
        &&& forall|n: NodeName| #[trigger]
            self.members.contains(n) ==> self.nodes[n] == PaxosState::<T>::initial(
                n,
                self.members.len() as usize,
            ) && self.stored[n] == (PaxosStored::<T> {
                decisions: Map::empty(),
                acceptors: Map::empty(),
            })
        &&& self.net == Set::<Letter<T>>::empty()
        &&& self.voted == Set::<(u64, NodeName, Ballot, T)>::empty()
        &&& self.asked == Set::<(u64, Ballot, T)>::empty()
        &&& self.known == Set::<(NodeName, u64, T)>::empty()
    }

    /// Whether `letter` can reach `node`: nodes talk to others only.
    pub open spec fn arrives(self, letter: Letter<T>, node: NodeName) -> bool {
        &&& self.net.contains(letter)
        &&& letter.src != node
        &&& letter.dst == Target::Broadcast || letter.dst == Target::Peer(node)
    }

    /// The state, the storage and the messages that an action results in at its
    /// node. What a step has to remember is written before its messages go out;
    /// what it decides is saved by a later action.
    pub open spec fn outcome(self, action: PaxosAction<T>) -> (
        PaxosState<T>,
        PaxosStored<T>,
        Seq<Packet<PaxosMsg<T>>>,
    ) {
        let s = self.nodes[actor(action)];
        let p = self.stored[actor(action)];
        match action {
            PaxosAction::Deliver { letter, now, jitter, .. } => {
                let (t, out) = s.receive(letter.src, letter.msg, now, jitter);
                (flushed(t), written(t, p), out)
            },
            PaxosAction::Propose { value, now, jitter, .. } => {
                let (t, out) = s.propose(value, now, jitter);
                (flushed(t), written(t, p), out)
            },
            PaxosAction::Retry { slot, now, jitter, .. } => {
                let (t, out) = s.retry(slot, now, jitter);
                (flushed(t), written(t, p), out)
            },
            PaxosAction::Rebroadcast { now, .. } => (
                PaxosState { recent: still_recent(s.recent, now), ..s },
                p,
                decide_broadcasts(still_recent(s.recent, now)),
            ),
            PaxosAction::Save { count, .. } => (
                PaxosState { pending_decisions: s.pending_decisions.skip(count as int), ..s },
                concluded(p, s.pending_decisions.take(count as int)),
                Seq::empty(),
            ),
            PaxosAction::Collect { .. } => (
                PaxosState { lost: Seq::empty(), ..s },
                p,
                Seq::empty(),
            ),
            PaxosAction::Restart { after, .. } => (after, p, Seq::empty()),
        }
    }

    /// Whether an action can happen.
    pub open spec fn enabled(self, action: PaxosAction<T>) -> bool {
        let s = self.nodes[actor(action)];
        &&& self.members.contains(actor(action))
        &&& match action {
            PaxosAction::Deliver { node, letter, .. } => self.arrives(letter, node)
                && s.can_handle(letter.src, letter.msg),
            PaxosAction::Propose { .. } => s.next_slot < u64::MAX,
            PaxosAction::Retry { slot, .. } => s.can_retry(slot),
            PaxosAction::Save { count, .. } => count <= s.pending_decisions.len(),
            PaxosAction::Restart { node, after } => PaxosState::<T>::initial(
                node,
                self.members.len() as usize,
            ).recovers(self.stored[node], after),
            _ => true,
        }
    }

    /// The cluster after an action.
    pub open spec fn after_action(self, action: PaxosAction<T>) -> PaxosCluster<T> {
        let n = actor(action);
        let (s, p, out) = self.outcome(action);
        let opening = self.nodes[n].opening(action);
        PaxosCluster {
            members: self.members,
            nodes: self.nodes.insert(n, s),
            stored: self.stored.insert(n, p),
            net: self.net.union(mailed(n, out)),
            voted: Set::new(
                |v: (u64, NodeName, Ballot, T)|
                    self.voted.contains(v) || (v.1 == n && (holds_vote(s, v.0, v.2, v.3)
                        || votes_at_opening(opening, v.0, v.2, v.3))),
            ),
            asked: Set::new(
                |a: (u64, Ballot, T)|
                    self.asked.contains(a) || asks_at_opening(opening, a.0, a.1, a.2),
            ),
            known: Set::new(
                |k: (NodeName, u64, T)|
                    self.known.contains(k) || (k.0 == n && s.decided.contains_key(k.1)
                        && s.decided[k.1] == k.2),
            ),
        }
    }
}

/// Whether an acceptor's last acceptance for a slot is this one.
pub open spec fn holds_vote<T>(s: PaxosState<T>, slot: u64, number: Ballot, value: T) -> bool {
    s.instances.contains_key(slot) && s.instances[slot].accepted == Some((number, value))
}

/// Whether the proposer asks for this value when it opens phase 2.
pub open spec fn asks_at_opening<T>(
    opening: Option<(u64, Instance<T>)>,
    slot: u64,
    number: Ballot,
    value: T,
) -> bool {
    opening is Some && (opening->0).0 == slot && (opening->0).1.number == number
        && (opening->0).1.phase2_value() == value
}

/// Whether the proposer's own acceptor accepts when phase 2 is opened.
pub open spec fn votes_at_opening<T>(
    opening: Option<(u64, Instance<T>)>,
    slot: u64,
    number: Ballot,
    value: T,
) -> bool {
    asks_at_opening(opening, slot, number, value) && (opening->0).1.accepts_at(number)
}

/// Whether a node is, for good, done with a number in a slot: it saved a decision
/// on the slot, or wrote down the promise of a higher one.
pub open spec fn beyond<T>(p: PaxosStored<T>, slot: u64, number: Ballot) -> bool {
    p.decisions.contains_key(slot) || (p.acceptors.contains_key(slot) && p.acceptors[slot].promised
        is Some && ballot_less(number, p.acceptors[slot].promised->0))
}

/// Whether a node has, for good, come up to a number in a slot: it saved a
/// decision on the slot, or wrote down the promise of the number or a higher one.
pub open spec fn up_to<T>(p: PaxosStored<T>, slot: u64, number: Ballot) -> bool {
    p.decisions.contains_key(slot) || (p.acceptors.contains_key(slot) && p.acceptors[slot].promised
        is Some && ballot_le(number, p.acceptors[slot].promised->0))
}

/// Whether a node is in order and its storage holds what it has to remember, with
/// nothing left to write.
pub open spec fn kept<T>(s: PaxosState<T>, p: PaxosStored<T>) -> bool {
    s.tidy() && mirrored(s, p) && s.dirty.len() == 0
}

/// Whether an instance has no proposal of its node.
pub open spec fn blank<T>(i: Instance<T>) -> bool {
    &&& !i.is_proposer
    &&& i.number == no_ballot()
    &&& i.promises == Set::<NodeName>::empty()
    &&& i.accepts == Set::<NodeName>::empty()
    &&& i.highest_accepted is None
}

impl<T> PaxosCluster<T> {
    pub open spec fn vote(self, slot: u64, n: NodeName, number: Ballot, value: T) -> bool {
        self.voted.contains((slot, n, number, value))
    }

    /// A node neither voted nor will vote under a number.
    pub open spec fn passed(self, slot: u64, n: NodeName, number: Ballot) -> bool {
        &&& beyond(self.stored[n], slot, number)
        &&& forall|w: T| !#[trigger] self.vote(slot, n, number, w)
    }

    /// Every node of a majority voted for the value under a number, or neither
    /// voted nor will vote under it.
    pub open spec fn settled(self, slot: u64, number: Ballot, value: T) -> bool {
        exists|q: Set<NodeName>| #[trigger]
            is_quorum(self.members, q) && self.settled_by(q, slot, number, value)
    }

    pub open spec fn settled_by(self, q: Set<NodeName>, slot: u64, number: Ballot, value: T) -> bool {
        forall|v: NodeName| #[trigger]
            q.contains(v) ==> self.vote(slot, v, number, value) || self.passed(slot, v, number)
    }

    /// No other value was or will be chosen under a lower number.
    pub open spec fn safe_at(self, slot: u64, number: Ballot, value: T) -> bool {
        forall|lower: Ballot|
            ballot_less(lower, number) ==> #[trigger] self.settled(slot, lower, value)
    }

    /// A majority voted for a value under one number.
    pub open spec fn chosen(self, slot: u64, value: T) -> bool {
        exists|number: Ballot, q: Set<NodeName>| #[trigger]
            self.chosen_by(slot, number, value, q)
    }

    pub open spec fn chosen_by(self, slot: u64, number: Ballot, value: T, q: Set<NodeName>) -> bool {
        &&& is_quorum(self.members, q)
        &&& forall|v: NodeName| #[trigger] q.contains(v) ==> self.vote(slot, v, number, value)
    }

    /// What an acceptor tells of its votes below `number`.
    pub open spec fn told(
        self,
        slot: u64,
        n: NodeName,
        number: Ballot,
        accepted: Option<(Ballot, T)>,
    ) -> bool {
        &&& up_to(self.stored[n], slot, number)
        &&& forall|b: Ballot, w: T| #[trigger]
            self.vote(slot, n, b, w) && ballot_less(b, number) ==> accepted is Some && ballot_le(
                b,
                (accepted->0).0,
            )
        &&& accepted matches Some(a) ==> ballot_less(a.0, number) && self.vote(
            slot,
            n,
            a.0,
            a.1,
        )
    }

    /// A node has a slot behind it, and will have after a restart.
    pub open spec fn remembers(self, n: NodeName, slot: u64) -> bool {
        &&& slot < self.nodes[n].next_slot
        &&& self.stored[n].decisions.contains_key(slot) || self.stored[n].acceptors.contains_key(
            slot,
        )
    }

    /// What holds of the acceptor state that a node persisted for a slot.
    pub open spec fn acceptor_ok(self, n: NodeName, slot: u64) -> bool {
        let a = self.stored[n].acceptors[slot];
        &&& a.accepted matches Some(v) ==> self.vote(slot, n, v.0, v.1) && a.promised is Some
            && ballot_le(v.0, a.promised->0)
        &&& forall|b: Ballot, w: T| #[trigger]
            self.vote(slot, n, b, w) ==> a.accepted is Some && ballot_le(b, (a.accepted->0).0)
    }

    /// What holds of the open slot of a node.
    pub open spec fn slot_ok(self, n: NodeName, slot: u64) -> bool {
        let i = self.nodes[n].instances[slot];
        if i.is_proposer {
            self.round_ok(n, slot)
        } else {
            blank(i)
        }
    }

    /// What holds of the current round of a proposer.
    pub open spec fn round_ok(self, n: NodeName, slot: u64) -> bool {
        let i = self.nodes[n].instances[slot];
        &&& i.number.1 == n
        &&& i.number.0 >= 1
        &&& up_to(self.stored[n], slot, i.number)
        &&& i.proposed is Some
        &&& forall|p: NodeName| #[trigger]
            i.promises.contains(p) ==> self.members.contains(p) && up_to(
                self.stored[p],
                slot,
                i.number,
            )
        &&& forall|p: NodeName, b: Ballot, w: T|
            #![trigger i.promises.contains(p), self.vote(slot, p, b, w)]
            i.promises.contains(p) && self.vote(slot, p, b, w) && ballot_less(b, i.number)
                ==> i.highest_accepted is Some && ballot_le(b, (i.highest_accepted->0).0)
        &&& i.highest_accepted matches Some(a) ==> ballot_less(a.0, i.number) && self.asked.contains(
            (slot, a.0, a.1),
        )
        &&& self.asks_once(slot, i)
        &&& forall|p: NodeName| #[trigger]
            i.accepts.contains(p) ==> self.members.contains(p) && exists|w: T| #[trigger]
                self.vote(slot, p, i.number, w)
        &&& self.undecided(n, i)
        &&& forall|r: u64, w: T| #[trigger]
            self.asked.contains((slot, (r, n), w)) ==> r <= i.number.0
    }

    /// What was asked for under the number of a round is what its proposer
    /// remembers.
    pub open spec fn asks_once(self, slot: u64, i: Instance<T>) -> bool {
        &&& i.asked matches Some(v) ==> self.asked.contains((slot, i.number, v))
        &&& forall|w: T| #[trigger]
            self.asked.contains((slot, i.number, w)) ==> i.asked == Some(w)
    }

    /// A round has no quorum of acceptances, and counts the one of its own
    /// acceptor where phase 2 is open and that may accept.
    pub open spec fn undecided(self, n: NodeName, i: Instance<T>) -> bool {
        &&& i.accepts.len() < majority(self.members.len() as usize)
        &&& i.asked is Some && i.accepts_at(i.number) ==> i.accepts.contains(n)
    }

    /// What holds of a node.
    pub open spec fn node_ok(self, n: NodeName) -> bool {
        let s = self.nodes[n];
        &&& s.node_id == n
        &&& s.quorum == majority(self.members.len() as usize)
        &&& kept(s, self.stored[n])
        &&& forall|slot: u64| #[trigger] s.instances.contains_key(slot) ==> self.slot_ok(n, slot)
        &&& forall|slot: u64| #[trigger]
            self.stored[n].acceptors.contains_key(slot) ==> self.acceptor_ok(n, slot)
        &&& forall|slot: u64| #[trigger]
            s.decided.contains_key(slot) ==> self.chosen(slot, s.decided[slot])
        &&& forall|k: int|
            0 <= k < s.recent.len() ==> self.chosen(
                (#[trigger] s.recent[k]).1,
                s.recent[k].2,
            )
    }

    /// What holds of a vote.
    pub open spec fn vote_ok(self, slot: u64, n: NodeName, number: Ballot, value: T) -> bool {
        &&& self.members.contains(n)
        &&& self.asked.contains((slot, number, value))
        &&& up_to(self.stored[n], slot, number)
    }

    /// What holds of a value that was asked for.
    pub open spec fn ask_ok(self, slot: u64, number: Ballot, value: T) -> bool {
        &&& self.members.contains(number.1)
        &&& number.0 >= 1
        &&& self.remembers(number.1, slot)
        &&& self.safe_at(slot, number, value)
        &&& forall|w: T| #[trigger] self.asked.contains((slot, number, w)) ==> w == value
    }

    /// What holds of a message.
    pub open spec fn letter_ok(self, l: Letter<T>) -> bool {
        &&& self.members.contains(l.src)
        &&& match l.msg {
            PaxosMsg::Prepare { slot, proposal_number } => proposal_number.0 >= 1,
            PaxosMsg::Promise { slot, proposal_number, accepted } => proposal_number.0 >= 1
                && self.told(slot, l.src, proposal_number, accepted),
            PaxosMsg::Accept { slot, proposal_number, value } => self.asked.contains(
                (slot, proposal_number, value),
            ),
            PaxosMsg::Accepted { slot, proposal_number, value } => self.vote(
                slot,
                l.src,
                proposal_number,
                value,
            ),
            PaxosMsg::Decide { slot, value } => self.chosen(slot, value),
            _ => true,
        }
    }

    /// What holds at all times of a cluster of more than one node.
    pub open spec fn inv(self) -> bool {
        &&& self.members.finite()
        &&& 1 < self.members.len() <= usize::MAX
        &&& self.nodes.dom() == self.members
        &&& self.stored.dom() == self.members
        &&& forall|n: NodeName| #[trigger] self.members.contains(n) ==> self.node_ok(n)
        &&& forall|slot: u64, n: NodeName, b: Ballot, w: T| #[trigger]
            self.vote(slot, n, b, w) ==> self.vote_ok(slot, n, b, w)
        &&& forall|slot: u64, b: Ballot, w: T| #[trigger]
            self.asked.contains((slot, b, w)) ==> self.ask_ok(slot, b, w)
        &&& forall|l: Letter<T>| #[trigger] self.net.contains(l) ==> self.letter_ok(l)
        &&& forall|k: (NodeName, u64, T)| #[trigger]
            self.known.contains(k) ==> self.chosen(k.1, k.2)
    }
}

/// A storage goes on: what was saved stays, and what a node has come up to or gone
/// beyond it stays at.
pub open spec fn goes_on<T>(a: PaxosStored<T>, b: PaxosStored<T>) -> bool {
    &&& forall|slot: u64| #[trigger]
        a.decisions.contains_key(slot) ==> b.decisions.contains_key(slot) && b.decisions[slot]
            == a.decisions[slot]
    &&& forall|slot: u64, number: Ballot| #[trigger]
        up_to(a, slot, number) ==> up_to(b, slot, number)
    &&& forall|slot: u64, number: Ballot| #[trigger]
        beyond(a, slot, number) ==> beyond(b, slot, number)
}

impl<T> PaxosCluster<T> {
    /// What was, stays, and only `n` acted, in `slot`: new votes are its own and
    /// under numbers it had not gone beyond, and it asked for one value under
    /// each of its numbers. Elsewhere it knows no more than before.
    pub open spec fn acted(self, d: PaxosCluster<T>, n: NodeName, slot: u64) -> bool {
        &&& d.members == self.members
        &&& d.nodes.dom() == self.nodes.dom()
        &&& d.stored.dom() == self.stored.dom()
        &&& self.members.contains(n)
        &&& forall|m: NodeName| m != n ==> #[trigger] d.nodes[m] == self.nodes[m]
        &&& forall|m: NodeName| m != n ==> #[trigger] d.stored[m] == self.stored[m]
        &&& goes_on(self.stored[n], d.stored[n])
        &&& forall|t: u64| self.remembers(n, t) ==> #[trigger] d.remembers(n, t)
        &&& forall|t: u64, m: NodeName, b: Ballot, w: T|
            self.vote(t, m, b, w) ==> #[trigger] d.vote(t, m, b, w)
        &&& forall|t: u64, m: NodeName, b: Ballot, w: T| #[trigger]
            d.vote(t, m, b, w) ==> self.vote(t, m, b, w) || (t == slot && m == n && !beyond(
                self.stored[n],
                slot,
                b,
            ))
        &&& forall|t: u64, b: Ballot, w: T|
            self.asked.contains((t, b, w)) ==> #[trigger] d.asked.contains((t, b, w))
        &&& forall|t: u64, b: Ballot, w: T| #[trigger]
            d.asked.contains((t, b, w)) ==> self.asked.contains((t, b, w)) || (t == slot && b.1
                == n && (forall|x: T| #[trigger] d.asked.contains((t, b, x)) ==> x == w))
        &&& forall|t: u64|
            t != slot && #[trigger] d.nodes[n].instances.contains_key(t) ==> (
            self.nodes[n].instances.contains_key(t) && d.nodes[n].instances[t]
                == self.nodes[n].instances[t]) || blank(d.nodes[n].instances[t])
        &&& forall|t: u64|
            t != slot && #[trigger] d.stored[n].acceptors.contains_key(t)
                ==> self.stored[n].acceptors.contains_key(t) && d.stored[n].acceptors[t]
                == self.stored[n].acceptors[t]
        &&& forall|t: u64|
            t != slot && #[trigger] d.nodes[n].decided.contains_key(t)
                ==> self.nodes[n].decided.contains_key(t) && d.nodes[n].decided[t]
                == self.nodes[n].decided[t]
    }
}

proof fn lemma_le_less(a: Ballot, b: Ballot, c: Ballot)
    ensures
        ballot_le(a, b) && ballot_less(b, c) ==> ballot_less(a, c),
        ballot_less(a, b) && ballot_le(b, c) ==> ballot_less(a, c),
        ballot_le(a, b) && ballot_le(b, c) ==> ballot_le(a, c),
{
    if ballot_less(a, b) && ballot_less(b, c) {
        ballot_order_is_transitive(a, b, c);
    }
}

/// Whoever has come up to a number is beyond every lower one.
proof fn lemma_up_to_beyond<T>(p: PaxosStored<T>, slot: u64, lower: Ballot, number: Ballot)
    requires
        up_to(p, slot, number),
        ballot_less(lower, number),
    ensures
        beyond(p, slot, lower),
{
    if !p.decisions.contains_key(slot) {
        lemma_le_less(lower, number, p.acceptors[slot].promised->0);
    }
}

proof fn lemma_passed_kept<T>(
    c: PaxosCluster<T>,
    d: PaxosCluster<T>,
    n: NodeName,
    slot: u64,
    t: u64,
    v: NodeName,
    number: Ballot,
)
    requires
        c.acted(d, n, slot),
        c.passed(t, v, number),
    ensures
        d.passed(t, v, number),
{
    if v == n {
        assert(beyond(c.stored[n], t, number));
    } else {
        assert(d.stored[v] == c.stored[v]);
    }
    assert forall|w: T| !#[trigger] d.vote(t, v, number, w) by {
        assert(!c.vote(t, v, number, w));
    }
}

proof fn lemma_settled_kept<T>(
    c: PaxosCluster<T>,
    d: PaxosCluster<T>,
    n: NodeName,
    slot: u64,
    t: u64,
    number: Ballot,
    value: T,
)
    requires
        c.acted(d, n, slot),
        c.settled(t, number, value),
    ensures
        d.settled(t, number, value),
{
    let q = choose|q: Set<NodeName>| #[trigger]
        is_quorum(c.members, q) && c.settled_by(q, t, number, value);
    assert(is_quorum(d.members, q));
    assert forall|v: NodeName| #[trigger] q.contains(v) implies d.vote(t, v, number, value)
        || d.passed(t, v, number) by {
        if c.vote(t, v, number, value) {
            assert(d.vote(t, v, number, value));
        } else {
            assert(c.passed(t, v, number));
            lemma_passed_kept(c, d, n, slot, t, v, number);
        }
    }
    assert(d.settled_by(q, t, number, value));
}

proof fn lemma_safe_kept<T>(
    c: PaxosCluster<T>,
    d: PaxosCluster<T>,
    n: NodeName,
    slot: u64,
    t: u64,
    number: Ballot,
    value: T,
)
    requires
        c.acted(d, n, slot),
        c.safe_at(t, number, value),
    ensures
        d.safe_at(t, number, value),
{
    assert forall|lower: Ballot| ballot_less(lower, number) implies #[trigger] d.settled(
        t,
        lower,
        value,
    ) by {
        assert(c.settled(t, lower, value));
        lemma_settled_kept(c, d, n, slot, t, lower, value);
    }
}

proof fn lemma_chosen_kept<T>(
    c: PaxosCluster<T>,
    d: PaxosCluster<T>,
    n: NodeName,
    slot: u64,
    t: u64,
    value: T,
)
    requires
        c.acted(d, n, slot),
        c.chosen(t, value),
    ensures
        d.chosen(t, value),
{
    let (number, q) = choose|number: Ballot, q: Set<NodeName>| #[trigger]
        c.chosen_by(t, number, value, q);
    assert(d.chosen_by(t, number, value, q)) by {
        assert forall|v: NodeName| #[trigger] q.contains(v) implies d.vote(t, v, number, value) by {
            assert(c.vote(t, v, number, value));
        }
    }
}

/// Votes below a number that a node has come up to do not become more.
proof fn lemma_votes_frozen<T>(
    c: PaxosCluster<T>,
    d: PaxosCluster<T>,
    n: NodeName,
    slot: u64,
    t: u64,
    v: NodeName,
    number: Ballot,
    b: Ballot,
    w: T,
)
    requires
        c.acted(d, n, slot),
        up_to(c.stored[v], t, number),
        ballot_less(b, number),
        d.vote(t, v, b, w),
    ensures
        c.vote(t, v, b, w),
{
    lemma_up_to_beyond(c.stored[v], t, b, number);
}

proof fn lemma_told_kept<T>(
    c: PaxosCluster<T>,
    d: PaxosCluster<T>,
    n: NodeName,
    slot: u64,
    t: u64,
    v: NodeName,
    number: Ballot,
    accepted: Option<(Ballot, T)>,
)
    requires
        c.acted(d, n, slot),
        c.told(t, v, number, accepted),
    ensures
        d.told(t, v, number, accepted),
{
    if v == n {
        assert(up_to(c.stored[n], t, number));
    } else {
        assert(d.stored[v] == c.stored[v]);
    }
    assert forall|b: Ballot, w: T| #[trigger]
        d.vote(t, v, b, w) && ballot_less(b, number) implies accepted is Some && ballot_le(
        b,
        (accepted->0).0,
    ) by {
        lemma_votes_frozen(c, d, n, slot, t, v, number, b, w);
    }
    if let Some(a) = accepted {
        assert(d.vote(t, v, a.0, a.1));
    }
}

/// The state of a node in a slot in which nothing happened there is still right.
proof fn lemma_slot_kept<T>(
    c: PaxosCluster<T>,
    d: PaxosCluster<T>,
    n: NodeName,
    slot: u64,
    m: NodeName,
    t: u64,
)
    requires
        c.inv(),
        c.acted(d, n, slot),
        c.members.contains(m),
        m != n || t != slot,
        d.nodes[m].instances.contains_key(t),
    ensures
        d.slot_ok(m, t),
{
    assert(c.node_ok(m));
    let i = d.nodes[m].instances[t];
    if m != n {
        assert(d.nodes[m] == c.nodes[m]);
    }
    if i.is_proposer {
        assert(c.nodes[m].instances.contains_key(t) && i == c.nodes[m].instances[t]);
        assert(c.slot_ok(m, t));
        assert(c.round_ok(m, t));
        assert(up_to(d.stored[m], t, i.number)) by {
            assert(up_to(c.stored[m], t, i.number));
            if m != n {
                assert(d.stored[m] == c.stored[m]);
            }
        }
        assert forall|p: NodeName| #[trigger] i.promises.contains(p) implies d.members.contains(p)
            && up_to(d.stored[p], t, i.number) by {
            assert(up_to(c.stored[p], t, i.number));
            if p != n {
                assert(d.stored[p] == c.stored[p]);
            }
        }
        assert forall|p: NodeName, b: Ballot, w: T|
            #![trigger i.promises.contains(p), d.vote(t, p, b, w)]
            i.promises.contains(p) && d.vote(t, p, b, w) && ballot_less(b, i.number) implies
            i.highest_accepted is Some && ballot_le(b, (i.highest_accepted->0).0) by {
            lemma_votes_frozen(c, d, n, slot, t, p, i.number, b, w);
        }
        assert forall|p: NodeName| #[trigger] i.accepts.contains(p) implies d.members.contains(p)
            && exists|w: T| #[trigger] d.vote(t, p, i.number, w) by {
            let w = choose|w: T| #[trigger] c.vote(t, p, i.number, w);
            assert(d.vote(t, p, i.number, w));
        }
        assert forall|r: u64, w: T| #[trigger] d.asked.contains((t, (r, m), w)) implies r
            <= i.number.0 by {
            assert(c.asked.contains((t, (r, m), w)));
        }
        if let Some(a) = i.highest_accepted {
            assert(d.asked.contains((t, a.0, a.1)));
        }
        assert(d.asks_once(t, i)) by {
            if let Some(v) = i.asked {
                assert(d.asked.contains((t, i.number, v)));
            }
            assert forall|w: T| #[trigger] d.asked.contains((t, i.number, w)) implies i.asked
                == Some(w) by {
                assert(c.asked.contains((t, i.number, w)));
            }
        }
        assert(d.round_ok(m, t));
    } else if c.nodes[m].instances.contains_key(t) && i == c.nodes[m].instances[t] {
        assert(c.slot_ok(m, t));
    }
}

/// What a node persisted of a slot in which nothing happened there is still right.
proof fn lemma_acceptor_kept<T>(
    c: PaxosCluster<T>,
    d: PaxosCluster<T>,
    n: NodeName,
    slot: u64,
    m: NodeName,
    t: u64,
)
    requires
        c.inv(),
        c.acted(d, n, slot),
        c.members.contains(m),
        m != n || t != slot,
        d.stored[m].acceptors.contains_key(t),
    ensures
        d.acceptor_ok(m, t),
{
    assert(c.node_ok(m));
    if m != n {
        assert(d.stored[m] == c.stored[m]);
    }
    assert(c.acceptor_ok(m, t));
    let a = d.stored[m].acceptors[t];
    assert forall|b: Ballot, w: T| #[trigger] d.vote(t, m, b, w) implies a.accepted is Some
        && ballot_le(b, (a.accepted->0).0) by {
        assert(c.vote(t, m, b, w));
    }
    if let Some(v) = a.accepted {
        assert(d.vote(t, m, v.0, v.1));
    }
}

/// What held before an action of `n` in `slot` still holds elsewhere.
proof fn lemma_elsewhere<T>(c: PaxosCluster<T>, d: PaxosCluster<T>, n: NodeName, slot: u64)
    requires
        c.inv(),
        c.acted(d, n, slot),
    ensures
        forall|m: NodeName| #[trigger] c.members.contains(m) && m != n ==> d.node_ok(m),
        forall|t: u64| #[trigger]
            d.nodes[n].instances.contains_key(t) && t != slot ==> d.slot_ok(n, t),
        forall|t: u64| #[trigger]
            d.stored[n].acceptors.contains_key(t) && t != slot ==> d.acceptor_ok(n, t),
        forall|t: u64, m: NodeName, b: Ballot, w: T| #[trigger]
            c.vote(t, m, b, w) ==> d.vote_ok(t, m, b, w),
        forall|t: u64, b: Ballot, w: T| #[trigger]
            c.asked.contains((t, b, w)) ==> d.ask_ok(t, b, w),
        forall|l: Letter<T>| #[trigger] c.net.contains(l) ==> d.letter_ok(l),
        forall|t: u64, w: T| #[trigger] c.chosen(t, w) ==> d.chosen(t, w),
{
    assert forall|t: u64, w: T| #[trigger] c.chosen(t, w) implies d.chosen(t, w) by {
        lemma_chosen_kept(c, d, n, slot, t, w);
    }
    assert forall|m: NodeName| #[trigger] c.members.contains(m) && m != n implies d.node_ok(m) by {
        assert(c.node_ok(m));
        let s = c.nodes[m];
        assert(d.nodes[m] == s);
        assert(d.stored[m] == c.stored[m]);
        assert forall|t: u64| #[trigger] s.instances.contains_key(t) implies d.slot_ok(m, t) by {
            lemma_slot_kept(c, d, n, slot, m, t);
        }
        assert forall|t: u64| #[trigger] d.stored[m].acceptors.contains_key(t) implies
            d.acceptor_ok(m, t) by {
            lemma_acceptor_kept(c, d, n, slot, m, t);
        }
        assert forall|k: int| 0 <= k < s.recent.len() implies d.chosen(
            (#[trigger] s.recent[k]).1,
            s.recent[k].2,
        ) by {
            assert(c.chosen(s.recent[k].1, s.recent[k].2));
        }
    }
    assert forall|t: u64| #[trigger]
        d.nodes[n].instances.contains_key(t) && t != slot implies d.slot_ok(n, t) by {
        lemma_slot_kept(c, d, n, slot, n, t);
    }
    assert forall|t: u64| #[trigger]
        d.stored[n].acceptors.contains_key(t) && t != slot implies d.acceptor_ok(n, t) by {
        lemma_acceptor_kept(c, d, n, slot, n, t);
    }
    assert forall|t: u64, m: NodeName, b: Ballot, w: T| #[trigger] c.vote(t, m, b, w) implies
        d.vote_ok(t, m, b, w) by {
        assert(c.vote_ok(t, m, b, w));
        assert(up_to(c.stored[m], t, b));
        if m != n {
            assert(d.stored[m] == c.stored[m]);
        }
        assert(d.asked.contains((t, b, w)));
    }
    assert forall|t: u64, b: Ballot, w: T| #[trigger] c.asked.contains((t, b, w)) implies d.ask_ok(
        t,
        b,
        w,
    ) by {
        assert(c.ask_ok(t, b, w));
        lemma_safe_kept(c, d, n, slot, t, b, w);
        assert(d.asked.contains((t, b, w)));
        assert forall|x: T| #[trigger] d.asked.contains((t, b, x)) implies x == w by {
            if !c.asked.contains((t, b, x)) {
                assert(d.asked.contains((t, b, w)));
            }
        }
        if b.1 != n {
            assert(d.nodes[b.1] == c.nodes[b.1]);
            assert(d.stored[b.1] == c.stored[b.1]);
        } else {
            assert(c.remembers(n, t));
            assert(d.remembers(n, t));
        }
    }
    assert forall|l: Letter<T>| #[trigger] c.net.contains(l) implies d.letter_ok(l) by {
        lemma_letter_kept(c, d, n, slot, l);
    }
}

proof fn lemma_letter_kept<T>(
    c: PaxosCluster<T>,
    d: PaxosCluster<T>,
    n: NodeName,
    slot: u64,
    l: Letter<T>,
)
    requires
        c.acted(d, n, slot),
        c.letter_ok(l),
    ensures
        d.letter_ok(l),
{
    match l.msg {
        PaxosMsg::Promise { slot: t, proposal_number, accepted } => {
            lemma_told_kept(c, d, n, slot, t, l.src, proposal_number, accepted);
        },
        PaxosMsg::Accept { slot: t, proposal_number, value } => {
            assert(d.asked.contains((t, proposal_number, value)));
        },
        PaxosMsg::Accepted { slot: t, proposal_number, value } => {
            assert(d.vote(t, l.src, proposal_number, value));
        },
        PaxosMsg::Decide { slot: t, value } => {
            lemma_chosen_kept(c, d, n, slot, t, value);
        },
        _ => {},
    }
}

/// The invariant holds after an action if it does where the action happened.
proof fn lemma_after<T>(
    c: PaxosCluster<T>,
    d: PaxosCluster<T>,
    n: NodeName,
    slot: u64,
    out: Seq<Packet<PaxosMsg<T>>>,
)
    requires
        c.inv(),
        c.acted(d, n, slot),
        d.net == c.net.union(mailed(n, out)),
        d.nodes[n].node_id == n,
        d.nodes[n].quorum == c.nodes[n].quorum,
        kept(d.nodes[n], d.stored[n]),
        d.nodes[n].instances.contains_key(slot) ==> d.slot_ok(n, slot),
        d.stored[n].acceptors.contains_key(slot) ==> d.acceptor_ok(n, slot),
        d.nodes[n].decided.contains_key(slot) ==> d.chosen(slot, d.nodes[n].decided[slot]),
        forall|k: int|
            0 <= k < d.nodes[n].recent.len() ==> d.chosen(
                (#[trigger] d.nodes[n].recent[k]).1,
                d.nodes[n].recent[k].2,
            ),
        forall|b: Ballot, w: T| #[trigger]
            d.vote(slot, n, b, w) && !c.vote(slot, n, b, w) ==> d.vote_ok(slot, n, b, w),
        forall|b: Ballot, w: T| #[trigger]
            d.asked.contains((slot, b, w)) && !c.asked.contains((slot, b, w)) ==> d.ask_ok(
                slot,
                b,
                w,
            ),
        forall|k: int|
            0 <= k < out.len() ==> d.letter_ok(
                Letter { src: n, dst: (#[trigger] out[k]).target, msg: out[k].message },
            ),
        forall|k: (NodeName, u64, T)| #[trigger]
            d.known.contains(k) ==> c.known.contains(k) || (k.0 == n
                && d.nodes[n].decided.contains_key(k.1) && d.nodes[n].decided[k.1] == k.2),
    ensures
        d.inv(),
{
    lemma_elsewhere(c, d, n, slot);
    assert(c.node_ok(n));
    let s = d.nodes[n];
    assert(d.node_ok(n)) by {
        assert forall|t: u64| #[trigger] s.decided.contains_key(t) implies d.chosen(
            t,
            s.decided[t],
        ) by {
            if t != slot {
                assert(c.nodes[n].decided.contains_key(t));
                assert(c.chosen(t, c.nodes[n].decided[t]));
            }
        }
    }
    assert forall|m: NodeName| #[trigger] d.members.contains(m) implies d.node_ok(m) by {
        assert(c.members.contains(m));
    }
    assert forall|t: u64, m: NodeName, b: Ballot, w: T| #[trigger] d.vote(t, m, b, w) implies
        d.vote_ok(t, m, b, w) by {
        if c.vote(t, m, b, w) {
        }
    }
    assert forall|t: u64, b: Ballot, w: T| #[trigger] d.asked.contains((t, b, w)) implies d.ask_ok(
        t,
        b,
        w,
    ) by {
        if c.asked.contains((t, b, w)) {
        }
    }
    assert forall|l: Letter<T>| #[trigger] d.net.contains(l) implies d.letter_ok(l) by {
        if !c.net.contains(l) {
            let k = choose|k: int|
                #![trigger out[k]]
                0 <= k < out.len() && l == (Letter {
                    src: n,
                    dst: out[k].target,
                    msg: out[k].message,
                });
            assert(d.letter_ok(Letter { src: n, dst: out[k].target, msg: out[k].message }));
        }
    }
    assert forall|k: (NodeName, u64, T)| #[trigger] d.known.contains(k) implies d.chosen(
        k.1,
        k.2,
    ) by {
        if c.known.contains(k) {
            assert(c.chosen(k.1, k.2));
        } else {
            assert(s.decided.contains_key(k.1));
        }
    }
}

/// In a slot that a node has not decided, what it has in mind of its acceptor is
/// what it persisted.
proof fn lemma_memory<T>(c: PaxosCluster<T>, n: NodeName, slot: u64)
    requires
        c.inv(),
        c.members.contains(n),
        !c.nodes[n].decided.contains_key(slot),
    ensures
        ({
            let s = c.nodes[n];
            let i = s.instance(slot);
            let p = c.stored[n];
            &&& !p.decisions.contains_key(slot)
            &&& p.acceptors.contains_key(slot) <==> s.instances.contains_key(slot)
            &&& s.instances.contains_key(slot) ==> p.acceptors[slot] == acceptor_of(i)
                && c.slot_ok(n, slot)
            &&& !s.instances.contains_key(slot) ==> i == Instance::<T>::fresh()
            &&& forall|b: Ballot| #[trigger]
                beyond(p, slot, b) <==> i.promised is Some && ballot_less(b, i.promised->0)
            &&& forall|b: Ballot| #[trigger]
                up_to(p, slot, b) <==> i.promised is Some && ballot_le(b, i.promised->0)
            &&& i.accepted matches Some(v) ==> c.vote(slot, n, v.0, v.1) && i.promised is Some
                && ballot_le(v.0, i.promised->0)
            &&& forall|b: Ballot, w: T| #[trigger]
                c.vote(slot, n, b, w) ==> i.accepted is Some && ballot_le(b, (i.accepted->0).0)
        }),
{
    let s = c.nodes[n];
    let p = c.stored[n];
    assert(c.node_ok(n));
    if p.decisions.contains_key(slot) {
        assert(s.decided.contains_key(slot));
    }
    if p.acceptors.contains_key(slot) {
        assert(s.known(slot));
        assert(c.acceptor_ok(n, slot));
    }
    if s.instances.contains_key(slot) {
        assert(!s.dirty.contains(slot));
    } else {
        assert forall|b: Ballot, w: T| !#[trigger] c.vote(slot, n, b, w) by {
            if c.vote(slot, n, b, w) {
                assert(c.vote_ok(slot, n, b, w));
            }
        }
    }
}

/// The acceptance a node holds is one of its votes.
proof fn lemma_held_votes<T>(c: PaxosCluster<T>, n: NodeName)
    requires
        c.inv(),
        c.members.contains(n),
    ensures
        forall|t: u64, b: Ballot, w: T| #[trigger]
            holds_vote(c.nodes[n], t, b, w) ==> c.vote(t, n, b, w),
{
    assert(c.node_ok(n));
    assert forall|t: u64, b: Ballot, w: T| #[trigger] holds_vote(c.nodes[n], t, b, w) implies
        c.vote(t, n, b, w) by {
        assert(!c.nodes[n].decided.contains_key(t)) by {
            if c.nodes[n].decided.contains_key(t) {
            }
        }
        lemma_memory(c, n, t);
    }
}

/// Where a step touched one slot, writing what it marked concerns that slot.
proof fn lemma_written<T>(s: PaxosState<T>, p: PaxosStored<T>, slot: u64)
    requires
        forall|k: int| 0 <= k < s.dirty.len() ==> (#[trigger] s.dirty[k]) == slot,
    ensures
        written(s, p).decisions == p.decisions,
        written(s, p).acceptors == (if s.dirty.len() > 0 && s.instances.contains_key(slot) {
            p.acceptors.insert(slot, acceptor_of(s.instances[slot]))
        } else {
            p.acceptors
        }),
{
    let after = written(s, p).acceptors;
    lemma_noted(p.acceptors, s.dirty, s.instances);
    assert forall|t: u64| #[trigger] s.dirty.contains(t) <==> s.dirty.len() > 0 && t == slot by {
        if s.dirty.len() > 0 {
            assert(s.dirty[0] == slot);
        }
    }
    if s.dirty.len() > 0 && s.instances.contains_key(slot) {
        assert(s.dirty.contains(slot));
        assert forall|t: u64| after.contains_key(t) == p.acceptors.insert(
            slot,
            acceptor_of(s.instances[slot]),
        ).contains_key(t) by {
            assert(s.dirty.contains(t) <==> t == slot);
        }
        assert(after =~= p.acceptors.insert(slot, acceptor_of(s.instances[slot])));
    } else {
        assert forall|t: u64| after.contains_key(t) == p.acceptors.contains_key(t) by {
            assert(s.dirty.contains(t) <==> s.dirty.len() > 0 && t == slot);
        }
        assert(after =~= p.acceptors);
    }
}

/// Every action leaves its node in order, with everything written.
proof fn lemma_kept<T>(c: PaxosCluster<T>, action: PaxosAction<T>)
    requires
        c.enabled(action),
        kept(c.nodes[actor(action)], c.stored[actor(action)]),
    ensures
        kept(c.outcome(action).0, c.outcome(action).1),
{
    let n = actor(action);
    let s = c.nodes[n];
    let p = c.stored[n];
    let (t, q, out) = c.outcome(action);
    match action {
        PaxosAction::Deliver { letter, now, jitter, .. } => {
            lemma_event_kept(
                s,
                p,
                PaxosEvent::Receive { from: letter.src, message: letter.msg, now, jitter },
            );
        },
        PaxosAction::Propose { value, now, jitter, .. } => {
            lemma_event_kept(s, p, PaxosEvent::Propose { value, now, jitter });
        },
        PaxosAction::Retry { slot, now, jitter, .. } => {
            lemma_event_kept(s, p, PaxosEvent::Retry { slot, now, jitter });
        },
        PaxosAction::Rebroadcast { .. } => {
            lemma_same_kept(s, t, p);
        },
        PaxosAction::Collect { .. } => {
            lemma_same_kept(s, t, p);
        },
        PaxosAction::Save { count, .. } => {
            saving_keeps_the_mirror(s, p, count as int);
            assert(t.next_slot == 0 || t.known((t.next_slot - 1) as u64)) by {
                assert(s.next_slot == 0 || s.known((s.next_slot - 1) as u64));
            }
            assert forall|k: int| 0 <= k < t.pending_decisions.len() implies t.decided.contains_key(
                (#[trigger] t.pending_decisions[k]).0,
            ) && t.decided[t.pending_decisions[k].0] == t.pending_decisions[k].1 by {
                assert(t.pending_decisions[k] == s.pending_decisions[k + count]);
            }
            assert(t.tidy());
        },
        PaxosAction::Restart { node, after } => {
            recovery_is_in_order(node, c.members.len() as usize, p, after);
        },
    }
}

/// An event and the writes that follow it leave a node in order.
proof fn lemma_event_kept<T>(s: PaxosState<T>, p: PaxosStored<T>, event: PaxosEvent<T>)
    requires
        s.allows(event),
        kept(s, p),
    ensures
        kept(flushed(s.after_event(event)), written(s.after_event(event), p)),
{
    let t = s.after_event(event);
    every_event_keeps_order(s, event);
    every_event_keeps_the_mirror(s, p, event);
    flushing_keeps_the_mirror(t, p);
    let f = flushed(t);
    assert(f.next_slot == 0 || f.known((f.next_slot - 1) as u64)) by {
        assert(t.next_slot == 0 || t.known((t.next_slot - 1) as u64));
    }
    assert(f.tidy());
}

/// A node in order stays so where only its outbox changes.
proof fn lemma_same_kept<T>(s: PaxosState<T>, t: PaxosState<T>, p: PaxosStored<T>)
    requires
        kept(s, p),
        t == (PaxosState { lost: t.lost, recent: t.recent, ..s }),
    ensures
        kept(t, p),
{
    assert(t.next_slot == 0 || t.known((t.next_slot - 1) as u64)) by {
        assert(s.next_slot == 0 || s.known((s.next_slot - 1) as u64));
    }
    assert(t.tidy());
    assert forall|slot: u64| #[trigger] p.acceptors.contains_key(slot) implies t.known(slot) by {
        assert(s.known(slot));
    }
    assert(mirrored(t, p));
}

/// An action that changes nothing but what a node has in mind of other than its
/// acceptor, or that moves what it has to its storage, or that makes it forget
/// what it had not saved.
proof fn lemma_bookkeeping<T>(c: PaxosCluster<T>, action: PaxosAction<T>)
    requires
        c.inv(),
        c.enabled(action),
        c.nodes[actor(action)].opening(action) is None,
        ({
            let n = actor(action);
            let before = c.nodes[n];
            let q = c.stored[n];
            let (s, p, out) = c.outcome(action);
            &&& s.node_id == before.node_id
            &&& s.quorum == before.quorum
            &&& goes_on(q, p)
            &&& forall|t: u64| #[trigger]
                c.remembers(n, t) ==> t < s.next_slot && (p.decisions.contains_key(t)
                    || p.acceptors.contains_key(t))
            &&& forall|t: u64| #[trigger]
                s.instances.contains_key(t) ==> (before.instances.contains_key(t) && s.instances[t]
                    == before.instances[t]) || blank(s.instances[t])
            &&& forall|t: u64| #[trigger]
                p.acceptors.contains_key(t) ==> q.acceptors.contains_key(t) && p.acceptors[t]
                    == q.acceptors[t]
            &&& forall|t: u64| #[trigger]
                s.decided.contains_key(t) ==> before.decided.contains_key(t) && s.decided[t]
                    == before.decided[t]
            &&& forall|t: u64, b: Ballot, w: T| #[trigger]
                holds_vote(s, t, b, w) ==> c.vote(t, n, b, w)
            &&& forall|k: int|
                0 <= k < s.recent.len() ==> c.chosen((#[trigger] s.recent[k]).1, s.recent[k].2)
            &&& forall|k: int|
                0 <= k < out.len() ==> c.letter_ok(
                    Letter { src: n, dst: (#[trigger] out[k]).target, msg: out[k].message },
                )
        }),
    ensures
        c.after_action(action).inv(),
{
    let n = actor(action);
    let (s, p, out) = c.outcome(action);
    let d = c.after_action(action);
    assert(c.node_ok(n));
    lemma_kept(c, action);
    assert(d.voted =~= c.voted);
    assert(d.asked =~= c.asked);
    assert(d.nodes.dom() =~= c.nodes.dom());
    assert(d.stored.dom() =~= c.stored.dom());
    assert forall|t: u64, m: NodeName, b: Ballot, w: T| #[trigger] d.vote(t, m, b, w) == c.vote(
        t,
        m,
        b,
        w,
    ) by {}
    assert forall|t: u64| c.remembers(n, t) implies #[trigger] d.remembers(n, t) by {}
    // Nothing happened in any slot; take one, then another.
    assert(c.acted(d, n, 0));
    assert(c.acted(d, n, 1));
    if s.instances.contains_key(0) {
        lemma_slot_kept(c, d, n, 1, n, 0);
    }
    if p.acceptors.contains_key(0) {
        lemma_acceptor_kept(c, d, n, 1, n, 0);
    }
    lemma_elsewhere(c, d, n, 0);
    if s.decided.contains_key(0) {
        assert(c.nodes[n].decided.contains_key(0));
        assert(c.chosen(0, s.decided[0]));
    }
    assert forall|k: int| 0 <= k < out.len() implies d.letter_ok(
        Letter { src: n, dst: (#[trigger] out[k]).target, msg: out[k].message },
    ) by {
        let l = Letter { src: n, dst: out[k].target, msg: out[k].message };
        lemma_letter_kept(c, d, n, 0, l);
    }
    assert forall|k: int| 0 <= k < s.recent.len() implies d.chosen(
        (#[trigger] s.recent[k]).1,
        s.recent[k].2,
    ) by {
        assert(c.chosen(s.recent[k].1, s.recent[k].2));
    }
    lemma_after(c, d, n, 0, out);
}

/// A step that leaves the state of its node as it was.
proof fn lemma_idle_step<T>(c: PaxosCluster<T>, action: PaxosAction<T>)
    requires
        c.inv(),
        c.enabled(action),
        c.nodes[actor(action)].opening(action) is None,
        ({
            let n = actor(action);
            let (s, p, out) = c.outcome(action);
            &&& s == flushed(c.nodes[n])
            &&& p == written(c.nodes[n], c.stored[n])
            &&& forall|k: int|
                0 <= k < out.len() ==> c.letter_ok(
                    Letter { src: n, dst: (#[trigger] out[k]).target, msg: out[k].message },
                )
        }),
    ensures
        c.after_action(action).inv(),
{
    let n = actor(action);
    assert(c.node_ok(n));
    let s = c.outcome(action).0;
    lemma_written(c.nodes[n], c.stored[n], 0);
    assert(c.outcome(action).1 =~= c.stored[n]);
    assert(c.nodes[n].dirty =~= Seq::empty());
    assert(s =~= c.nodes[n]);
    lemma_held_votes(c, n);
    assert forall|k: int| 0 <= k < s.recent.len() implies c.chosen(
        (#[trigger] s.recent[k]).1,
        s.recent[k].2,
    ) by {
        assert(c.chosen(c.nodes[n].recent[k].1, c.nodes[n].recent[k].2));
    }
    lemma_bookkeeping(c, action);
}

/// Whether a step changes a node in one slot only, which was not decided, and
/// there only onwards, and writes down what it changed.
spec fn changes_slot<T>(
    before: PaxosState<T>,
    q: PaxosStored<T>,
    s: PaxosState<T>,
    p: PaxosStored<T>,
    slot: u64,
) -> bool {
    &&& !before.decided.contains_key(slot)
    &&& s.node_id == before.node_id
    &&& s.quorum == before.quorum
    &&& before.next_slot <= s.next_slot
    &&& forall|t: u64|
        t != slot ==> (#[trigger] s.instances.contains_key(t)) == before.instances.contains_key(t)
            && (before.instances.contains_key(t) ==> s.instances[t] == before.instances[t])
    &&& forall|t: u64|
        t != slot ==> (#[trigger] s.decided.contains_key(t)) == before.decided.contains_key(t) && (
        before.decided.contains_key(t) ==> s.decided[t] == before.decided[t])
    &&& p.decisions == q.decisions
    &&& p.acceptors == (if s.instances.contains_key(slot) {
        q.acceptors.insert(slot, acceptor_of(s.instances[slot]))
    } else {
        q.acceptors
    })
    &&& s.instances.contains_key(slot) ==> before.instance(slot).promised is None || (
    s.instances[slot].promised is Some && ballot_le(
        before.instance(slot).promised->0,
        s.instances[slot].promised->0,
    ))
}

proof fn lemma_acted<T>(c: PaxosCluster<T>, action: PaxosAction<T>, slot: u64)
    requires
        c.inv(),
        c.members.contains(actor(action)),
        changes_slot(
            c.nodes[actor(action)],
            c.stored[actor(action)],
            c.outcome(action).0,
            c.outcome(action).1,
            slot,
        ),
        ({
            let n = actor(action);
            let before = c.nodes[n];
            let q = c.stored[n];
            let s = c.outcome(action).0;
            let opening = before.opening(action);
            &&& forall|b: Ballot, w: T| #[trigger]
                holds_vote(s, slot, b, w) ==> c.vote(slot, n, b, w) || !beyond(q, slot, b)
            &&& opening matches Some(o) ==> {
                &&& o.0 == slot
                &&& o.1.number.1 == n
                &&& o.1.accepts_at(o.1.number) ==> !beyond(q, slot, o.1.number)
                &&& c.asks_once(slot, o.1)
            }
        }),
    ensures
        c.acted(c.after_action(action), actor(action), slot),
{
    let n = actor(action);
    let before = c.nodes[n];
    let q = c.stored[n];
    let (s, p, out) = c.outcome(action);
    let d = c.after_action(action);
    assert(c.node_ok(n));
    lemma_held_votes(c, n);
    lemma_memory(c, n, slot);
    assert(d.nodes.dom() =~= c.nodes.dom());
    assert(d.stored.dom() =~= c.stored.dom());
    let i = before.instance(slot);
    assert forall|t: u64, number: Ballot| #[trigger] up_to(q, t, number) implies up_to(
        p,
        t,
        number,
    ) by {
        if t == slot && s.instances.contains_key(slot) {
            lemma_le_less(number, i.promised->0, s.instances[slot].promised->0);
        }
    }
    assert forall|t: u64, number: Ballot| #[trigger] beyond(q, t, number) implies beyond(
        p,
        t,
        number,
    ) by {
        if t == slot && s.instances.contains_key(slot) {
            lemma_le_less(number, i.promised->0, s.instances[slot].promised->0);
        }
    }
    assert(goes_on(q, p));
    assert forall|t: u64| c.remembers(n, t) implies #[trigger] d.remembers(n, t) by {}
    assert forall|t: u64, m: NodeName, b: Ballot, w: T| #[trigger] d.vote(t, m, b, w) implies
        c.vote(t, m, b, w) || (t == slot && m == n && !beyond(q, slot, b)) by {
        if !c.vote(t, m, b, w) {
            assert(m == n);
            if holds_vote(s, t, b, w) {
                if t != slot {
                    assert(s.instances.contains_key(t));
                    assert(holds_vote(before, t, b, w));
                }
            }
        }
    }
    assert forall|t: u64, b: Ballot, w: T| #[trigger] d.asked.contains((t, b, w)) implies
        c.asked.contains((t, b, w)) || (t == slot && b.1 == n && (forall|x: T| #[trigger]
        d.asked.contains((t, b, x)) ==> x == w)) by {
        if !c.asked.contains((t, b, w)) {
            let o = before.opening(action)->0;
            assert forall|x: T| #[trigger] d.asked.contains((t, b, x)) implies x == w by {
                if c.asked.contains((t, b, x)) {
                    assert(x == o.1.phase2_value());
                }
            }
        }
    }
    assert forall|t: u64| t != slot && #[trigger] d.nodes[n].instances.contains_key(t) implies (
    c.nodes[n].instances.contains_key(t) && d.nodes[n].instances[t] == c.nodes[n].instances[t])
        || blank(d.nodes[n].instances[t]) by {
        assert(s.instances.contains_key(t) == before.instances.contains_key(t));
    }
    assert forall|t: u64| t != slot && #[trigger] d.nodes[n].decided.contains_key(t) implies
        c.nodes[n].decided.contains_key(t) && d.nodes[n].decided[t] == c.nodes[n].decided[t] by {
        assert(s.decided.contains_key(t) == before.decided.contains_key(t));
    }
}

/// Whether an instance differs from another only in what the acceptor holds.
spec fn same_round<T>(i: Instance<T>, j: Instance<T>) -> bool {
    &&& i.number == j.number
    &&& i.promises == j.promises
    &&& i.accepts == j.accepts
    &&& i.highest_accepted == j.highest_accepted
    &&& i.asked == j.asked
    &&& i.proposed == j.proposed
    &&& i.is_proposer == j.is_proposer
    &&& j.accepts_at(j.number) ==> i.accepts_at(i.number)
}

/// The round of a proposer is as it was where only its acceptor went on.
proof fn lemma_round_kept<T>(c: PaxosCluster<T>, d: PaxosCluster<T>, n: NodeName, slot: u64)
    requires
        c.inv(),
        c.acted(d, n, slot),
        d.asked == c.asked,
        c.nodes[n].instances.contains_key(slot),
        d.nodes[n].instances.contains_key(slot),
        same_round(c.nodes[n].instances[slot], d.nodes[n].instances[slot]),
    ensures
        d.slot_ok(n, slot),
{
    assert(c.node_ok(n));
    assert(c.slot_ok(n, slot));
    let i = c.nodes[n].instances[slot];
    if i.is_proposer {
        assert(c.round_ok(n, slot));
        assert(up_to(c.stored[n], slot, i.number));
        assert forall|p: NodeName| #[trigger] i.promises.contains(p) implies d.members.contains(p)
            && up_to(d.stored[p], slot, i.number) by {
            assert(up_to(c.stored[p], slot, i.number));
            if p != n {
                assert(d.stored[p] == c.stored[p]);
            }
        }
        assert forall|p: NodeName, b: Ballot, w: T|
            #![trigger i.promises.contains(p), d.vote(slot, p, b, w)]
            i.promises.contains(p) && d.vote(slot, p, b, w) && ballot_less(b, i.number) implies
            i.highest_accepted is Some && ballot_le(b, (i.highest_accepted->0).0) by {
            lemma_votes_frozen(c, d, n, slot, slot, p, i.number, b, w);
        }
        assert forall|p: NodeName| #[trigger] i.accepts.contains(p) implies d.members.contains(p)
            && exists|w: T| #[trigger] d.vote(slot, p, i.number, w) by {
            let w = choose|w: T| #[trigger] c.vote(slot, p, i.number, w);
            assert(d.vote(slot, p, i.number, w));
        }
        assert(d.round_ok(n, slot));
    }
}

/// What a step that concerns one open slot writes down is the acceptor state of
/// that slot.
proof fn lemma_stepped<T>(c: PaxosCluster<T>, n: NodeName, t: PaxosState<T>, slot: u64)
    requires
        c.inv(),
        c.members.contains(n),
        !c.nodes[n].decided.contains_key(slot),
        forall|k: int| 0 <= k < t.dirty.len() ==> (#[trigger] t.dirty[k]) == slot,
        t.instances.contains_key(slot) && t.dirty.len() == 0 ==> c.nodes[n].instances.contains_key(
            slot,
        ) && acceptor_of(t.instances[slot]) == acceptor_of(c.nodes[n].instances[slot]),
    ensures
        ({
            let q = c.stored[n];
            let p = written(t, q);
            &&& p.decisions == q.decisions
            &&& p.acceptors == (if t.instances.contains_key(slot) {
                q.acceptors.insert(slot, acceptor_of(t.instances[slot]))
            } else {
                q.acceptors
            })
        }),
{
    let q = c.stored[n];
    lemma_written(t, q, slot);
    lemma_memory(c, n, slot);
    if t.instances.contains_key(slot) && t.dirty.len() == 0 {
        assert(q.acceptors =~= q.acceptors.insert(slot, acceptor_of(t.instances[slot])));
    }
}

/// A prepare request is answered.
proof fn lemma_prepare<T>(c: PaxosCluster<T>, action: PaxosAction<T>)
    requires
        c.inv(),
        c.enabled(action),
        action matches PaxosAction::Deliver { letter, .. } && letter.msg is Prepare,
    ensures
        c.after_action(action).inv(),
{
    let n = actor(action);
    let (s, p, out) = c.outcome(action);
    let before = c.nodes[n];
    let d = c.after_action(action);
    assert(c.node_ok(n));
    let letter = action->letter;
    assert(c.letter_ok(letter));
    match letter.msg {
        PaxosMsg::Prepare { slot, proposal_number } => {
            let i = before.instance(slot);
            if before.decided.contains_key(slot) {
                assert(c.chosen(slot, before.decided[slot]));
                lemma_idle_step(c, action);
            } else if !i.promises_to(proposal_number) {
                lemma_idle_step(c, action);
            } else {
                let j = i.promise(proposal_number);
                let t = before.with_instance(slot, j).touched(slot);
                lemma_memory(c, n, slot);
                lemma_stepped(c, n, t, slot);
                lemma_kept(c, action);
                assert(s.instances[slot] == j);
                if i.promised is Some {
                    ballot_order_is_total(i.promised->0, proposal_number);
                    lemma_le_less(i.number, i.promised->0, proposal_number);
                }
                lemma_acted(c, action, slot);
                assert(d.asked =~= c.asked);
                assert forall|b: Ballot, w: T| #[trigger] d.vote(slot, n, b, w) implies c.vote(
                    slot,
                    n,
                    b,
                    w,
                ) by {
                    if holds_vote(s, slot, b, w) {
                    }
                }
                if let Some(a) = i.accepted {
                    assert(d.vote(slot, n, a.0, a.1));
                    lemma_le_less(a.0, i.promised->0, proposal_number);
                }
                assert(d.acceptor_ok(n, slot));
                if before.instances.contains_key(slot) {
                    lemma_round_kept(c, d, n, slot);
                }
                assert(d.told(slot, n, proposal_number, i.accepted));
                lemma_elsewhere(c, d, n, slot);
                lemma_recent_kept(c, d, n, s);
                lemma_after(c, d, n, slot, out);
            }
        },
        _ => {},
    }
}

/// Recorded decisions stay chosen.
proof fn lemma_recent_kept<T>(c: PaxosCluster<T>, d: PaxosCluster<T>, n: NodeName, s: PaxosState<T>)
    requires
        c.node_ok(n),
        s.recent == c.nodes[n].recent,
        forall|t: u64, w: T| #[trigger] c.chosen(t, w) ==> d.chosen(t, w),
    ensures
        forall|k: int|
            0 <= k < s.recent.len() ==> d.chosen((#[trigger] s.recent[k]).1, s.recent[k].2),
{
    assert forall|k: int| 0 <= k < s.recent.len() implies d.chosen(
        (#[trigger] s.recent[k]).1,
        s.recent[k].2,
    ) by {
        assert(c.chosen(c.nodes[n].recent[k].1, c.nodes[n].recent[k].2));
    }
}

/// An accept request is answered.
proof fn lemma_accept<T>(c: PaxosCluster<T>, action: PaxosAction<T>)
    requires
        c.inv(),
        c.enabled(action),
        action matches PaxosAction::Deliver { letter, .. } && letter.msg is Accept,
    ensures
        c.after_action(action).inv(),
{
    let n = actor(action);
    let (s, p, out) = c.outcome(action);
    let before = c.nodes[n];
    let d = c.after_action(action);
    assert(c.node_ok(n));
    let letter = action->letter;
    assert(c.letter_ok(letter));
    match letter.msg {
        PaxosMsg::Accept { slot, proposal_number, value } => {
            let i = before.instance(slot);
            if before.decided.contains_key(slot) {
                assert(c.chosen(slot, before.decided[slot]));
                lemma_idle_step(c, action);
            } else if !i.accepts_at(proposal_number) {
                lemma_idle_step(c, action);
            } else {
                let j = i.accept(proposal_number, value);
                let t = before.with_instance(slot, j).touched(slot);
                lemma_memory(c, n, slot);
                lemma_stepped(c, n, t, slot);
                lemma_kept(c, action);
                assert(s.instances[slot] == j);
                if i.promised is Some {
                    ballot_order_is_total(i.promised->0, proposal_number);
                    lemma_le_less(i.number, i.promised->0, proposal_number);
                }
                assert(i.promised is Some ==> ballot_le(i.promised->0, proposal_number));
                assert(!beyond(c.stored[n], slot, proposal_number));
                lemma_acted(c, action, slot);
                assert(d.asked =~= c.asked);
                assert(holds_vote(s, slot, proposal_number, value));
                assert(d.vote(slot, n, proposal_number, value));
                assert forall|b: Ballot, w: T| #[trigger] d.vote(slot, n, b, w) implies ballot_le(
                    b,
                    proposal_number,
                ) && (c.vote(slot, n, b, w) || (b == proposal_number && w == value)) by {
                    if c.vote(slot, n, b, w) {
                        let a = i.accepted->0;
                        lemma_le_less(b, a.0, i.promised->0);
                        lemma_le_less(b, i.promised->0, proposal_number);
                    }
                }
                assert(d.acceptor_ok(n, slot));
                if before.instances.contains_key(slot) {
                    lemma_round_kept(c, d, n, slot);
                }
                lemma_elsewhere(c, d, n, slot);
                lemma_recent_kept(c, d, n, s);
                lemma_after(c, d, n, slot, out);
            }
        },
        _ => {},
    }
}

/// Whether an instance is a round that a proposer may go on with: its number is
/// its own, its acceptor promised it, every promise counted was given, and
/// nothing above what it was told of was accepted by those who promised.
spec fn ready<T>(c: PaxosCluster<T>, n: NodeName, slot: u64, i: Instance<T>) -> bool {
    let before = c.nodes[n];
    let j = before.instance(slot);
    &&& !before.decided.contains_key(slot)
    &&& i.is_proposer
    &&& i.proposed is Some
    &&& i.number.1 == n
    &&& i.number.0 >= 1
    &&& i.promised is Some
    &&& ballot_le(i.number, i.promised->0)
    &&& j.promised is Some ==> ballot_le(j.promised->0, i.promised->0)
    &&& i.accepted == j.accepted
    &&& forall|p: NodeName| #[trigger]
        i.promises.contains(p) ==> c.members.contains(p) && (p == n || up_to(
            c.stored[p],
            slot,
            i.number,
        ))
    &&& forall|p: NodeName, b: Ballot, w: T|
        #![trigger i.promises.contains(p), c.vote(slot, p, b, w)]
        i.promises.contains(p) && c.vote(slot, p, b, w) && ballot_less(b, i.number)
            ==> i.highest_accepted is Some && ballot_le(b, (i.highest_accepted->0).0)
    &&& i.highest_accepted matches Some(a) ==> ballot_less(a.0, i.number) && c.asked.contains(
        (slot, a.0, a.1),
    )
    &&& c.asks_once(slot, i)
    &&& forall|p: NodeName| #[trigger]
        i.accepts.contains(p) ==> c.members.contains(p) && exists|w: T| #[trigger]
            c.vote(slot, p, i.number, w)
    &&& c.undecided(n, i)
    &&& forall|r: u64, w: T| #[trigger]
        c.asked.contains((slot, (r, n), w)) ==> r <= i.number.0
}

/// The own vote alone is no quorum: opening phase 2 decides nothing in a cluster
/// of more than one node.
proof fn lemma_no_quorum_yet<T>(c: PaxosCluster<T>, n: NodeName, slot: u64, i: Instance<T>)
    requires
        c.inv(),
        ready(c, n, slot, i),
    ensures
        c.undecided(n, i.phase2_voted(n)),
{
    let k = i.phase2_voted(n);
    if i.accepts_at(i.number) {
        if i.asked is Some {
            assert(k.accepts =~= i.accepts);
        } else {
            assert forall|p: NodeName| !i.accepts.contains(p) by {
                if i.accepts.contains(p) {
                    let w = choose|w: T| #[trigger] c.vote(slot, p, i.number, w);
                    assert(c.vote_ok(slot, p, i.number, w));
                    assert(c.asked.contains((slot, i.number, w)));
                }
            }
            assert(i.accepts =~= Set::empty());
            assert(k.accepts.len() == 1);
        }
    }
}

/// The slot of a proposer that goes on with a round is as it should be.
proof fn lemma_ready_slot<T>(
    c: PaxosCluster<T>,
    d: PaxosCluster<T>,
    n: NodeName,
    slot: u64,
    i: Instance<T>,
)
    requires
        c.inv(),
        c.acted(d, n, slot),
        ready(c, n, slot, i),
        d.nodes[n].instances.contains_key(slot),
        d.nodes[n].instances[slot] == i || d.nodes[n].instances[slot] == i.phase2_voted(n),
        d.stored[n].acceptors.contains_key(slot),
        d.stored[n].acceptors[slot] == acceptor_of(d.nodes[n].instances[slot]),
        forall|b: Ballot, w: T| #[trigger]
            d.vote(slot, n, b, w) ==> c.vote(slot, n, b, w) || (d.nodes[n].instances[slot]
                == i.phase2_voted(n) && i.accepts_at(i.number) && b == i.number && w
                == i.phase2_value()),
        d.nodes[n].instances[slot] == i.phase2_voted(n) && i.accepts_at(i.number) ==> d.vote(
            slot,
            n,
            i.number,
            i.phase2_value(),
        ),
        forall|b: Ballot, w: T| #[trigger]
            d.asked.contains((slot, b, w)) ==> c.asked.contains((slot, b, w)) || (
            d.nodes[n].instances[slot] == i.phase2_voted(n) && b == i.number && w
                == i.phase2_value()),
        d.nodes[n].instances[slot] == i.phase2_voted(n) ==> d.asked.contains(
            (slot, i.number, i.phase2_value()),
        ),
    ensures
        d.slot_ok(n, slot),
        d.acceptor_ok(n, slot),
{
    let before = c.nodes[n];
    let j = before.instance(slot);
    let k = d.nodes[n].instances[slot];
    let voted = k == i.phase2_voted(n) && i.accepts_at(i.number);
    assert(c.node_ok(n));
    lemma_memory(c, n, slot);
    lemma_no_quorum_yet(c, n, slot, i);
    ballot_order_is_total(i.number, i.promised->0);
    if voted {
        // A number not below the promise and not above it is the promise itself.
        assert(i.promised->0 == i.number);
        assert(k.accepted == Some((i.number, i.phase2_value())));
        assert(k.promised == Some(i.number));
        assert forall|b: Ballot, w: T| #[trigger] d.vote(slot, n, b, w) implies ballot_le(
            b,
            i.number,
        ) by {
            if c.vote(slot, n, b, w) {
                let a = j.accepted->0;
                lemma_le_less(b, a.0, j.promised->0);
                lemma_le_less(b, j.promised->0, i.promised->0);
            }
        }
    } else {
        assert(k.accepted == j.accepted);
        assert(k.promised == i.promised);
        if let Some(a) = j.accepted {
            assert(d.vote(slot, n, a.0, a.1));
            lemma_le_less(a.0, j.promised->0, i.promised->0);
        }
    }
    assert(up_to(d.stored[n], slot, i.number));
    assert(d.round_ok(n, slot)) by {
        assert forall|p: NodeName| #[trigger] k.promises.contains(p) implies d.members.contains(p)
            && up_to(d.stored[p], slot, i.number) by {
            if p != n {
                assert(up_to(c.stored[p], slot, i.number));
                assert(d.stored[p] == c.stored[p]);
            }
        }
        assert forall|p: NodeName, b: Ballot, w: T|
            #![trigger k.promises.contains(p), d.vote(slot, p, b, w)]
            k.promises.contains(p) && d.vote(slot, p, b, w) && ballot_less(b, i.number) implies
            i.highest_accepted is Some && ballot_le(b, (i.highest_accepted->0).0) by {
            assert(i.promises.contains(p));
            if p != n {
                lemma_votes_frozen(c, d, n, slot, slot, p, i.number, b, w);
            }
        }
        assert forall|p: NodeName| #[trigger] k.accepts.contains(p) implies d.members.contains(p)
            && exists|w: T| #[trigger] d.vote(slot, p, i.number, w) by {
            if i.accepts.contains(p) {
                let w = choose|w: T| #[trigger] c.vote(slot, p, i.number, w);
                assert(d.vote(slot, p, i.number, w));
            } else {
                assert(p == n);
                assert(d.vote(slot, n, i.number, i.phase2_value()));
            }
        }
        assert forall|r: u64, w: T| #[trigger] d.asked.contains((slot, (r, n), w)) implies r
            <= i.number.0 by {
            if c.asked.contains((slot, (r, n), w)) {
            }
        }
        if let Some(a) = i.highest_accepted {
            assert(d.asked.contains((slot, a.0, a.1)));
        }
        assert(d.asks_once(slot, k)) by {
            if let Some(v) = i.asked {
                assert(d.asked.contains((slot, i.number, v)));
            }
            assert forall|w: T| #[trigger] d.asked.contains((slot, k.number, w)) implies k.asked
                == Some(w) by {
                if c.asked.contains((slot, i.number, w)) {
                }
            }
        }
    }
}

/// The value of phase 2 is safe: below its number no other value was or will be
/// chosen.
proof fn lemma_value_safe<T>(
    c: PaxosCluster<T>,
    d: PaxosCluster<T>,
    n: NodeName,
    slot: u64,
    i: Instance<T>,
)
    requires
        c.inv(),
        c.acted(d, n, slot),
        ready(c, n, slot, i),
        i.promises.len() >= c.nodes[n].quorum,
        up_to(d.stored[n], slot, i.number),
        forall|b: Ballot, w: T| #[trigger]
            d.vote(slot, n, b, w) && ballot_less(b, i.number) ==> c.vote(slot, n, b, w),
    ensures
        d.safe_at(slot, i.number, i.phase2_value()),
{
    let value = i.phase2_value();
    let q = i.promises;
    if i.asked is Some {
        assert(c.ask_ok(slot, i.number, value));
        lemma_safe_kept(c, d, n, slot, slot, i.number, value);
        return ;
    }
    assert(c.node_ok(n));
    assert(q.subset_of(c.members));
    assert(is_quorum(d.members, q));
    assert forall|lower: Ballot| ballot_less(lower, i.number) implies #[trigger] d.settled(
        slot,
        lower,
        value,
    ) by {
        if i.highest_accepted is Some && ballot_less(lower, (i.highest_accepted->0).0) {
            let a = i.highest_accepted->0;
            assert(c.ask_ok(slot, a.0, a.1));
            assert(c.settled(slot, lower, a.1));
            lemma_settled_kept(c, d, n, slot, slot, lower, a.1);
        } else {
            assert forall|p: NodeName| #[trigger] q.contains(p) implies d.vote(
                slot,
                p,
                lower,
                value,
            ) || d.passed(slot, p, lower) by {
                assert(up_to(d.stored[p], slot, i.number)) by {
                    if p != n {
                        assert(up_to(c.stored[p], slot, i.number));
                        assert(d.stored[p] == c.stored[p]);
                    }
                }
                lemma_up_to_beyond(d.stored[p], slot, lower, i.number);
                assert forall|w: T| #[trigger] d.vote(slot, p, lower, w) implies w == value by {
                    if p != n {
                        lemma_votes_frozen(c, d, n, slot, slot, p, i.number, lower, w);
                    }
                    assert(c.vote(slot, p, lower, w));
                    let a = i.highest_accepted->0;
                    ballot_order_is_total(lower, a.0);
                    assert(lower == a.0);
                    assert(c.vote_ok(slot, p, lower, w));
                    assert(c.ask_ok(slot, a.0, a.1));
                }
                if exists|w: T| #[trigger] d.vote(slot, p, lower, w) {
                    let w = choose|w: T| #[trigger] d.vote(slot, p, lower, w);
                    assert(w == value);
                }
            }
            assert(d.settled_by(q, slot, lower, value));
        }
    }
}

/// What a step of a proposer does to its node: it goes on with a round in a slot.
spec fn rounds_on<T>(
    before: PaxosState<T>,
    s: PaxosState<T>,
    p: PaxosStored<T>,
    q: PaxosStored<T>,
    slot: u64,
    i: Instance<T>,
) -> bool {
    &&& s.instances == before.instances.insert(slot, i)
    &&& s.decided == before.decided
    &&& s.recent == before.recent
    &&& s.node_id == before.node_id
    &&& s.quorum == before.quorum
    &&& before.next_slot <= s.next_slot
    &&& slot < s.next_slot
    &&& p.decisions == q.decisions
    &&& p.acceptors == q.acceptors.insert(slot, acceptor_of(i))
}

/// A proposer goes on with a round that has no quorum of promises yet.
proof fn lemma_round<T>(c: PaxosCluster<T>, action: PaxosAction<T>, slot: u64, i: Instance<T>)
    requires
        c.inv(),
        c.enabled(action),
        ready(c, actor(action), slot, i),
        c.nodes[actor(action)].opening(action) is None,
        rounds_on(
            c.nodes[actor(action)],
            c.outcome(action).0,
            c.outcome(action).1,
            c.stored[actor(action)],
            slot,
            i,
        ),
        forall|k: int|
            0 <= k < c.outcome(action).2.len() ==> (#[trigger] c.outcome(action).2[k]).message
                is Prepare && c.outcome(action).2[k].message->Prepare_proposal_number == i.number,
    ensures
        c.after_action(action).inv(),
{
    let n = actor(action);
    let (s, p, out) = c.outcome(action);
    let d = c.after_action(action);
    assert(c.node_ok(n));
    lemma_memory(c, n, slot);
    lemma_kept(c, action);
    lemma_acted(c, action, slot);
    assert(d.asked =~= c.asked);
    assert forall|b: Ballot, w: T| #[trigger] d.vote(slot, n, b, w) implies c.vote(
        slot,
        n,
        b,
        w,
    ) by {
        if holds_vote(s, slot, b, w) {
        }
    }
    if i == i.phase2_voted(n) {
        // Phase 2 was open before, with the own vote counted where it was given.
        if i.asked is Some && i.accepts_at(i.number) {
            lemma_own_vote(c, n, slot, i);
        }
    }
    lemma_ready_slot(c, d, n, slot, i);
    lemma_elsewhere(c, d, n, slot);
    lemma_recent_kept(c, d, n, s);
    lemma_after(c, d, n, slot, out);
}

/// The own vote under the number of a round is for the value that it asks for.
proof fn lemma_own_vote<T>(c: PaxosCluster<T>, n: NodeName, slot: u64, i: Instance<T>)
    requires
        c.inv(),
        ready(c, n, slot, i),
        i.asked is Some,
        i.accepts_at(i.number),
    ensures
        c.vote(slot, n, i.number, i.phase2_value()),
        c.asked.contains((slot, i.number, i.phase2_value())),
{
    let w = choose|w: T| #[trigger] c.vote(slot, n, i.number, w);
    assert(i.accepts.contains(n));
    assert(c.vote_ok(slot, n, i.number, w));
}

/// A proposer opens phase 2.
#[verifier::rlimit(40)]
proof fn lemma_phase2<T>(
    c: PaxosCluster<T>,
    action: PaxosAction<T>,
    slot: u64,
    i: Instance<T>,
    s0: PaxosState<T>,
    now: u64,
)
    requires
        c.inv(),
        c.enabled(action),
        ready(c, actor(action), slot, i),
        c.nodes[actor(action)].opening(action) == Some((slot, i)),
        i.promises.len() >= c.nodes[actor(action)].quorum,
        ({
            let n = actor(action);
            let before = c.nodes[n];
            &&& s0.instances == before.instances.insert(slot, i)
            &&& s0.decided == before.decided
            &&& s0.recent == before.recent
            &&& s0.node_id == before.node_id
            &&& s0.quorum == before.quorum
            &&& before.next_slot <= s0.next_slot
            &&& slot < s0.next_slot
            &&& forall|k: int| 0 <= k < s0.dirty.len() ==> (#[trigger] s0.dirty[k]) == slot
            &&& s0.dirty.len() == 0 ==> before.instances.contains_key(slot) && acceptor_of(i)
                == acceptor_of(before.instances[slot])
            &&& ({
                let (t, out) = s0.start_phase2(slot, now);
                c.outcome(action) == (flushed(t), written(t, c.stored[n]), out)
            })
        }),
    ensures
        c.after_action(action).inv(),
{
    let n = actor(action);
    let (s, p, out) = c.outcome(action);
    let before = c.nodes[n];
    let q = c.stored[n];
    let d = c.after_action(action);
    let value = i.phase2_value();
    let k = i.phase2_voted(n);
    let votes = i.accepts_at(i.number);
    let t = s0.start_phase2(slot, now).0;
    assert(c.node_ok(n));
    lemma_memory(c, n, slot);
    lemma_kept(c, action);
    lemma_no_quorum_yet(c, n, slot, i);
    assert(t.instances =~= before.instances.insert(slot, k));
    assert(s.instances == t.instances);
    lemma_stepped(c, n, t, slot);
    ballot_order_is_total(i.number, i.promised->0);
    let j = before.instance(slot);
    if votes {
        assert(i.promised->0 == i.number);
        if j.promised is Some {
            ballot_order_is_total(i.number, j.promised->0);
        }
        assert(!beyond(q, slot, i.number));
    }
    assert(rounds_on(before, s, p, q, slot, k));
    assert forall|b: Ballot, w: T| #[trigger] holds_vote(s, slot, b, w) implies c.vote(
        slot,
        n,
        b,
        w,
    ) || (votes && b == i.number && w == value) by {}
    lemma_acted(c, action, slot);
    assert forall|b: Ballot, w: T| #[trigger] d.vote(slot, n, b, w) implies c.vote(slot, n, b, w)
        || (votes && b == i.number && w == value) by {
        if holds_vote(s, slot, b, w) {
        }
    }
    assert(d.asked.contains((slot, i.number, value)));
    if votes {
        assert(votes_at_opening(before.opening(action), slot, i.number, value));
        assert(d.vote(slot, n, i.number, value));
    }
    lemma_elsewhere(c, d, n, slot);
    assert(up_to(d.stored[n], slot, i.number));
    lemma_value_safe(c, d, n, slot, i);
    assert(d.remembers(n, slot));
    assert(d.ask_ok(slot, i.number, value)) by {
        assert forall|w: T| #[trigger] d.asked.contains((slot, i.number, w)) implies w == value by {
            if c.asked.contains((slot, i.number, w)) {
            }
        }
    }
    lemma_ready_slot(c, d, n, slot, i);
    lemma_recent_kept(c, d, n, s);
    lemma_after(c, d, n, slot, out);
}

/// A promise is counted.
proof fn lemma_promise<T>(c: PaxosCluster<T>, action: PaxosAction<T>)
    requires
        c.inv(),
        c.enabled(action),
        action matches PaxosAction::Deliver { letter, .. } && letter.msg is Promise,
    ensures
        c.after_action(action).inv(),
{
    let n = actor(action);
    let before = c.nodes[n];
    assert(c.node_ok(n));
    let letter = action->letter;
    assert(c.letter_ok(letter));
    match letter.msg {
        PaxosMsg::Promise { slot, proposal_number, accepted } => {
            if !before.current(slot, proposal_number) {
                lemma_idle_step(c, action);
            } else {
                let j = before.instances[slot];
                let i = j.with_promise(letter.src, accepted);
                lemma_memory(c, n, slot);
                assert(j.is_proposer);
                assert(c.round_ok(n, slot));
                if let Some(a) = accepted {
                    assert(c.vote_ok(slot, letter.src, a.0, a.1));
                    if let Some(h) = j.highest_accepted {
                        ballot_order_is_total(h.0, a.0);
                    }
                }
                assert forall|p: NodeName, b: Ballot, w: T|
                    #![trigger i.promises.contains(p), c.vote(slot, p, b, w)]
                    i.promises.contains(p) && c.vote(slot, p, b, w) && ballot_less(
                        b,
                        i.number,
                    ) implies i.highest_accepted is Some && ballot_le(
                    b,
                    (i.highest_accepted->0).0,
                ) by {
                    if j.promises.contains(p) {
                        lemma_le_less(b, (j.highest_accepted->0).0, (i.highest_accepted->0).0);
                    } else {
                        lemma_le_less(b, (accepted->0).0, (i.highest_accepted->0).0);
                    }
                }
                assert(ready(c, n, slot, i));
                let s0 = before.with_instance(slot, i);
                if i.promises.len() >= before.quorum {
                    lemma_phase2(c, action, slot, i, s0, action->Deliver_now);
                } else {
                    lemma_stepped(c, n, s0, slot);
                    lemma_round(c, action, slot, i);
                }
            }
        },
        _ => {},
    }
}

/// A slot is closed with a value that was chosen.
proof fn lemma_close<T>(c: PaxosCluster<T>, action: PaxosAction<T>, slot: u64, value: T, now: u64)
    requires
        c.inv(),
        c.enabled(action),
        c.chosen(slot, value),
        slot < u64::MAX,
        !c.nodes[actor(action)].decided.contains_key(slot),
        c.nodes[actor(action)].opening(action) is None,
        ({
            let n = actor(action);
            let before = c.nodes[n];
            let (s, p, out) = c.outcome(action);
            let t = before.close(slot, value, now);
            &&& s == flushed(t)
            &&& p == written(t, c.stored[n])
            &&& forall|k: int|
                0 <= k < out.len() ==> (#[trigger] out[k]).message == (PaxosMsg::Decide {
                    slot,
                    value,
                })
        }),
    ensures
        c.after_action(action).inv(),
{
    let n = actor(action);
    let (s, p, out) = c.outcome(action);
    let before = c.nodes[n];
    let d = c.after_action(action);
    assert(c.node_ok(n));
    lemma_memory(c, n, slot);
    lemma_kept(c, action);
    lemma_stepped(c, n, before.close(slot, value, now), slot);
    lemma_acted(c, action, slot);
    assert(d.asked =~= c.asked);
    assert forall|b: Ballot, w: T| #[trigger] d.vote(slot, n, b, w) implies c.vote(
        slot,
        n,
        b,
        w,
    ) by {}
    if p.acceptors.contains_key(slot) {
        assert(d.acceptor_ok(n, slot)) by {
            if let Some(v) = p.acceptors[slot].accepted {
                assert(d.vote(slot, n, v.0, v.1));
            }
        }
    }
    lemma_elsewhere(c, d, n, slot);
    assert forall|x: int| 0 <= x < s.recent.len() implies d.chosen(
        (#[trigger] s.recent[x]).1,
        s.recent[x].2,
    ) by {
        if x < before.recent.len() {
            assert(s.recent[x] == before.recent[x]);
            assert(c.chosen(before.recent[x].1, before.recent[x].2));
        }
    }
    lemma_after(c, d, n, slot, out);
}

/// An acceptance is counted.
proof fn lemma_accepted<T>(c: PaxosCluster<T>, action: PaxosAction<T>)
    requires
        c.inv(),
        c.enabled(action),
        action matches PaxosAction::Deliver { letter, .. } && letter.msg is Accepted,
    ensures
        c.after_action(action).inv(),
{
    let n = actor(action);
    let before = c.nodes[n];
    assert(c.node_ok(n));
    let letter = action->letter;
    assert(c.letter_ok(letter));
    match letter.msg {
        PaxosMsg::Accepted { slot, proposal_number, value } => {
            if !before.current(slot, proposal_number) {
                lemma_idle_step(c, action);
            } else {
                let j = before.instances[slot];
                let i = Instance { accepts: j.accepts.insert(letter.src), ..j };
                lemma_memory(c, n, slot);
                assert(c.vote_ok(slot, letter.src, proposal_number, value));
                assert(c.ask_ok(slot, proposal_number, value));
                assert(j.is_proposer);
                assert(c.round_ok(n, slot));
                assert forall|p: NodeName| #[trigger] i.accepts.contains(p) implies
                    c.members.contains(p) && exists|w: T| #[trigger]
                    c.vote(slot, p, i.number, w) by {
                    if p == letter.src {
                        assert(c.vote(slot, p, i.number, value));
                    } else {
                        assert(j.accepts.contains(p));
                        let w = choose|w: T| #[trigger] c.vote(slot, p, j.number, w);
                        assert(c.vote(slot, p, i.number, w));
                    }
                }
                assert(i.asked == Some(value));
                if i.accepts.len() >= before.quorum {
                    assert(c.chosen_by(slot, proposal_number, value, i.accepts)) by {
                        assert(i.accepts.subset_of(c.members));
                        assert forall|p: NodeName| #[trigger] i.accepts.contains(p) implies c.vote(
                            slot,
                            p,
                            proposal_number,
                            value,
                        ) by {
                            let w = choose|w: T| #[trigger] c.vote(slot, p, i.number, w);
                            assert(c.vote_ok(slot, p, i.number, w));
                            assert(w == value);
                        }
                    }
                    assert(c.chosen(slot, value));
                    lemma_close(c, action, slot, value, action->Deliver_now);
                } else {
                    assert(ready(c, n, slot, i));
                    lemma_stepped(c, n, before.with_instance(slot, i), slot);
                    lemma_round(c, action, slot, i);
                }
            }
        },
        _ => {},
    }
}

/// A decision is learned.
proof fn lemma_decide<T>(c: PaxosCluster<T>, action: PaxosAction<T>)
    requires
        c.inv(),
        c.enabled(action),
        action matches PaxosAction::Deliver { letter, .. } && letter.msg is Decide,
    ensures
        c.after_action(action).inv(),
{
    let n = actor(action);
    let before = c.nodes[n];
    assert(c.node_ok(n));
    let letter = action->letter;
    assert(c.letter_ok(letter));
    match letter.msg {
        PaxosMsg::Decide { slot, value } => {
            if before.decided.contains_key(slot) {
                lemma_idle_step(c, action);
            } else {
                lemma_close(c, action, slot, value, action->Deliver_now);
            }
        },
        _ => {},
    }
}

/// A refusal is heard.
proof fn lemma_refusal<T>(c: PaxosCluster<T>, action: PaxosAction<T>)
    requires
        c.inv(),
        c.enabled(action),
        action matches PaxosAction::Deliver { letter, .. } && (letter.msg is NackPrepare
            || letter.msg is NackAccept),
    ensures
        c.after_action(action).inv(),
{
    let n = actor(action);
    let (s, p, out) = c.outcome(action);
    let before = c.nodes[n];
    let d = c.after_action(action);
    assert(c.node_ok(n));
    let (slot, round) = match action->letter.msg {
        PaxosMsg::NackPrepare { slot, highest_promised, .. } => (slot, highest_promised.0),
        PaxosMsg::NackAccept { slot, highest_promised, .. } => (slot, highest_promised.0),
        _ => (0u64, 0u64),
    };
    if !before.instances.contains_key(slot) {
        lemma_idle_step(c, action);
    } else {
        let i = before.instances[slot];
        let k = i.refused(round, action->Deliver_now, action->Deliver_jitter);
        let t = before.with_instance(slot, k);
        assert(!before.decided.contains_key(slot)) by {
            if before.decided.contains_key(slot) {
            }
        }
        lemma_memory(c, n, slot);
        lemma_stepped(c, n, t, slot);
        lemma_kept(c, action);
        assert(s == flushed(t));
        lemma_acted(c, action, slot);
        assert(d.asked =~= c.asked);
        assert forall|b: Ballot, w: T| #[trigger] d.vote(slot, n, b, w) implies c.vote(
            slot,
            n,
            b,
            w,
        ) by {
            if holds_vote(s, slot, b, w) {
            }
        }
        if let Some(a) = i.accepted {
            assert(d.vote(slot, n, a.0, a.1));
        }
        assert(d.acceptor_ok(n, slot));
        lemma_round_kept(c, d, n, slot);
        lemma_elsewhere(c, d, n, slot);
        lemma_recent_kept(c, d, n, s);
        lemma_after(c, d, n, slot, out);
    }
}

/// A value is proposed.
proof fn lemma_propose<T>(c: PaxosCluster<T>, action: PaxosAction<T>)
    requires
        c.inv(),
        c.enabled(action),
        action is Propose,
    ensures
        c.after_action(action).inv(),
{
    let n = actor(action);
    let before = c.nodes[n];
    assert(c.node_ok(n));
    match action {
        PaxosAction::Propose { value, now, jitter, .. } => {
            let slot = before.next_slot;
            let j = before.instance(slot);
            assert(!before.decided.contains_key(slot)) by {
                if before.decided.contains_key(slot) {
                }
            }
            lemma_memory(c, n, slot);
            assert(blank(j));
            let i = j.opened(n, value, now, jitter);
            if j.promised is Some {
                ballot_order_is_total((1u64, n), j.promised->0);
            }
            assert forall|r: u64, w: T| #[trigger] c.asked.contains((slot, (r, n), w)) implies r
                <= i.number.0 by {
                assert(c.ask_ok(slot, (r, n), w));
            }
            assert(c.asks_once(slot, i)) by {
                assert forall|w: T| #[trigger] c.asked.contains((slot, i.number, w)) implies i.asked
                    == Some(w) by {
                    assert(c.ask_ok(slot, i.number, w));
                }
            }
            if let Some(a) = j.accepted {
                assert(c.vote_ok(slot, n, a.0, a.1));
                assert(c.ask_ok(slot, a.0, a.1));
                lemma_le_less(a.0, j.promised->0, i.number);
            }
            assert(ready(c, n, slot, i));
            let s0 = PaxosState {
                next_slot: (slot + 1) as u64,
                ..before.with_instance(slot, i).touched(slot)
            };
            if i.promises.len() >= before.quorum {
                lemma_phase2(c, action, slot, i, s0, now);
            } else {
                lemma_stepped(c, n, s0, slot);
                lemma_round(c, action, slot, i);
            }
        },
        _ => {},
    }
}

/// A proposal is tried again.
proof fn lemma_retry<T>(c: PaxosCluster<T>, action: PaxosAction<T>)
    requires
        c.inv(),
        c.enabled(action),
        action is Retry,
    ensures
        c.after_action(action).inv(),
{
    let n = actor(action);
    let before = c.nodes[n];
    assert(c.node_ok(n));
    match action {
        PaxosAction::Retry { slot, now, jitter, .. } => {
            if !before.proposing(slot) {
                lemma_idle_step(c, action);
            } else {
                let j = before.instances[slot];
                assert(!before.decided.contains_key(slot)) by {
                    if before.decided.contains_key(slot) {
                    }
                }
                lemma_memory(c, n, slot);
                assert(c.round_ok(n, slot));
                let i = j.reopened(n, now, jitter);
                assert(j.promised is Some ==> (j.promised->0).0 < i.number.0);
                assert(c.asks_once(slot, i)) by {
                    assert forall|w: T| #[trigger] c.asked.contains((slot, i.number, w)) implies
                        i.asked == Some(w) by {
                        assert(c.asked.contains((slot, (i.number.0, n), w)));
                    }
                }
                if let Some(a) = j.accepted {
                    assert(c.vote_ok(slot, n, a.0, a.1));
                    lemma_le_less(a.0, j.promised->0, i.number);
                }
                assert(ready(c, n, slot, i));
                let s0 = before.with_instance(slot, i).touched(slot);
                if i.promises.len() >= before.quorum {
                    lemma_phase2(c, action, slot, i, s0, now);
                } else {
                    lemma_stepped(c, n, s0, slot);
                    lemma_round(c, action, slot, i);
                }
            }
        },
        _ => {},
    }
}

/// What is sent again is among what was recorded.
proof fn lemma_still_recent<T>(recent: Seq<(u64, u64, T)>, now: u64)
    ensures
        forall|k: int|
            0 <= k < still_recent(recent, now).len() ==> recent.contains(
                #[trigger] still_recent(recent, now)[k],
            ),
    decreases recent.len(),
{
    if recent.len() > 0 {
        lemma_still_recent(recent.drop_last(), now);
        let rest = still_recent(recent.drop_last(), now);
        assert forall|k: int| 0 <= k < still_recent(recent, now).len() implies recent.contains(
            #[trigger] still_recent(recent, now)[k],
        ) by {
            if k < rest.len() {
                assert(rest[k] == still_recent(recent, now)[k]);
                let x = choose|x: int|
                    0 <= x < recent.drop_last().len() && recent.drop_last()[x] == rest[k];
                assert(recent[x] == rest[k]);
            } else {
                assert(recent[recent.len() - 1] == recent.last());
            }
        }
    }
}

/// Decisions are sent again.
proof fn lemma_rebroadcast<T>(c: PaxosCluster<T>, action: PaxosAction<T>)
    requires
        c.inv(),
        c.enabled(action),
        action is Rebroadcast,
    ensures
        c.after_action(action).inv(),
{
    let n = actor(action);
    let before = c.nodes[n];
    let (s, p, out) = c.outcome(action);
    assert(c.node_ok(n));
    lemma_held_votes(c, n);
    lemma_still_recent(before.recent, action->Rebroadcast_now);
    assert forall|k: int| 0 <= k < s.recent.len() implies c.chosen(
        (#[trigger] s.recent[k]).1,
        s.recent[k].2,
    ) by {
        let x = choose|x: int| 0 <= x < before.recent.len() && before.recent[x] == s.recent[k];
        assert(c.chosen(before.recent[x].1, before.recent[x].2));
    }
    assert forall|k: int| 0 <= k < out.len() implies c.letter_ok(
        Letter { src: n, dst: (#[trigger] out[k]).target, msg: out[k].message },
    ) by {
        assert(c.chosen(s.recent[k].1, s.recent[k].2));
    }
    assert forall|t: u64, b: Ballot, w: T| #[trigger] holds_vote(s, t, b, w) implies c.vote(
        t,
        n,
        b,
        w,
    ) by {
        assert(holds_vote(before, t, b, w));
    }
    lemma_bookkeeping(c, action);
}

/// Lost proposals are taken.
proof fn lemma_collect<T>(c: PaxosCluster<T>, action: PaxosAction<T>)
    requires
        c.inv(),
        c.enabled(action),
        action is Collect,
    ensures
        c.after_action(action).inv(),
{
    let n = actor(action);
    let before = c.nodes[n];
    let (s, p, out) = c.outcome(action);
    assert(c.node_ok(n));
    lemma_held_votes(c, n);
    assert forall|t: u64, b: Ballot, w: T| #[trigger] holds_vote(s, t, b, w) implies c.vote(
        t,
        n,
        b,
        w,
    ) by {
        assert(holds_vote(before, t, b, w));
    }
    assert forall|k: int| 0 <= k < s.recent.len() implies c.chosen(
        (#[trigger] s.recent[k]).1,
        s.recent[k].2,
    ) by {
        assert(c.chosen(before.recent[k].1, before.recent[k].2));
    }
    lemma_bookkeeping(c, action);
}

/// Saving decisions takes nothing back: a saved decision stays as it is, and
/// stands for every promise in its slot.
proof fn lemma_saving_goes_on<T>(s: PaxosState<T>, q: PaxosStored<T>, count: int)
    requires
        kept(s, q),
        0 <= count <= s.pending_decisions.len(),
    ensures
        ({
            let p = concluded(q, s.pending_decisions.take(count));
            &&& goes_on(q, p)
            &&& forall|t: u64| #[trigger]
                p.acceptors.contains_key(t) ==> q.acceptors.contains_key(t) && p.acceptors[t]
                    == q.acceptors[t]
            &&& forall|t: u64|
                q.acceptors.contains_key(t) ==> #[trigger] p.acceptors.contains_key(t)
                    || p.decisions.contains_key(t)
        }),
{
    let all = s.pending_decisions.take(count);
    let p = concluded(q, all);
    lemma_concluded(q, all);
    assert forall|t: u64| #[trigger] q.decisions.contains_key(t) implies p.decisions.contains_key(t)
        && p.decisions[t] == q.decisions[t] by {
        assert(p.decisions.contains_key(t));
        assert(s.decided.contains_key(t));
        if all.contains((t, p.decisions[t])) {
            let k = choose|k: int| 0 <= k < all.len() && all[k] == (t, p.decisions[t]);
            assert(all[k] == s.pending_decisions[k]);
        }
    }
    assert forall|t: u64| q.acceptors.contains_key(t) implies #[trigger] p.acceptors.contains_key(t)
        || p.decisions.contains_key(t) by {
        if exists|k: int| 0 <= k < all.len() && (#[trigger] all[k]).0 == t {
            let k = choose|k: int| 0 <= k < all.len() && (#[trigger] all[k]).0 == t;
            assert(p.decisions.contains_key(all[k].0));
        } else {
            assert forall|k: int| 0 <= k < all.len() implies (#[trigger] all[k]).0 != t by {}
            assert(p.acceptors.contains_key(t));
        }
    }
    assert forall|t: u64, number: Ballot| #[trigger] up_to(q, t, number) implies up_to(
        p,
        t,
        number,
    ) by {
        if !q.decisions.contains_key(t) {
            assert(p.acceptors.contains_key(t) || p.decisions.contains_key(t));
        } else {
            assert(p.decisions.contains_key(t));
        }
    }
    assert forall|t: u64, number: Ballot| #[trigger] beyond(q, t, number) implies beyond(
        p,
        t,
        number,
    ) by {
        if !q.decisions.contains_key(t) {
            assert(p.acceptors.contains_key(t) || p.decisions.contains_key(t));
        } else {
            assert(p.decisions.contains_key(t));
        }
    }
}

/// Decisions are saved.
proof fn lemma_save<T>(c: PaxosCluster<T>, action: PaxosAction<T>)
    requires
        c.inv(),
        c.enabled(action),
        action is Save,
    ensures
        c.after_action(action).inv(),
{
    let n = actor(action);
    let before = c.nodes[n];
    let q = c.stored[n];
    let (s, p, out) = c.outcome(action);
    assert(c.node_ok(n));
    lemma_held_votes(c, n);
    lemma_saving_goes_on(before, q, action->count as int);
    assert forall|t: u64, b: Ballot, w: T| #[trigger] holds_vote(s, t, b, w) implies c.vote(
        t,
        n,
        b,
        w,
    ) by {
        assert(holds_vote(before, t, b, w));
    }
    assert forall|k: int| 0 <= k < s.recent.len() implies c.chosen(
        (#[trigger] s.recent[k]).1,
        s.recent[k].2,
    ) by {
        assert(c.chosen(before.recent[k].1, before.recent[k].2));
    }
    assert forall|t: u64| #[trigger] c.remembers(n, t) implies t < s.next_slot && (
    p.decisions.contains_key(t) || p.acceptors.contains_key(t)) by {
        if q.decisions.contains_key(t) {
            assert(p.decisions.contains_key(t));
        } else {
            assert(p.acceptors.contains_key(t) || p.decisions.contains_key(t));
        }
    }
    lemma_bookkeeping(c, action);
}

/// A node ends and starts again.
proof fn lemma_restart<T>(c: PaxosCluster<T>, action: PaxosAction<T>)
    requires
        c.inv(),
        c.enabled(action),
        action is Restart,
    ensures
        c.after_action(action).inv(),
{
    let n = actor(action);
    let before = c.nodes[n];
    let q = c.stored[n];
    let (s, p, out) = c.outcome(action);
    let total = c.members.len() as usize;
    let fresh = PaxosState::<T>::initial(n, total);
    assert(c.node_ok(n));
    assert(before.node_id == n);
    assert forall|t: u64| #[trigger] s.instances.contains_key(t) implies blank(s.instances[t])
        && q.acceptors.contains_key(t) && acceptor_of(s.instances[t]) == q.acceptors[t] by {
        let decided = fresh.decided.union_prefer_right(q.decisions);
        assert(s.instances.dom().contains(t));
        assert(open_slots(q, decided).contains(t));
    }
    assert forall|t: u64| #[trigger] s.decided.contains_key(t) implies before.decided.contains_key(t)
        && s.decided[t] == before.decided[t] by {
        crashes_forget_only_the_unsaved(before, q, total, s, t);
    }
    assert forall|t: u64| #[trigger] c.remembers(n, t) implies t < s.next_slot && (
    p.decisions.contains_key(t) || p.acceptors.contains_key(t)) by {
        crashes_forget_only_the_unsaved(before, q, total, s, t);
        if q.decisions.contains_key(t) {
            assert(s.decided.contains_key(t));
        }
    }
    assert forall|t: u64, b: Ballot, w: T| #[trigger] holds_vote(s, t, b, w) implies c.vote(
        t,
        n,
        b,
        w,
    ) by {
        assert(s.instances.contains_key(t));
        assert(c.acceptor_ok(n, t));
    }
    lemma_bookkeeping(c, action);
}

/// Every action keeps the invariant.
proof fn lemma_action<T>(c: PaxosCluster<T>, action: PaxosAction<T>)
    requires
        c.inv(),
        c.enabled(action),
    ensures
        c.after_action(action).inv(),
{
    match action {
        PaxosAction::Deliver { letter, .. } => match letter.msg {
            PaxosMsg::Prepare { .. } => lemma_prepare(c, action),
            PaxosMsg::Promise { .. } => lemma_promise(c, action),
            PaxosMsg::Accept { .. } => lemma_accept(c, action),
            PaxosMsg::Accepted { .. } => lemma_accepted(c, action),
            PaxosMsg::Decide { .. } => lemma_decide(c, action),
            PaxosMsg::NackPrepare { .. } => lemma_refusal(c, action),
            PaxosMsg::NackAccept { .. } => lemma_refusal(c, action),
        },
        PaxosAction::Propose { .. } => lemma_propose(c, action),
        PaxosAction::Retry { .. } => lemma_retry(c, action),
        PaxosAction::Rebroadcast { .. } => lemma_rebroadcast(c, action),
        PaxosAction::Save { .. } => lemma_save(c, action),
        PaxosAction::Collect { .. } => lemma_collect(c, action),
        PaxosAction::Restart { .. } => lemma_restart(c, action),
    }
}

impl<T> PaxosCluster<T> {
    /// The cluster after a list of actions.
    pub open spec fn run(self, actions: Seq<PaxosAction<T>>) -> PaxosCluster<T>
        decreases actions.len(),
    {
        if actions.len() == 0 {
            self
        } else {
            self.run(actions.drop_last()).after_action(actions.last())
        }
    }

    /// Whether a list of actions can happen.
    pub open spec fn possible(self, actions: Seq<PaxosAction<T>>) -> bool
        decreases actions.len(),
    {
        actions.len() > 0 ==> self.possible(actions.drop_last()) && self.run(
            actions.drop_last(),
        ).enabled(actions.last())
    }

    /// Whether a node has saved the decision on a slot. Only then is it
    /// delivered.
    pub open spec fn saved(self, n: NodeName, slot: u64, value: T) -> bool {
        &&& self.members.contains(n)
        &&& self.stored[n].decisions.contains_key(slot)
        &&& self.stored[n].decisions[slot] == value
    }

    /// What holds at all times, however many nodes there are.
    pub open spec fn all_kept(self) -> bool {
        forall|n: NodeName| #[trigger]
            self.members.contains(n) ==> kept(self.nodes[n], self.stored[n])
    }
}

proof fn lemma_run<T>(c: PaxosCluster<T>, actions: Seq<PaxosAction<T>>)
    requires
        c.init(),
        1 < c.members.len(),
        c.possible(actions),
    ensures
        c.run(actions).inv(),
    decreases actions.len(),
{
    if actions.len() == 0 {
        assert forall|n: NodeName| #[trigger] c.members.contains(n) implies c.node_ok(n) by {
            assert(c.nodes[n].dirty.len() == 0);
        }
    } else {
        lemma_run(c, actions.drop_last());
        lemma_action(c.run(actions.drop_last()), actions.last());
    }
}

proof fn lemma_run_kept<T>(c: PaxosCluster<T>, actions: Seq<PaxosAction<T>>)
    requires
        c.init(),
        c.possible(actions),
    ensures
        c.run(actions).all_kept(),
        c.run(actions).members == c.members,
    decreases actions.len(),
{
    if actions.len() == 0 {
    } else {
        lemma_run_kept(c, actions.drop_last());
        let b = c.run(actions.drop_last());
        let action = actions.last();
        lemma_kept(b, action);
        let d = b.after_action(action);
        assert forall|n: NodeName| #[trigger] d.members.contains(n) implies kept(
            d.nodes[n],
            d.stored[n],
        ) by {
            assert(b.members.contains(n));
        }
    }
}

/// Two values chosen for one slot are the same.
proof fn lemma_chosen_once<T>(c: PaxosCluster<T>, slot: u64, v: T, w: T)
    requires
        c.inv(),
        c.chosen(slot, v),
        c.chosen(slot, w),
    ensures
        v == w,
{
    let (a, q) = choose|a: Ballot, q: Set<NodeName>| #[trigger] c.chosen_by(slot, a, v, q);
    let (b, r) = choose|b: Ballot, r: Set<NodeName>| #[trigger] c.chosen_by(slot, b, w, r);
    ballot_order_is_total(a, b);
    if a == b {
        let p = quorums_meet(c.members, q, r);
        assert(c.vote_ok(slot, p, a, v));
        assert(c.vote_ok(slot, p, a, w));
        assert(c.ask_ok(slot, a, v));
    } else if ballot_less(a, b) {
        lemma_lower_wins(c, slot, a, v, q, b, w, r);
    } else {
        lemma_lower_wins(c, slot, b, w, r, a, v, q);
    }
}

/// A value chosen under a number is the one chosen under every higher number.
proof fn lemma_lower_wins<T>(
    c: PaxosCluster<T>,
    slot: u64,
    a: Ballot,
    v: T,
    q: Set<NodeName>,
    b: Ballot,
    w: T,
    r: Set<NodeName>,
)
    requires
        c.inv(),
        c.chosen_by(slot, a, v, q),
        c.chosen_by(slot, b, w, r),
        ballot_less(a, b),
    ensures
        v == w,
{
    let p = quorums_meet(c.members, q, r);
    assert(c.vote_ok(slot, p, b, w));
    assert(c.ask_ok(slot, b, w));
    assert(c.settled(slot, a, w));
    let t = choose|t: Set<NodeName>| #[trigger]
        is_quorum(c.members, t) && c.settled_by(t, slot, a, w);
    let m = quorums_meet(c.members, q, t);
    assert(c.vote(slot, m, a, v));
    assert(c.vote(slot, m, a, w));
    assert(c.vote_ok(slot, m, a, v));
    assert(c.vote_ok(slot, m, a, w));
    assert(c.ask_ok(slot, a, v));
}

impl<T> PaxosCluster<T> {
    /// What holds of a cluster of one node: it decides what it proposes at once,
    /// so that no slot is ever open.
    spec fn lone_ok(self, n: NodeName) -> bool {
        let s = self.nodes[n];
        &&& self.members == set![n]
        &&& kept(s, self.stored[n])
        &&& s.node_id == n
        &&& s.quorum == 1
        &&& forall|slot: u64| !#[trigger] s.instances.contains_key(slot)
        &&& forall|slot: u64| !#[trigger] self.stored[n].acceptors.contains_key(slot)
        &&& forall|l: Letter<T>| #[trigger] self.net.contains(l) ==> l.src == n
        &&& forall|slot: u64| #[trigger]
            s.decided.contains_key(slot) ==> self.chosen(slot, s.decided[slot])
        &&& forall|k: (NodeName, u64, T)| #[trigger]
            self.known.contains(k) ==> self.chosen(k.1, k.2)
    }

    /// Whether a decision on a slot is saved at its node before the node ends, all
    /// through a list of actions.
    pub open spec fn saves_first(self, actions: Seq<PaxosAction<T>>, slot: u64) -> bool
        decreases actions.len(),
    {
        actions.len() > 0 ==> {
            let before = self.run(actions.drop_last()).nodes[actor(actions.last())];
            &&& self.saves_first(actions.drop_last(), slot)
            &&& actions.last() is Restart ==> forall|k: int|
                0 <= k < before.pending_decisions.len() ==> (
                #[trigger] before.pending_decisions[k]).0 != slot
        }
    }
}

/// A node alone votes for what it proposes.
proof fn lemma_lone_propose<T>(c: PaxosCluster<T>, action: PaxosAction<T>, n: NodeName)
    requires
        c.lone_ok(n),
        c.enabled(action),
        action is Propose,
    ensures
        c.after_action(action).lone_ok(n),
{
    let before = c.nodes[n];
    let slot = before.next_slot;
    let value = action->value;
    let i = before.instance(slot).opened(n, value, action->Propose_now, action->Propose_jitter);
    let d = c.after_action(action);
    let (s, p, out) = c.outcome(action);
    let q = set![n];
    lemma_kept(c, action);
    assert(actor(action) == n);
    assert(Set::<NodeName>::empty().insert(n).len() == 1);
    assert(i.promises.len() == 1);
    assert(i.phase2_voted(n).accepts.len() == 1);
    let t = before.propose(value, action->Propose_now, action->Propose_jitter).0;
    assert(t.instances =~= before.instances.insert(slot, i.phase2_voted(n)).remove(slot));
    assert(forall|x: u64| !#[trigger] t.instances.contains_key(x));
    assert forall|k: int| 0 <= k < t.dirty.len() implies (#[trigger] t.dirty[k]) == slot by {}
    lemma_written(t, c.stored[n], slot);
    assert(before.opening(action) == Some((slot, i)));
    assert(d.vote(slot, n, i.number, value));
    assert(is_quorum(d.members, q));
    assert(d.chosen_by(slot, i.number, value, q));
    assert(d.chosen(slot, value));
    lemma_lone_grown(c, action, n);
}

/// What was chosen at a node alone stays chosen, and it hears nobody.
proof fn lemma_lone_grown<T>(c: PaxosCluster<T>, action: PaxosAction<T>, n: NodeName)
    requires
        c.lone_ok(n),
        c.enabled(action),
    ensures
        actor(action) == n,
        !(action is Deliver),
        forall|slot: u64, v: T| #[trigger]
            c.chosen(slot, v) ==> c.after_action(action).chosen(slot, v),
        forall|l: Letter<T>| #[trigger] c.after_action(action).net.contains(l) ==> l.src == n,
{
    let d = c.after_action(action);
    assert forall|slot: u64, v: T| #[trigger] c.chosen(slot, v) implies d.chosen(slot, v) by {
        let (a, q) = choose|a: Ballot, q: Set<NodeName>| #[trigger] c.chosen_by(slot, a, v, q);
        assert forall|m: NodeName| #[trigger] q.contains(m) implies d.vote(slot, m, a, v) by {
            assert(c.vote(slot, m, a, v));
        }
        assert(d.chosen_by(slot, a, v, q));
    }
}

/// Every action keeps a node alone as it should be.
proof fn lemma_lone_action<T>(c: PaxosCluster<T>, action: PaxosAction<T>, n: NodeName)
    requires
        c.lone_ok(n),
        c.enabled(action),
    ensures
        c.after_action(action).lone_ok(n),
{
    let before = c.nodes[n];
    let q = c.stored[n];
    let d = c.after_action(action);
    let (s, p, out) = c.outcome(action);
    lemma_lone_grown(c, action, n);
    lemma_kept(c, action);
    match action {
        PaxosAction::Propose { .. } => {
            lemma_lone_propose(c, action, n);
        },
        PaxosAction::Save { count, .. } => {
            lemma_saving_goes_on(before, q, count as int);
        },
        PaxosAction::Restart { after, .. } => {
            let total = c.members.len() as usize;
            let fresh = PaxosState::<T>::initial(n, total);
            let decided = fresh.decided.union_prefer_right(q.decisions);
            assert(c.members.len() == 1);
            assert forall|slot: u64| !#[trigger] after.instances.contains_key(slot) by {
                assert(open_slots(q, decided).contains(slot) ==> q.acceptors.contains_key(slot));
                if after.instances.contains_key(slot) {
                    assert(after.instances.dom().contains(slot));
                    assert(open_slots(q, decided).contains(slot));
                }
            }
            assert forall|slot: u64| #[trigger] after.decided.contains_key(slot) implies d.chosen(
                slot,
                after.decided[slot],
            ) by {
                crashes_forget_only_the_unsaved(before, q, total, after, slot);
                assert(c.chosen(slot, before.decided[slot]));
            }
        },
        PaxosAction::Retry { slot, .. } => {
            assert(!before.proposing(slot));
            lemma_written(before, q, slot);
        },
        _ => {},
    }
}

/// A node alone is as it should be all through a run.
proof fn lemma_lone_run<T>(c: PaxosCluster<T>, actions: Seq<PaxosAction<T>>, n: NodeName)
    requires
        c.init(),
        c.members == set![n],
        c.possible(actions),
    ensures
        c.run(actions).lone_ok(n),
    decreases actions.len(),
{
    if actions.len() == 0 {
        assert(c.members.contains(n));
        assert(c.members.len() == 1);
    } else {
        lemma_lone_run(c, actions.drop_last(), n);
        lemma_lone_action(c.run(actions.drop_last()), actions.last(), n);
    }
}

/// A decision that is saved before its node ends is never forgotten.
proof fn lemma_remembered<T>(c: PaxosCluster<T>, actions: Seq<PaxosAction<T>>, slot: u64)
    requires
        c.init(),
        c.possible(actions),
        c.saves_first(actions, slot),
    ensures
        forall|n: NodeName, v: T| #[trigger]
            c.run(actions).known.contains((n, slot, v)) ==> c.run(
                actions,
            ).nodes[n].decided.contains_key(slot) && c.run(actions).nodes[n].decided[slot] == v,
    decreases actions.len(),
{
    if actions.len() > 0 {
        let b = c.run(actions.drop_last());
        let action = actions.last();
        let n = actor(action);
        let before = b.nodes[n];
        let (s, p, out) = b.outcome(action);
        lemma_remembered(c, actions.drop_last(), slot);
        lemma_run_kept(c, actions.drop_last());
        if before.decided.contains_key(slot) {
            match action {
                PaxosAction::Deliver { letter, now, jitter, .. } => {
                    let event = PaxosEvent::Receive {
                        from: letter.src,
                        message: letter.msg,
                        now,
                        jitter,
                    };
                    decisions_are_final(before, event, slot);
                },
                PaxosAction::Propose { value, now, jitter, .. } => {
                    decisions_are_final(before, PaxosEvent::Propose { value, now, jitter }, slot);
                },
                PaxosAction::Retry { slot: other, now, jitter, .. } => {
                    let event = PaxosEvent::Retry { slot: other, now, jitter };
                    decisions_are_final(before, event, slot);
                },
                PaxosAction::Restart { after, .. } => {
                    lemma_names(c, actions.drop_last(), n);
                    crashes_forget_only_the_unsaved(
                        before,
                        b.stored[n],
                        c.members.len() as usize,
                        after,
                        slot,
                    );
                },
                _ => {},
            }
        }
    }
}

/// Nodes keep their names.
proof fn lemma_names<T>(c: PaxosCluster<T>, actions: Seq<PaxosAction<T>>, n: NodeName)
    requires
        c.init(),
        c.possible(actions),
        c.members.contains(n),
    ensures
        c.run(actions).nodes[n].node_id == n,
    decreases actions.len(),
{
    if actions.len() > 0 {
        let b = c.run(actions.drop_last());
        let action = actions.last();
        let before = b.nodes[actor(action)];
        lemma_names(c, actions.drop_last(), n);
        lemma_run_kept(c, actions.drop_last());
        match action {
            PaxosAction::Deliver { letter, now, jitter, .. } => {
                every_event_moves_one_slot(
                    before,
                    PaxosEvent::Receive { from: letter.src, message: letter.msg, now, jitter },
                );
            },
            PaxosAction::Propose { value, now, jitter, .. } => {
                every_event_moves_one_slot(before, PaxosEvent::Propose { value, now, jitter });
            },
            PaxosAction::Retry { slot, now, jitter, .. } => {
                every_event_moves_one_slot(before, PaxosEvent::Retry { slot, now, jitter });
            },
            _ => {},
        }
    }
}

/// Agreement: in every cluster that started fresh, whatever decision on a slot any
/// node ever knew, no node ever knows another one. That holds whatever messages
/// the network lost, repeated, delayed or reordered, and whichever nodes ended and
/// started again, with the decision saved or not.
///
/// Only a node alone can decide a slot anew, if it ends before it saved: there is
/// no other node that could remember. What it saved it keeps all the same, as
/// [`saved_decisions_are_final`] says.
pub proof fn agreement<T>(
    c: PaxosCluster<T>,
    actions: Seq<PaxosAction<T>>,
    slot: u64,
    n: NodeName,
    v: T,
    m: NodeName,
    w: T,
)
    requires
        c.init(),
        c.possible(actions),
        c.run(actions).known.contains((n, slot, v)),
        c.run(actions).known.contains((m, slot, w)),
        1 < c.members.len() || c.saves_first(actions, slot),
    ensures
        v == w,
{
    let d = c.run(actions);
    if 1 < c.members.len() {
        lemma_run(c, actions);
        assert(d.chosen(slot, v));
        assert(d.chosen(slot, w));
        lemma_chosen_once(d, slot, v, w);
    } else {
        lemma_known_members(c, actions);
        lemma_only_member(c.members, n);
        lemma_remembered(c, actions, slot);
    }
}

/// A set of one has one member.
proof fn lemma_only_member(members: Set<NodeName>, n: NodeName)
    requires
        members.finite(),
        members.len() <= 1,
        members.contains(n),
    ensures
        members == set![n],
{
    assert forall|x: NodeName| members.contains(x) implies x == n by {
        if x != n {
            vstd::set_lib::lemma_len_subset(set![x, n], members);
            assert(set![x, n].len() == 2);
        }
    }
    assert(members =~= set![n]);
}

/// Only members know decisions.
proof fn lemma_known_members<T>(c: PaxosCluster<T>, actions: Seq<PaxosAction<T>>)
    requires
        c.init(),
        c.possible(actions),
    ensures
        forall|k: (NodeName, u64, T)| #[trigger]
            c.run(actions).known.contains(k) ==> c.members.contains(k.0),
    decreases actions.len(),
{
    if actions.len() > 0 {
        lemma_known_members(c, actions.drop_last());
        lemma_run_kept(c, actions.drop_last());
    }
}

/// Validity of decisions: what a node ever knew to be decided, a majority of the
/// acceptors accepted under one number.
pub proof fn decisions_are_chosen<T>(
    c: PaxosCluster<T>,
    actions: Seq<PaxosAction<T>>,
    slot: u64,
    n: NodeName,
    v: T,
)
    requires
        c.init(),
        c.possible(actions),
        c.run(actions).known.contains((n, slot, v)),
    ensures
        c.run(actions).chosen(slot, v),
{
    if 1 < c.members.len() {
        lemma_run(c, actions);
    } else {
        lemma_known_members(c, actions);
        lemma_only_member(c.members, n);
        lemma_lone_run(c, actions, n);
    }
}

/// Agreement on what is delivered: in every cluster that started fresh, of
/// however many nodes, any two nodes that saved the decision on a slot saved the
/// same one.
pub proof fn saved_decisions_agree<T>(
    c: PaxosCluster<T>,
    actions: Seq<PaxosAction<T>>,
    slot: u64,
    n: NodeName,
    v: T,
    m: NodeName,
    w: T,
)
    requires
        c.init(),
        c.possible(actions),
        c.run(actions).saved(n, slot, v),
        c.run(actions).saved(m, slot, w),
    ensures
        v == w,
{
    if n != m {
        let d = c.run(actions);
        lemma_run_kept(c, actions);
        assert(set![n, m].subset_of(c.members));
        vstd::set_lib::lemma_len_subset(set![n, m], c.members);
        assert(set![n, m].len() == 2);
        lemma_run(c, actions);
        assert(d.node_ok(n));
        assert(d.node_ok(m));
        assert(d.nodes[n].decided.contains_key(slot));
        assert(d.nodes[m].decided.contains_key(slot));
        lemma_chosen_once(d, slot, v, w);
    }
}

/// A saved decision is final: whatever happens, the node that saved it has it
/// saved, with that value.
pub proof fn saved_decisions_are_final<T>(
    c: PaxosCluster<T>,
    actions: Seq<PaxosAction<T>>,
    action: PaxosAction<T>,
    n: NodeName,
    slot: u64,
    v: T,
)
    requires
        c.init(),
        c.possible(actions),
        c.run(actions).enabled(action),
        c.run(actions).saved(n, slot, v),
    ensures
        c.run(actions).after_action(action).saved(n, slot, v),
{
    let b = c.run(actions);
    lemma_run_kept(c, actions);
    if n == actor(action) && action is Save {
        lemma_saving_goes_on(b.nodes[n], b.stored[n], action->count as int);
    }
}

/// In a cluster of more than one node a proposal never meets a promise or an
/// acceptance that was counted before: it takes a slot of its own, and the one
/// message that it sends asks for promises in round 1.
pub proof fn proposals_ask_for_promises<T>(
    c: PaxosCluster<T>,
    actions: Seq<PaxosAction<T>>,
    n: NodeName,
    value: T,
    now: u64,
    jitter: u64,
)
    requires
        c.init(),
        1 < c.members.len(),
        c.possible(actions),
        c.members.contains(n),
        c.run(actions).nodes[n].next_slot < u64::MAX,
    ensures
        ({
            let s = c.run(actions).nodes[n];
            let (t, out) = s.propose(value, now, jitter);
            &&& !s.decided.contains_key(s.next_slot)
            &&& t.next_slot == s.next_slot + 1
            &&& t.decided == s.decided
            &&& t.pending_decisions == s.pending_decisions
            &&& out == tell_all(
                PaxosMsg::<T>::Prepare { slot: s.next_slot, proposal_number: (1u64, n) },
            )
        }),
{
    let d = c.run(actions);
    let s = d.nodes[n];
    lemma_run_kept(c, actions);
    lemma_run(c, actions);
    assert(d.node_ok(n));
    assert(!s.decided.contains_key(s.next_slot)) by {
        if s.decided.contains_key(s.next_slot) {
        }
    }
    lemma_memory(d, n, s.next_slot);
    assert(blank(s.instance(s.next_slot)));
    proposals_open_the_next_slot(s, value, now, jitter);
}

} // verus!
