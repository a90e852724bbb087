//! What Multi-Paxos is for: what acceptors answer, what a quorum of answers leads
//! to, and how a proposal that is refused or stuck is tried again.
use crate::config::NodeName;
use crate::message::{
    ballot_le, ballot_less, ballot_order_is_total, ballot_order_is_transitive, Ballot, Packet,
    PaxosMsg, Target,
};
use crate::paxos_laws::proposals_open_the_next_slot;
use crate::paxos_model::{backoff, decide_broadcasts, still_recent, Instance, PaxosState};
use vstd::prelude::*;

verus! {

/// What the acceptor of a node has promised in a slot.
pub open spec fn word<T>(s: PaxosState<T>, slot: u64) -> Option<Ballot> {
    if s.instances.contains_key(slot) {
        s.instances[slot].promised
    } else {
        None
    }
}

/// What the acceptor of a node has accepted in a slot.
pub open spec fn vote<T>(s: PaxosState<T>, slot: u64) -> Option<(Ballot, T)> {
    if s.instances.contains_key(slot) {
        s.instances[slot].accepted
    } else {
        None
    }
}

/// Whether a node is as it was but for one slot that is still open.
pub open spec fn same_elsewhere<T>(s: PaxosState<T>, t: PaxosState<T>, slot: u64) -> bool {
    &&& t.node_id == s.node_id && t.quorum == s.quorum
    &&& t.decided == s.decided
    &&& t.pending_decisions == s.pending_decisions
    &&& t.recent == s.recent
    &&& t.lost == s.lost
    &&& t.instances.contains_key(slot)
    &&& forall|x: u64|
        x != slot ==> (#[trigger] t.instances.contains_key(x)) == s.instances.contains_key(x) && (
        s.instances.contains_key(x) ==> t.instances[x] == s.instances[x])
}

/// Whether a list of messages is this one, to this node.
pub open spec fn tells<T>(
    out: Seq<Packet<PaxosMsg<T>>>,
    target: Target,
    message: PaxosMsg<T>,
) -> bool {
    out.len() == 1 && out[0].target == target && out[0].message == message
}

/// What a prepare request gets: the decision where there is one; else a promise,
/// with what the acceptor accepted, exactly if no number as high was promised;
/// else the higher number.
pub proof fn prepares_are_promised_when_higher<T>(
    s: PaxosState<T>,
    from: NodeName,
    slot: u64,
    number: Ballot,
    now: u64,
    jitter: u64,
)
    ensures
        ({
            let (t, out) = s.receive(
                from,
                PaxosMsg::Prepare { slot, proposal_number: number },
                now,
                jitter,
            );
            let higher = match word(s, slot) {
                Some(p) => p.0 < number.0 || (p.0 == number.0 && p.1.less(number.1)),
                None => true,
            };
            &&& s.decided.contains_key(slot) ==> t == s && tells(
                out,
                Target::Peer(from),
                PaxosMsg::Decide { slot, value: s.decided[slot] },
            )
            &&& !s.decided.contains_key(slot) && higher ==> {
                &&& tells(
                    out,
                    Target::Peer(from),
                    PaxosMsg::Promise { slot, proposal_number: number, accepted: vote(s, slot) },
                )
                &&& same_elsewhere(s, t, slot)
                &&& t.next_slot == s.next_slot
                &&& word(t, slot) == Some(number)
                &&& vote(t, slot) == vote(s, slot)
                &&& t.dirty.contains(slot)
            }
            &&& !s.decided.contains_key(slot) && !higher ==> t == s && tells(
                out,
                Target::Peer(from),
                PaxosMsg::NackPrepare {
                    slot,
                    proposal_number: number,
                    highest_promised: word(s, slot)->0,
                },
            )
        }),
{
    assert(s.dirty.push(slot)[s.dirty.len() as int] == slot);
}

/// What an accept request gets: the decision where there is one; else it is
/// accepted exactly if no higher number was promised; else the higher number.
pub proof fn accepts_are_taken_unless_higher_promised<T>(
    s: PaxosState<T>,
    from: NodeName,
    slot: u64,
    number: Ballot,
    value: T,
    now: u64,
    jitter: u64,
)
    ensures
        ({
            let (t, out) = s.receive(
                from,
                PaxosMsg::Accept { slot, proposal_number: number, value },
                now,
                jitter,
            );
            let taken = match word(s, slot) {
                Some(p) => p.0 < number.0 || (p.0 == number.0 && !number.1.less(p.1)),
                None => true,
            };
            &&& s.decided.contains_key(slot) ==> t == s && tells(
                out,
                Target::Peer(from),
                PaxosMsg::Decide { slot, value: s.decided[slot] },
            )
            &&& !s.decided.contains_key(slot) && taken ==> {
                &&& tells(
                    out,
                    Target::Peer(from),
                    PaxosMsg::Accepted { slot, proposal_number: number, value },
                )
                &&& same_elsewhere(s, t, slot)
                &&& t.next_slot == s.next_slot
                &&& word(t, slot) == Some(number)
                &&& vote(t, slot) == Some((number, value))
                &&& t.dirty.contains(slot)
            }
            &&& !s.decided.contains_key(slot) && !taken ==> t == s && tells(
                out,
                Target::Peer(from),
                PaxosMsg::NackAccept {
                    slot,
                    proposal_number: number,
                    highest_promised: word(s, slot)->0,
                },
            )
        }),
{
    assert(s.dirty.push(slot)[s.dirty.len() as int] == slot);
}

/// An acceptor that promised a number, and no higher one since, accepts under it;
/// and it promises no number twice.
pub proof fn a_promise_is_honoured<T>(
    s: PaxosState<T>,
    from: NodeName,
    slot: u64,
    number: Ballot,
    value: T,
    now: u64,
    jitter: u64,
)
    requires
        !s.decided.contains_key(slot),
        s.receive(
            from,
            PaxosMsg::Prepare { slot, proposal_number: number },
            now,
            jitter,
        ).1[0].message is Promise,
    ensures
        ({
            let t = s.receive(
                from,
                PaxosMsg::Prepare { slot, proposal_number: number },
                now,
                jitter,
            ).0;
            &&& tells(
                t.receive(
                    from,
                    PaxosMsg::Accept { slot, proposal_number: number, value },
                    now,
                    jitter,
                ).1,
                Target::Peer(from),
                PaxosMsg::Accepted { slot, proposal_number: number, value },
            )
            &&& !(t.receive(
                from,
                PaxosMsg::Prepare { slot, proposal_number: number },
                now,
                jitter,
            ).1[0].message is Promise)
        }),
{
    ballot_order_is_total(number, number);
}

/// Whether an answer is about the round that a node has open in a slot.
pub open spec fn in_round<T>(s: PaxosState<T>, slot: u64, number: Ballot) -> bool {
    &&& !s.decided.contains_key(slot)
    &&& s.instances.contains_key(slot)
    &&& s.instances[slot].number == number
    &&& !s.instances[slot].decided
}

/// What a round asks for once it has its promises: what it asked for before; else
/// the accepted value with the highest number that was reported; else its own.
pub open spec fn wanted<T>(i: Instance<T>, reported: Option<(Ballot, T)>) -> T {
    if i.asked is Some {
        i.asked->0
    } else if i.highest_accepted is Some && (reported is None || !ballot_less(
        (i.highest_accepted->0).0,
        (reported->0).0,
    )) {
        (i.highest_accepted->0).1
    } else if reported is Some {
        (reported->0).1
    } else {
        i.proposed->0
    }
}

/// Promises count once for each node: as long as a quorum is not there, nothing is
/// said; as soon as it is, every node is asked to accept the value of the round,
/// under its number. Answers to other rounds change nothing.
pub proof fn a_quorum_of_promises_opens_phase_2<T>(
    s: PaxosState<T>,
    from: NodeName,
    slot: u64,
    number: Ballot,
    reported: Option<(Ballot, T)>,
    now: u64,
    jitter: u64,
)
    requires
        s.instances.contains_key(slot) ==> s.instances[slot].promises.finite()
            && s.instances[slot].accepts.finite(),
    ensures
        ({
            let (t, out) = s.receive(
                from,
                PaxosMsg::Promise { slot, proposal_number: number, accepted: reported },
                now,
                jitter,
            );
            let i = s.instances[slot];
            let promises = i.promises.insert(from);
            let value = wanted(i, reported);
            let own = word(s, slot) is None || !ballot_less(number, word(s, slot)->0);
            let accepts = if own {
                i.accepts.insert(s.node_id)
            } else {
                i.accepts
            };
            &&& !in_round(s, slot, number) ==> t == s && out.len() == 0
            &&& in_round(s, slot, number) && promises.len() < s.quorum ==> {
                &&& out.len() == 0
                &&& same_elsewhere(s, t, slot)
                &&& t.instances[slot].promises == promises
                &&& t.instances[slot].proposed == i.proposed
                &&& t.instances[slot].number == number
            }
            &&& in_round(s, slot, number) && promises.len() >= s.quorum && accepts.len()
                < s.quorum ==> {
                &&& tells(
                    out,
                    Target::Broadcast,
                    PaxosMsg::Accept { slot, proposal_number: number, value },
                )
                &&& same_elsewhere(s, t, slot)
                &&& t.instances[slot].asked == Some(value)
                &&& t.instances[slot].accepts == accepts
                &&& t.instances[slot].number == number
                &&& t.instances[slot].next_retry_at == i.next_retry_at
                &&& t.instances[slot].is_proposer == i.is_proposer
                &&& own ==> vote(t, slot) == Some((number, value))
            }
            &&& in_round(s, slot, number) && promises.len() >= s.quorum && accepts.len()
                >= s.quorum ==> tells(out, Target::Broadcast, PaxosMsg::Decide { slot, value })
                && t.decided == s.decided.insert(slot, value)
        }),
{
}

/// Acceptances count once for each node: as soon as a quorum is there, the slot is
/// decided with the value that was asked for, every node is told, and it waits for
/// delivery; before that nothing is said.
pub proof fn a_quorum_of_acceptances_decides<T>(
    s: PaxosState<T>,
    from: NodeName,
    slot: u64,
    number: Ballot,
    reported: T,
    now: u64,
    jitter: u64,
)
    requires
        s.instances.contains_key(slot) ==> s.instances[slot].accepts.finite(),
    ensures
        ({
            let (t, out) = s.receive(
                from,
                PaxosMsg::Accepted { slot, proposal_number: number, value: reported },
                now,
                jitter,
            );
            let i = s.instances[slot];
            let accepts = i.accepts.insert(from);
            &&& !in_round(s, slot, number) ==> t == s && out.len() == 0
            &&& in_round(s, slot, number) && (accepts.len() < s.quorum || i.asked is None) ==> {
                &&& out.len() == 0
                &&& same_elsewhere(s, t, slot)
                &&& t.instances[slot] == (Instance { accepts, ..i })
            }
            &&& in_round(s, slot, number) && accepts.len() >= s.quorum ==> (
            i.asked matches Some(v) ==> {
                &&& tells(out, Target::Broadcast, PaxosMsg::Decide { slot, value: v })
                &&& is_decided(s, t, slot, v, now)
            })
        }),
{
}

/// Whether a slot was decided in a step: the value is recorded and waits for
/// delivery behind the others, the slot is open no more, and an own proposal for
/// another value is handed back.
pub open spec fn is_decided<T>(
    s: PaxosState<T>,
    t: PaxosState<T>,
    slot: u64,
    value: T,
    now: u64,
) -> bool {
    &&& t.decided == s.decided.insert(slot, value)
    &&& t.pending_decisions == s.pending_decisions.push((slot, value))
    &&& t.recent == s.recent.push((now, slot, value))
    &&& !t.instances.contains_key(slot)
    &&& slot < u64::MAX ==> t.next_slot == (if slot + 1 > s.next_slot {
        (slot + 1) as u64
    } else {
        s.next_slot
    })
    &&& forall|x: u64|
        x != slot ==> (#[trigger] t.instances.contains_key(x)) == s.instances.contains_key(x) && (
        s.instances.contains_key(x) ==> t.instances[x] == s.instances[x])
    &&& if s.instances.contains_key(slot) && s.instances[slot].is_proposer
        && s.instances[slot].proposed is Some && s.instances[slot].proposed->0 != value {
        t.lost == s.lost.push(s.instances[slot].proposed->0)
    } else {
        t.lost == s.lost
    }
}

/// A decision that is heard of is taken over, unless the slot has one.
pub proof fn decisions_are_learned<T>(
    s: PaxosState<T>,
    from: NodeName,
    slot: u64,
    value: T,
    now: u64,
    jitter: u64,
)
    ensures
        ({
            let (t, out) = s.receive(from, PaxosMsg::Decide { slot, value }, now, jitter);
            &&& out.len() == 0
            &&& s.decided.contains_key(slot) ==> t == s
            &&& !s.decided.contains_key(slot) ==> is_decided(s, t, slot, value, now)
        }),
{
}

/// The pause before a proposal is tried again starts with 100 ms, doubles with
/// each of the first three retries, and stays there.
pub proof fn pauses_double(retries: u32)
    ensures
        backoff(0) == 100,
        retries < 3 ==> backoff((retries + 1) as u32) == 2 * backoff(retries),
        retries >= 3 ==> backoff(retries) == backoff(3),
        100 <= backoff(retries) <= 800,
{
}

/// Answers count only in the round that asked for them: a promise or an acceptance
/// for a slot that is decided, that the node has not heard of or that is in another
/// round changes nothing and is not answered.
pub proof fn stray_answers_change_nothing<T>(
    s: PaxosState<T>,
    from: NodeName,
    slot: u64,
    number: Ballot,
    reported: Option<(Ballot, T)>,
    value: T,
    now: u64,
    jitter: u64,
)
    requires
        s.decided.contains_key(slot) || !s.instances.contains_key(slot)
            || s.instances[slot].number != number,
    ensures
        s.receive(
            from,
            PaxosMsg::Promise { slot, proposal_number: number, accepted: reported },
            now,
            jitter,
        ) == (s, Seq::<Packet<PaxosMsg<T>>>::empty()),
        s.receive(
            from,
            PaxosMsg::Accepted { slot, proposal_number: number, value },
            now,
            jitter,
        ) == (s, Seq::<Packet<PaxosMsg<T>>>::empty()),
{
}

/// A refusal is remembered: the proposal waits for its pause, counted from now,
/// and knows of the highest round that it was refused with.
pub proof fn refusals_put_off<T>(
    s: PaxosState<T>,
    from: NodeName,
    message: PaxosMsg<T>,
    slot: u64,
    number: Ballot,
    higher: Ballot,
    now: u64,
    jitter: u64,
)
    requires
        message == (PaxosMsg::<T>::NackPrepare {
            slot,
            proposal_number: number,
            highest_promised: higher,
        }) || message == (PaxosMsg::<T>::NackAccept {
            slot,
            proposal_number: number,
            highest_promised: higher,
        }),
        jitter <= u32::MAX,
    ensures
        ({
            let (t, out) = s.receive(from, message, now, jitter);
            let i = s.instances[slot];
            let j = t.instances[slot];
            &&& out.len() == 0
            &&& !s.instances.contains_key(slot) ==> t == s
            &&& s.instances.contains_key(slot) ==> {
                &&& same_elsewhere(s, t, slot)
                &&& j.nacked
                &&& j.highest_nack is Some
                &&& j.highest_nack->0 >= higher.0
                &&& i.highest_nack is Some ==> j.highest_nack->0 >= i.highest_nack->0
                &&& j.highest_nack->0 == higher.0 || j.highest_nack == i.highest_nack
                &&& now + backoff(i.retry_count) + jitter <= u64::MAX ==> j.next_retry_at == Some(
                    (now + backoff(i.retry_count) + jitter) as u64,
                )
                &&& j.promised == i.promised && j.accepted == i.accepted
                &&& j.number == i.number && j.proposed == i.proposed && j.asked == i.asked
                &&& j.promises == i.promises && j.accepts == i.accepts
                &&& j.is_proposer == i.is_proposer && j.decided == i.decided
                &&& j.retry_count == i.retry_count
            }
        }),
{
}

/// A proposal that is tried again asks every node for promises, under a number of
/// the node's own that is higher than any it promised, was refused with or used in
/// the slot; it keeps its value, and counts anew.
pub proof fn retries_ask_again_with_a_higher_number<T>(
    s: PaxosState<T>,
    slot: u64,
    now: u64,
    jitter: u64,
)
    requires
        s.instances.contains_key(slot),
        s.instances[slot].is_proposer,
        !s.instances[slot].decided,
        s.can_retry(slot),
        s.quorum > 1,
        jitter <= u32::MAX,
    ensures
        ({
            let (t, out) = s.retry(slot, now, jitter);
            let i = s.instances[slot];
            let j = t.instances[slot];
            &&& tells(
                out,
                Target::Broadcast,
                PaxosMsg::Prepare { slot, proposal_number: j.number },
            )
            &&& same_elsewhere(s, t, slot)
            &&& t.next_slot == s.next_slot
            &&& j.number.1 == s.node_id
            &&& j.number.0 > i.number.0
            &&& i.promised matches Some(p) ==> j.number.0 > p.0
            &&& i.highest_nack matches Some(r) ==> j.number.0 > r
            &&& j.promised == Some(j.number)
            &&& j.accepted == i.accepted
            &&& j.proposed == i.proposed
            &&& j.is_proposer && !j.decided
            &&& j.asked is None
            &&& j.promises == set![s.node_id]
            &&& j.accepts == Set::<NodeName>::empty()
            &&& j.highest_accepted == i.accepted
            &&& !j.nacked
            &&& j.retry_count == i.retry_count + 1
            &&& now + backoff(j.retry_count) + jitter <= u64::MAX ==> j.next_retry_at == Some(
                (now + backoff(j.retry_count) + jitter) as u64,
            )
            &&& t.dirty.contains(slot)
        }),
{
    assert(set![s.node_id].len() == 1);
    assert(s.dirty.push(slot)[s.dirty.len() as int] == slot);
}

/// A proposer is an acceptor too: where its own word allows it, it promises the first
/// number to itself, and what it had accepted counts as reported. It asks every node
/// for a promise.
pub proof fn proposers_promise_to_themselves<T>(
    s: PaxosState<T>,
    value: T,
    now: u64,
    jitter: u64,
)
    requires
        s.next_slot < u64::MAX,
        s.instance(s.next_slot).promises.finite(),
        s.instance(s.next_slot).promises.insert(s.node_id).len() < s.quorum,
    ensures
        ({
            let slot = s.next_slot;
            let (t, out) = s.propose(value, now, jitter);
            let i = s.instance(slot);
            let j = t.instances[slot];
            let free = match word(s, slot) {
                Some(p) => p.0 == 0 || (p.0 == 1 && !s.node_id.less(p.1)),
                None => true,
            };
            &&& t.instances.contains_key(slot)
            &&& j.number == (1u64, s.node_id)
            &&& j.proposed == Some(value) && j.is_proposer
            &&& j.accepted == i.accepted
            &&& free ==> j.promised == Some(j.number) && j.promises == i.promises.insert(s.node_id)
                && (i.highest_accepted is None ==> j.highest_accepted == i.accepted)
            &&& !free ==> j.promised == i.promised && j.promises == i.promises
                && j.highest_accepted == i.highest_accepted
            &&& tells(
                out,
                Target::Broadcast,
                PaxosMsg::Prepare { slot, proposal_number: (1u64, s.node_id) },
            )
            &&& t.next_slot == slot + 1
        }),
{
    let i = s.instance(s.next_slot);
    assert(i.promises.len() <= i.promises.insert(s.node_id).len());
}

/// A node that is a quorum by itself decides at once: what it proposes, and, where it
/// tries again, what it has accepted in the slot, or else its own value.
pub proof fn a_node_alone_decides_at_once<T>(
    s: PaxosState<T>,
    value: T,
    slot: u64,
    now: u64,
    jitter: u64,
)
    requires
        s.quorum <= 1,
        s.next_slot < u64::MAX,
        !s.instances.contains_key(s.next_slot),
        s.instances.contains_key(slot),
        s.instances[slot].is_proposer,
        !s.instances[slot].decided,
        s.instances[slot].proposed is Some,
        s.can_retry(slot),
    ensures
        ({
            let (t, out) = s.propose(value, now, jitter);
            &&& t.decided == s.decided.insert(s.next_slot, value)
            &&& t.pending_decisions == s.pending_decisions.push((s.next_slot, value))
            &&& !t.instances.contains_key(s.next_slot)
            &&& tells(out, Target::Broadcast, PaxosMsg::Decide { slot: s.next_slot, value })
        }),
        ({
            let (t, out) = s.retry(slot, now, jitter);
            let decided = match s.instances[slot].accepted {
                Some(a) => a.1,
                None => s.instances[slot].proposed->0,
            };
            &&& t.decided == s.decided.insert(slot, decided)
            &&& t.pending_decisions == s.pending_decisions.push((slot, decided))
            &&& !t.instances.contains_key(slot)
            &&& tells(out, Target::Broadcast, PaxosMsg::Decide { slot, value: decided })
        }),
{
    let first = s.instance(s.next_slot).opened(s.node_id, value, now, jitter);
    assert(first.promises.contains(s.node_id));
    assert(first.promises.len() == 1);
    ballot_order_is_total(first.number, first.number);
    assert(first.accepts.insert(s.node_id).len() == 1);
    let again = s.instances[slot].reopened(s.node_id, now, jitter);
    assert(again.promises.len() == 1);
    ballot_order_is_total(again.number, again.number);
    assert(again.accepts.insert(s.node_id).len() == 1);
}

/// A node that was never started before knows nothing, and takes more than half of
/// the nodes for a quorum.
pub proof fn fresh_nodes_know_nothing<T>(node: NodeName, total: usize)
    ensures
        ({
            let s = PaxosState::<T>::initial(node, total);
            &&& s.node_id == node && s.next_slot == 0
            &&& 2 * s.quorum > total && 2 * (s.quorum - 1) <= total
            &&& forall|slot: u64|
                !(#[trigger] s.instances.contains_key(slot)) && !s.decided.contains_key(slot)
            &&& s.pending_decisions.len() == 0 && s.lost.len() == 0 && s.recent.len() == 0
                && s.dirty.len() == 0
        }),
{
}

/// Which proposals are due for another round: exactly the node's own open ones
/// whose time has come and that were refused, have some acceptances but no quorum
/// of them, or have none and no quorum of promises.
pub proof fn stuck_proposals_are_due<T>(s: PaxosState<T>, slot: u64, now: u64)
    requires
        s.instances.contains_key(slot) ==> s.instances[slot].accepts.finite(),
    ensures
        s.is_due(slot, now) <==> {
            let i = s.instances[slot];
            &&& s.instances.contains_key(slot)
            &&& i.is_proposer
            &&& !i.decided
            &&& i.next_retry_at is Some
            &&& i.next_retry_at->0 <= now
            &&& {
                ||| i.nacked
                ||| 1 <= i.accepts.len() < s.quorum
                ||| i.accepts == Set::<NodeName>::empty() && i.promises.len() < s.quorum
            }
        },
{
    if s.instances.contains_key(slot) {
        let i = s.instances[slot];
        if i.accepts.len() == 0 {
            assert(i.accepts =~= Set::<NodeName>::empty());
        }
    }
}

/// A proposal that hears nothing is due once its pause of 100 ms and its jitter
/// are over, and not before.
pub proof fn unanswered_proposals_are_due<T>(
    s: PaxosState<T>,
    value: T,
    now: u64,
    jitter: u64,
    later: u64,
)
    requires
        s.tidy(),
        s.next_slot < u64::MAX,
        s.quorum > 1,
        s.instance(s.next_slot).promises == Set::<NodeName>::empty(),
        s.instance(s.next_slot).accepts == Set::<NodeName>::empty(),
        !s.instance(s.next_slot).decided,
        now + 100 + jitter <= u64::MAX,
    ensures
        ({
            let t = s.propose(value, now, jitter).0;
            &&& t.instances.contains_key(s.next_slot)
            &&& t.instances[s.next_slot].proposed == Some(value)
            &&& t.instances[s.next_slot].number == (1u64, s.node_id)
            &&& t.is_due(s.next_slot, later) <==> later >= now + 100 + jitter
        }),
{
    let t = s.propose(value, now, jitter).0;
    proposals_open_the_next_slot(s, value, now, jitter);
    let i = s.instance(s.next_slot);
    assert(i.promises.insert(s.node_id).len() == 1);
    assert(i.opened(s.node_id, value, now, jitter).promises.len() <= 1);
}

/// A proposal whose accept requests are lost is due again: once it is in phase 2
/// with less than a quorum of acceptances, and its time has come, it is tried in
/// another round.
pub proof fn a_stuck_phase_2_is_due<T>(
    s: PaxosState<T>,
    from: NodeName,
    slot: u64,
    number: Ballot,
    reported: Option<(Ballot, T)>,
    now: u64,
    jitter: u64,
    later: u64,
)
    requires
        in_round(s, slot, number),
        s.instances[slot].is_proposer,
        s.instances[slot].next_retry_at is Some,
        s.instances[slot].next_retry_at->0 <= later,
        s.instances[slot].promises.finite(),
        s.instances[slot].accepts.finite(),
        s.instances[slot].promises.insert(from).len() >= s.quorum,
        s.instances[slot].accepts.insert(s.node_id).len() < s.quorum,
        s.instances[slot].accepts.contains(s.node_id) || word(s, slot) is None || !ballot_less(
            number,
            word(s, slot)->0,
        ),
    ensures
        s.receive(
            from,
            PaxosMsg::Promise { slot, proposal_number: number, accepted: reported },
            now,
            jitter,
        ).0.is_due(slot, later),
{
    let t = s.receive(
        from,
        PaxosMsg::Promise { slot, proposal_number: number, accepted: reported },
        now,
        jitter,
    ).0;
    a_quorum_of_promises_opens_phase_2(s, from, slot, number, reported, now, jitter);
    stuck_proposals_are_due(t, slot, later);
    assert(t.instances[slot].accepts.contains(s.node_id));
    assert(s.instances[slot].accepts.insert(s.node_id) == t.instances[slot].accepts
        || s.instances[slot].accepts =~= s.instances[slot].accepts.insert(s.node_id));
    if t.instances[slot].accepts.len() == 0 {
        assert(t.instances[slot].accepts =~= Set::<NodeName>::empty());
    }
}

/// Whether a decision is recent enough to be sent again: it is not older than five
/// seconds.
pub open spec fn fresh_enough<T>(made: (u64, u64, T), now: u64) -> bool {
    now < made.0 + 5000
}

/// Decisions are sent again as long as they are recent, in the order in which they
/// were made; older ones are let go.
pub proof fn recent_decisions_are_sent_again<T>(recent: Seq<(u64, u64, T)>, now: u64)
    ensures
        still_recent(recent, now) == recent.filter(
            |made: (u64, u64, T)| fresh_enough(made, now),
        ),
        ({
            let kept = still_recent(recent, now);
            let out = decide_broadcasts(kept);
            &&& out.len() == kept.len()
            &&& forall|i: int|
                0 <= i < kept.len() ==> (#[trigger] out[i]).target == Target::Broadcast
                    && out[i].message == (PaxosMsg::Decide { slot: kept[i].1, value: kept[i].2 })
        }),
    decreases recent.len(),
{
    let keeps = |made: (u64, u64, T)| fresh_enough(made, now);
    reveal(Seq::filter);
    if recent.len() > 0 {
        recent_decisions_are_sent_again(recent.drop_last(), now);
    }
}

/// A tick tries every proposal again that is due, each once and with a higher
/// number, sends the recent decisions again, and leaves the other slots alone.
pub proof fn ticks_retry_what_is_due<T>(
    s: PaxosState<T>,
    plan: Seq<(u64, u64)>,
    now: u64,
    slot: u64,
)
    requires
        s.plans(plan, now),
        s.can_tick(now),
        s.quorum > 1,
    ensures
        ({
            let (t, out) = s.ticked(plan, now);
            let i = s.instances[slot];
            let j = t.instances[slot];
            &&& t.instances.contains_key(slot) == s.instances.contains_key(slot)
            &&& t.decided == s.decided
            &&& t.recent == s.recent.filter(|made: (u64, u64, T)| fresh_enough(made, now))
            &&& s.instances.contains_key(slot) && !s.is_due(slot, now) ==> j == i
            &&& s.is_due(slot, now) ==> {
                &&& j.number.0 > i.number.0
                &&& j.number.1 == s.node_id
                &&& j.proposed == i.proposed
                &&& j.retry_count == i.retry_count + 1
                &&& now + 1200 <= u64::MAX ==> j.next_retry_at is Some && now + backoff(
                    j.retry_count,
                ) <= j.next_retry_at->0 && 2 * (j.next_retry_at->0 - now) <= 3 * backoff(
                    j.retry_count,
                )
                &&& out.contains(
                    Packet {
                        target: Target::Broadcast,
                        message: PaxosMsg::Prepare { slot, proposal_number: j.number },
                    },
                )
            }
            &&& forall|k: int|
                0 <= k < t.recent.len() ==> out.contains(
                    Packet {
                        target: Target::Broadcast,
                        message: PaxosMsg::Decide {
                            slot: (#[trigger] t.recent[k]).1,
                            value: t.recent[k].2,
                        },
                    },
                )
        }),
{
    lemma_retried(s, plan, now, slot);
    let (m, first) = s.retried(plan, now);
    let (t, out) = s.ticked(plan, now);
    recent_decisions_are_sent_again(m.recent, now);
    let again = decide_broadcasts(t.recent);
    assert forall|k: int| 0 <= k < t.recent.len() implies out.contains(
        Packet {
            target: Target::Broadcast,
            message: PaxosMsg::Decide {
                slot: (#[trigger] t.recent[k]).1,
                value: t.recent[k].2,
            },
        },
    ) by {
        assert(out[first.len() + k] == again[k]);
    }
    if s.is_due(slot, now) {
        let i = choose|i: int| 0 <= i < plan.len() && plan[i].0 == slot;
        let p = Packet {
            target: Target::Broadcast,
            message: PaxosMsg::<T>::Prepare { slot, proposal_number: m.instances[slot].number },
        };
        let k = choose|k: int| 0 <= k < first.len() && first[k] == p;
        assert(out[k] == p);
    } else {
        assert(forall|i: int| 0 <= i < plan.len() ==> (#[trigger] plan[i]).0 != slot);
    }
}

/// What trying a list of proposals again does to one slot.
proof fn lemma_retried<T>(s: PaxosState<T>, plan: Seq<(u64, u64)>, now: u64, slot: u64)
    requires
        forall|i: int, j: int| 0 <= i < j < plan.len() ==> plan[i].0 != plan[j].0,
        forall|i: int|
            0 <= i < plan.len() ==> s.is_due((#[trigger] plan[i]).0, now) && 2 * plan[i].1
                <= backoff((s.instances[plan[i].0].retry_count + 1) as u32),
        forall|x: u64| #[trigger] s.is_due(x, now) ==> s.can_retry(x),
        s.quorum > 1,
    ensures
        ({
            let (m, out) = s.retried(plan, now);
            let p = Packet {
                target: Target::Broadcast,
                message: PaxosMsg::<T>::Prepare { slot, proposal_number: m.instances[slot].number },
            };
            &&& m.quorum == s.quorum && m.node_id == s.node_id
            &&& m.decided == s.decided && m.recent == s.recent
            &&& m.instances.contains_key(slot) == s.instances.contains_key(slot)
            &&& (forall|i: int| 0 <= i < plan.len() ==> (#[trigger] plan[i]).0 != slot)
                && s.instances.contains_key(slot) ==> m.instances[slot] == s.instances[slot]
            &&& (exists|i: int| 0 <= i < plan.len() && (#[trigger] plan[i]).0 == slot) ==> {
                &&& m.instances[slot].number.0 > s.instances[slot].number.0
                &&& m.instances[slot].number.1 == s.node_id
                &&& m.instances[slot].proposed == s.instances[slot].proposed
                &&& m.instances[slot].retry_count == s.instances[slot].retry_count + 1
                &&& now + 1200 <= u64::MAX ==> m.instances[slot].next_retry_at is Some && now
                    + backoff(m.instances[slot].retry_count) <= m.instances[slot].next_retry_at->0
                    && 2 * (m.instances[slot].next_retry_at->0 - now) <= 3 * backoff(
                    m.instances[slot].retry_count,
                )
                &&& out.contains(p)
            }
        }),
    decreases plan.len(),
{
    if plan.len() > 0 {
        let before = plan.drop_last();
        let (x, jitter) = plan.last();
        assert forall|i: int| 0 <= i < before.len() implies s.is_due(
            (#[trigger] before[i]).0,
            now,
        ) && 2 * before[i].1 <= backoff((s.instances[before[i].0].retry_count + 1) as u32) by {
            assert(before[i] == plan[i]);
        }
        lemma_retried(s, before, now, slot);
        lemma_retried(s, before, now, x);
        let (m, out) = s.retried(before, now);
        assert(plan[plan.len() - 1] == plan.last());
        assert forall|i: int| 0 <= i < before.len() implies (#[trigger] before[i]).0 != x by {
            assert(before[i] == plan[i]);
        }
        assert(s.is_due(x, now));
        assert(s.can_retry(x));
        assert(m.instances[x] == s.instances[x]);
        retries_ask_again_with_a_higher_number(m, x, now, jitter);
        let (t, more) = m.retry(x, now, jitter);
        assert(s.retried(plan, now) == (t, out + more));
        if slot == x {
            assert((out + more)[out.len() as int] == more[0]);
            assert(plan[plan.len() - 1].0 == slot);
        } else {
            if exists|i: int| 0 <= i < plan.len() && (#[trigger] plan[i]).0 == slot {
                let i = choose|i: int| 0 <= i < plan.len() && (#[trigger] plan[i]).0 == slot;
                assert(before[i] == plan[i]);
                let p = Packet {
                    target: Target::Broadcast,
                    message: PaxosMsg::<T>::Prepare { slot, proposal_number: m.instances[slot].number },
                };
                let k = choose|k: int| 0 <= k < out.len() && out[k] == p;
                assert((out + more)[k] == p);
            } else {
                assert forall|i: int| 0 <= i < before.len() implies (#[trigger] before[i]).0
                    != slot by {
                    assert(before[i] == plan[i]);
                }
            }
        }
    }
}

/// A proposer after a list of nodes promised its number, and what it said last.
pub open spec fn promised_by<T>(
    s: PaxosState<T>,
    slot: u64,
    number: Ballot,
    promises: Seq<(NodeName, Option<(Ballot, T)>)>,
    now: u64,
) -> (PaxosState<T>, Seq<Packet<PaxosMsg<T>>>)
    decreases promises.len(),
{
    if promises.len() == 0 {
        (s, Seq::empty())
    } else {
        let m = promised_by(s, slot, number, promises.drop_last(), now).0;
        let (from, accepted) = promises.last();
        m.receive(from, PaxosMsg::Promise { slot, proposal_number: number, accepted }, now, 0)
    }
}

/// The nodes that gave these promises.
pub open spec fn givers<T>(promises: Seq<(NodeName, Option<(Ballot, T)>)>) -> Set<NodeName> {
    Set::new(
        |n: NodeName| exists|i: int| 0 <= i < promises.len() && (#[trigger] promises[i]).0 == n,
    )
}

/// Whether one acceptance is the highest of those that were reported, with the one
/// that the round knew of before among them.
pub open spec fn highest_reported<T>(
    known: Option<(Ballot, T)>,
    promises: Seq<(NodeName, Option<(Ballot, T)>)>,
    best: Option<(Ballot, T)>,
) -> bool {
    &&& best is None ==> known is None
    &&& best is Some ==> best == known || exists|i: int|
        0 <= i < promises.len() && (#[trigger] promises[i]).1 == best
    &&& known is Some ==> best is Some && ballot_le((known->0).0, (best->0).0)
    &&& forall|i: int|
        0 <= i < promises.len() && (#[trigger] promises[i]).1 is Some ==> best is Some && ballot_le(
            (promises[i].1->0).0,
            (best->0).0,
        )
}

/// A round asks for the highest acceptance among its promises: where a list of
/// nodes promises, and the last of them makes the quorum, every node is asked to
/// accept the value with the highest number that was reported, or the proposer's
/// own if none was.
pub proof fn the_highest_acceptance_is_asked_for<T>(
    s: PaxosState<T>,
    slot: u64,
    number: Ballot,
    promises: Seq<(NodeName, Option<(Ballot, T)>)>,
    now: u64,
)
    requires
        in_round(s, slot, number),
        s.instances[slot].promises.finite(),
        s.instances[slot].accepts == Set::<NodeName>::empty(),
        s.instances[slot].asked is None,
        s.quorum > 1,
        promises.len() > 0,
        s.instances[slot].promises.union(givers(promises.drop_last())).len() < s.quorum,
        s.instances[slot].promises.union(givers(promises)).len() >= s.quorum,
    ensures
        ({
            let (t, out) = promised_by(s, slot, number, promises, now);
            let i = s.instances[slot];
            exists|best: Option<(Ballot, T)>| #[trigger]
                highest_reported(i.highest_accepted, promises, best) && tells(
                    out,
                    Target::Broadcast,
                    PaxosMsg::Accept {
                        slot,
                        proposal_number: number,
                        value: match best {
                            Some(a) => a.1,
                            None => i.proposed->0,
                        },
                    },
                )
        }),
{
    let before = promises.drop_last();
    let (from, accepted) = promises.last();
    lemma_promised_by(s, slot, number, before, now);
    let m = promised_by(s, slot, number, before, now).0;
    a_quorum_of_promises_opens_phase_2(m, from, slot, number, accepted, now, 0);
    let i = s.instances[slot];
    let j = m.instances[slot];
    assert(j.promises.insert(from) =~= i.promises.union(givers(promises))) by {
        assert forall|n: NodeName| givers(promises).contains(n) == (givers(before).contains(n) || n
            == from) by {
            if givers(promises).contains(n) {
                let k = choose|k: int| 0 <= k < promises.len() && (#[trigger] promises[k]).0 == n;
                if k < before.len() {
                    assert(before[k].0 == n);
                }
            }
            if givers(before).contains(n) {
                let k = choose|k: int| 0 <= k < before.len() && (#[trigger] before[k]).0 == n;
                assert(promises[k].0 == n);
            }
            assert(promises[promises.len() - 1].0 == from);
        }
    }
    assert(Set::<NodeName>::empty().insert(s.node_id).len() == 1);
    let best = j.with_promise(from, accepted).highest_accepted;
    lemma_highest_grows(i.highest_accepted, before, j, from, accepted, promises);
    assert(highest_reported(i.highest_accepted, promises, best));
    assert(wanted(j, accepted) == (match best {
        Some(a) => a.1,
        None => i.proposed->0,
    }));
}

/// One more promise keeps the highest acceptance.
proof fn lemma_highest_grows<T>(
    known: Option<(Ballot, T)>,
    before: Seq<(NodeName, Option<(Ballot, T)>)>,
    j: Instance<T>,
    from: NodeName,
    accepted: Option<(Ballot, T)>,
    promises: Seq<(NodeName, Option<(Ballot, T)>)>,
)
    requires
        highest_reported(known, before, j.highest_accepted),
        promises == before.push((from, accepted)) || (promises.len() > 0 && promises.drop_last()
            == before && promises.last() == (from, accepted)),
    ensures
        highest_reported(known, promises, j.with_promise(from, accepted).highest_accepted),
{
    let prior = j.highest_accepted;
    let best = j.with_promise(from, accepted).highest_accepted;
    assert(promises[promises.len() - 1] == (from, accepted));
    assert forall|i: int| 0 <= i < before.len() implies promises[i] == #[trigger] before[i] by {}
    if let (Some(a), Some(b)) = (prior, accepted) {
        ballot_order_is_total(a.0, b.0);
    }
    assert forall|i: int| 0 <= i < promises.len() && (#[trigger] promises[i]).1 is Some implies best
        is Some && ballot_le((promises[i].1->0).0, (best->0).0) by {
        if i < before.len() {
            assert(before[i].1 is Some);
            if ballot_less((promises[i].1->0).0, (prior->0).0) && ballot_less((prior->0).0, (best->0).0) {
                ballot_order_is_transitive((promises[i].1->0).0, (prior->0).0, (best->0).0);
            }
        }
    }
    if known is Some && ballot_less((known->0).0, (prior->0).0) && ballot_less((prior->0).0, (best->0).0) {
        ballot_order_is_transitive((known->0).0, (prior->0).0, (best->0).0);
    }
    if best is Some && best != known {
        if best == accepted {
            assert(promises[promises.len() - 1].1 == best);
        } else {
            let k = choose|k: int| 0 <= k < before.len() && (#[trigger] before[k]).1 == best;
            assert(promises[k].1 == best);
        }
    }
}

/// A round that has no quorum of promises yet.
proof fn lemma_promised_by<T>(
    s: PaxosState<T>,
    slot: u64,
    number: Ballot,
    promises: Seq<(NodeName, Option<(Ballot, T)>)>,
    now: u64,
)
    requires
        in_round(s, slot, number),
        s.instances[slot].promises.finite(),
        s.instances[slot].promises.union(givers(promises)).len() < s.quorum,
    ensures
        ({
            let m = promised_by(s, slot, number, promises, now).0;
            let i = s.instances[slot];
            let j = m.instances[slot];
            &&& same_elsewhere(s, m, slot)
            &&& m.node_id == s.node_id && m.quorum == s.quorum
            &&& j == (Instance {
                promises: i.promises.union(givers(promises)),
                highest_accepted: j.highest_accepted,
                ..i
            })
            &&& j.promises.finite()
            &&& highest_reported(i.highest_accepted, promises, j.highest_accepted)
        }),
    decreases promises.len(),
{
    let i = s.instances[slot];
    if promises.len() == 0 {
        assert(i.promises.union(givers(promises)) =~= i.promises);
    } else {
        let before = promises.drop_last();
        let (from, accepted) = promises.last();
        assert(i.promises.union(givers(promises)) =~= i.promises.union(givers(before)).insert(from))
            by {
            assert forall|n: NodeName| givers(promises).contains(n) == (givers(before).contains(n)
                || n == from) by {
                if givers(promises).contains(n) {
                    let k = choose|k: int|
                        0 <= k < promises.len() && (#[trigger] promises[k]).0 == n;
                    if k < before.len() {
                        assert(before[k].0 == n);
                    }
                }
                if givers(before).contains(n) {
                    let k = choose|k: int| 0 <= k < before.len() && (#[trigger] before[k]).0 == n;
                    assert(promises[k].0 == n);
                }
                assert(promises[promises.len() - 1].0 == from);
            }
        }
        lemma_givers_finite(before);
        let u = i.promises.union(givers(before));
        assert(u.finite());
        assert(u.len() <= u.insert(from).len());
        lemma_promised_by(s, slot, number, before, now);
        let m = promised_by(s, slot, number, before, now).0;
        lemma_highest_grows(
            i.highest_accepted,
            before,
            m.instances[slot],
            from,
            accepted,
            promises,
        );
    }
}

proof fn lemma_givers_finite<T>(promises: Seq<(NodeName, Option<(Ballot, T)>)>)
    ensures
        givers(promises).finite(),
    decreases promises.len(),
{
    if promises.len() == 0 {
        assert(givers(promises) =~= Set::<NodeName>::empty());
    } else {
        let before = promises.drop_last();
        lemma_givers_finite(before);
        assert forall|n: NodeName| givers(promises).contains(n) implies givers(before).insert(
            promises.last().0,
        ).contains(n) by {
            let k = choose|k: int| 0 <= k < promises.len() && (#[trigger] promises[k]).0 == n;
            if k < before.len() {
                assert(before[k].0 == n);
            }
        }
        assert(givers(promises).subset_of(givers(before).insert(promises.last().0)));
        vstd::set_lib::lemma_len_subset(
            givers(promises),
            givers(before).insert(promises.last().0),
        );
    }
}

/// A proposal goes through where a quorum answers: a node that proposes in a slot
/// that neither it nor a majority of the others has heard of, and that gets their
/// promises and acceptances, decides its own value.
pub proof fn a_proposal_that_is_answered_is_decided<T>(
    s: PaxosState<T>,
    value: T,
    peers: Seq<NodeName>,
    now: u64,
    jitter: u64,
)
    requires
        s.tidy(),
        s.next_slot < u64::MAX,
        !s.instances.contains_key(s.next_slot),
        s.quorum > 1,
        peers.no_duplicates(),
        !peers.contains(s.node_id),
        peers.len() + 1 == s.quorum,
    ensures
        ({
            let slot = s.next_slot;
            let number = (1u64, s.node_id);
            let m = s.propose(value, now, jitter).0;
            let (p, asks) = promised_by(
                m,
                slot,
                number,
                peers.map_values(|n: NodeName| (n, None::<(Ballot, T)>)),
                now,
            );
            let (t, told) = accepted_by(p, slot, number, value, peers, now);
            &&& tells(
                asks,
                Target::Broadcast,
                PaxosMsg::Accept { slot, proposal_number: number, value },
            )
            &&& tells(told, Target::Broadcast, PaxosMsg::Decide { slot, value })
            &&& t.decided == s.decided.insert(slot, value)
            &&& t.pending_decisions == s.pending_decisions.push((slot, value))
            &&& t.lost == s.lost
        }),
{
    let slot = s.next_slot;
    let number = (1u64, s.node_id);
    let m = s.propose(value, now, jitter).0;
    proposals_open_the_next_slot(s, value, now, jitter);
    let i = m.instances[slot];
    assert(s.instance(slot).promises.insert(s.node_id).len() == 1);
    assert(i.promises =~= set![s.node_id]);
    assert(i.accepts =~= Set::<NodeName>::empty());
    let none = |n: NodeName| (n, None::<(Ballot, T)>);
    let promises = peers.map_values(none);
    let before = promises.drop_last();
    assert(before =~= peers.drop_last().map_values(none));
    lemma_union_len(s.node_id, peers, promises);
    lemma_union_len(s.node_id, peers.drop_last(), before);
    lemma_promised_by(m, slot, number, before, now);
    let b = promised_by(m, slot, number, before, now).0;
    let j = b.instances[slot];
    let from = peers.last();
    assert(promises.last() == (from, None::<(Ballot, T)>));
    assert(j.highest_accepted is None) by {
        if j.highest_accepted is Some {
            let k = choose|k: int|
                0 <= k < before.len() && (#[trigger] before[k]).1 == j.highest_accepted;
        }
    }
    assert(j.promises.insert(from) =~= set![s.node_id].union(givers(promises))) by {
        assert forall|n: NodeName| givers(promises).contains(n) == (givers(before).contains(n) || n
            == from) by {
            if givers(promises).contains(n) {
                let k = choose|k: int| 0 <= k < promises.len() && (#[trigger] promises[k]).0 == n;
                if k < before.len() {
                    assert(before[k].0 == n);
                }
            }
            if givers(before).contains(n) {
                let k = choose|k: int| 0 <= k < before.len() && (#[trigger] before[k]).0 == n;
                assert(promises[k].0 == n);
            }
            assert(promises[promises.len() - 1].0 == from);
        }
    }
    ballot_order_is_total(number, number);
    a_quorum_of_promises_opens_phase_2(b, from, slot, number, None, now, 0);
    assert(Set::<NodeName>::empty().insert(s.node_id).len() == 1);
    let p = promised_by(m, slot, number, promises, now).0;
    assert(p.instances[slot].accepts =~= set![s.node_id]);
    lemma_accepted_by(p, slot, number, value, peers, now, s.node_id);
}

/// A set of nodes together with one that is not among them.
proof fn lemma_union_len<T>(
    n: NodeName,
    peers: Seq<NodeName>,
    promises: Seq<(NodeName, Option<(Ballot, T)>)>,
)
    requires
        peers.no_duplicates(),
        !peers.contains(n),
        promises == peers.map_values(|m: NodeName| (m, None::<(Ballot, T)>)),
    ensures
        set![n].union(givers(promises)) == peers.to_set().insert(n),
        set![n].union(givers(promises)).len() == peers.len() + 1,
{
    peers.unique_seq_to_set();
    assert forall|m: NodeName| givers(promises).contains(m) == peers.to_set().contains(m) by {
        if givers(promises).contains(m) {
            let k = choose|k: int| 0 <= k < promises.len() && (#[trigger] promises[k]).0 == m;
            assert(peers[k] == m);
        }
        if peers.contains(m) {
            let k = choose|k: int| 0 <= k < peers.len() && peers[k] == m;
            assert(promises[k].0 == m);
        }
    }
    assert(set![n].union(givers(promises)) =~= peers.to_set().insert(n));
}

/// A proposer after a list of nodes accepted under its number, and what it said
/// last.
pub open spec fn accepted_by<T>(
    s: PaxosState<T>,
    slot: u64,
    number: Ballot,
    value: T,
    peers: Seq<NodeName>,
    now: u64,
) -> (PaxosState<T>, Seq<Packet<PaxosMsg<T>>>)
    decreases peers.len(),
{
    if peers.len() == 0 {
        (s, Seq::empty())
    } else {
        let m = accepted_by(s, slot, number, value, peers.drop_last(), now).0;
        m.receive(
            peers.last(),
            PaxosMsg::Accepted { slot, proposal_number: number, value },
            now,
            0,
        )
    }
}

proof fn lemma_accepted_by<T>(
    s: PaxosState<T>,
    slot: u64,
    number: Ballot,
    value: T,
    peers: Seq<NodeName>,
    now: u64,
    n: NodeName,
)
    requires
        in_round(s, slot, number),
        s.instances[slot].asked == Some(value),
        s.instances[slot].accepts == set![n],
        s.instances[slot].proposed == Some(value),
        peers.no_duplicates(),
        !peers.contains(n),
        peers.len() + 1 <= s.quorum,
        slot < u64::MAX,
    ensures
        ({
            let (t, out) = accepted_by(s, slot, number, value, peers, now);
            &&& peers.len() + 1 < s.quorum ==> {
                &&& same_elsewhere(s, t, slot)
                &&& t.instances[slot] == (Instance {
                    accepts: peers.to_set().insert(n),
                    ..s.instances[slot]
                })
            }
            &&& peers.len() + 1 == s.quorum && peers.len() > 0 ==> {
                &&& tells(out, Target::Broadcast, PaxosMsg::Decide { slot, value })
                &&& t.decided == s.decided.insert(slot, value)
                &&& t.pending_decisions == s.pending_decisions.push((slot, value))
                &&& t.lost == s.lost
            }
        }),
    decreases peers.len(),
{
    if peers.len() == 0 {
        assert(peers.to_set().insert(n) =~= set![n]);
    } else {
        let before = peers.drop_last();
        let from = peers.last();
        assert(before.no_duplicates());
        assert(!before.contains(n)) by {
            if before.contains(n) {
                let k = choose|k: int| 0 <= k < before.len() && before[k] == n;
                assert(peers[k] == n);
            }
        }
        lemma_accepted_by(s, slot, number, value, before, now, n);
        let m = accepted_by(s, slot, number, value, before, now).0;
        peers.unique_seq_to_set();
        assert(peers.to_set().insert(n) =~= before.to_set().insert(n).insert(from)) by {
            assert forall|x: NodeName| peers.to_set().contains(x) == (before.to_set().contains(x)
                || x == from) by {
                if peers.contains(x) {
                    let k = choose|k: int| 0 <= k < peers.len() && peers[k] == x;
                    if k < before.len() {
                        assert(before[k] == x);
                    }
                }
                if before.contains(x) {
                    let k = choose|k: int| 0 <= k < before.len() && before[k] == x;
                    assert(peers[k] == x);
                }
                assert(peers[peers.len() - 1] == from);
            }
        }
        assert(peers.to_set().insert(n).len() == peers.len() + 1);
        a_quorum_of_acceptances_decides(m, from, slot, number, value, now, 0);
    }
}

} // verus!
