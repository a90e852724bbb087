//! What a node is for: what its protocol says is sent, what it decides is saved
//! and delivered, and it goes on as long as it can reach a majority.
use crate::config::NodeName;
use crate::message::{
    wired_paxos, wired_raft, Ballot, Entry, Packet, PaxosMsg, RaftMsg, Target, Wire,
};
use crate::node::{reaches, Answer, Happening, NodeModel, Phase, Then};
use crate::paxos_model::{backoff, Instance, PaxosState};
use crate::paxos_protocol::concluded;
use crate::protocol::Engine;
use crate::quiet_paxos::pause;
use crate::raft_model::{saved, Role};
use crate::random::timeout_allowed;
use crate::storage::PaxosStored;
use vstd::prelude::*;

verus! {

/// Whether a node has nothing to lose: no slot and no entry of a log, no proposal
/// at hand, and no lead.
pub open spec fn at_rest<T>(engine: Engine<T>) -> bool {
    match engine {
        Engine::Paxos { state, .. } => forall|slot: u64|
            !(#[trigger] state.instances.contains_key(slot)),
        Engine::Raft { state, .. } => {
            &&& state.log == Seq::<Entry<T>>::empty()
            &&& state.pending_proposals == Seq::<T>::empty()
            &&& state.lost_proposals == Seq::<T>::empty()
            &&& state.role != Role::Leader
        },
    }
}

/// A node that loses a peer, or its transport, stops exactly if it has something to
/// lose and those that are left, itself included, are at most half of the cluster;
/// else it waits on, with one peer less.
pub proof fn nodes_stop_without_a_majority<T>(
    n: NodeModel<T>,
    event: Happening<T>,
    now: u64,
    after: NodeModel<T>,
    answer: Answer<T>,
)
    requires
        n.takes(event, now),
        n.steps(event, now, after, answer),
        event is PeerLost || event is ReceiverFailed,
        n.peers.len() < usize::MAX,
    ensures
        ({
            let left: int = if event is PeerLost {
                n.active_peers - 1
            } else {
                0
            };
            &&& answer is NoQuorum <==> 2 * (left + 1) <= n.peers.len() + 1 && !at_rest(n.engine)
            &&& answer is NoQuorum ==> after.phase == Phase::Stopped
            &&& !(answer is NoQuorum) ==> answer is Wait && after.phase == Phase::Waiting
            &&& event is PeerLost ==> after.active_peers == n.active_peers - 1
            &&& event is ReceiverFailed ==> after.active_peers == n.active_peers
            &&& after.engine == n.engine && after.peers == n.peers && after.lost == n.lost
        }),
{
    match n.engine {
        Engine::Paxos { state, .. } => {
            if at_rest(n.engine) {
                assert(state.instances =~= Map::<u64, Instance<T>>::empty());
            }
        },
        Engine::Raft { state, .. } => {
            if n.engine.idle() {
                assert(state.log =~= Seq::empty());
                assert(state.pending_proposals =~= Seq::empty());
                assert(state.lost_proposals =~= Seq::empty());
            }
        },
    }
}

/// Whether a slot of a Multi-Paxos node can go through another round: its numbers
/// have not reached the last one there is.
pub open spec fn has_rounds_left<T>(i: Instance<T>) -> bool {
    &&& i.number.0 < u64::MAX
    &&& i.promised matches Some(p) ==> p.0 < u64::MAX
    &&& i.highest_nack matches Some(r) ==> r < u64::MAX
    &&& i.retry_count < u32::MAX
}

/// A node that waits takes whatever happens, as long as it does not run out of
/// numbers; one that has asked for something takes the end of that, and nothing
/// else.
pub proof fn nodes_take_what_happens<T>(n: NodeModel<T>, event: Happening<T>, now: u64)
    ensures
        n.phase is Waiting && (event is HandlesDropped || event is Undecodable || event
            is ReceiverFailed) ==> n.takes(event, now),
        n.phase is Waiting && event is PeerLost ==> (n.takes(event, now) <==> n.active_peers > 0),
        n.phase is Waiting && event is Done ==> !n.takes(event, now),
        n.phase is Waiting && n.engine is Raft && (event is Proposal || event is Incoming)
            ==> n.takes(event, now),
        n.phase is Waiting && n.engine is Raft && event is Tick && n.engine->Raft_state.current_term
            < u64::MAX ==> n.takes(event, now),
        n.phase is Waiting && n.engine is Paxos && event is Proposal ==> (n.takes(event, now)
            <==> n.engine->Paxos_state.next_slot < u64::MAX),
        n.phase is Waiting && n.engine is Paxos && event is Tick && (forall|slot: u64| #[trigger]
            n.engine->Paxos_state.instances.contains_key(slot) ==> has_rounds_left(
                n.engine->Paxos_state.instances[slot],
            )) ==> n.takes(event, now),
        n.phase is Waiting && n.engine is Paxos && event is Incoming && (match event->message {
            Wire::Raft(_) => true,
            Wire::Paxos(m) => match m {
                PaxosMsg::Decide { slot, .. } => slot < u64::MAX,
                PaxosMsg::Accepted { slot, .. } => slot < u64::MAX,
                PaxosMsg::Promise { slot, .. } => slot < u64::MAX && (
                n.engine->Paxos_state.instances.contains_key(slot)
                    ==> n.engine->Paxos_state.instances[slot].proposed is Some),
                _ => true,
            },
        }) ==> n.takes(event, now),
        n.phase is Sending ==> (n.takes(event, now) <==> event is Done),
        n.phase is Delivering && !(event is Done) ==> !n.takes(event, now),
        n.phase is Delivering && event is Done && (n.engine is Raft
            || n.engine->Paxos_state.next_slot < u64::MAX) ==> n.takes(event, now),
        n.phase is Stopped ==> !n.takes(event, now),
{
    if n.engine is Paxos {
        let s = n.engine->Paxos_state;
        if forall|slot: u64| #[trigger]
            s.instances.contains_key(slot) ==> has_rounds_left(s.instances[slot]) {
            assert forall|slot: u64| #[trigger] s.is_due(slot, now) implies s.can_retry(slot) by {
                assert(s.instances.contains_key(slot));
            }
        }
    }
}

/// Where a node stands follows from what it has asked for: it waits for the end of
/// what it hands out, and where it stops, for want of a quorum, because a write failed
/// or because all handles are gone, it stays stopped. A peer that is lost is not
/// counted again, and no step forgets a peer.
pub proof fn phases_follow_the_answers<T>(
    n: NodeModel<T>,
    event: Happening<T>,
    now: u64,
    after: NodeModel<T>,
    answer: Answer<T>,
)
    requires
        n.takes(event, now),
        n.steps(event, now, after, answer),
    ensures
        answer is Send <==> after.phase is Sending,
        answer is Deliver <==> after.phase is Delivering,
        answer is Wait <==> after.phase is Waiting,
        answer is Stop || answer is NoQuorum || answer is StorageFailed <==> after.phase
            is Stopped,
        after.node_id == n.node_id && after.peers == n.peers,
        !(event is PeerLost) ==> after.active_peers == n.active_peers,
{
    match event {
        Happening::Done => match n.phase {
            Phase::Delivering { then } => {
                if then != Then::Wait {
                    let m = if then == Then::TakeLost {
                        NodeModel { engine: n.engine.without_lost(), lost: n.engine.lost(), ..n }
                    } else {
                        n
                    };
                    assert(m.goes_on(now, after, answer));
                }
            },
            _ => {},
        },
        _ => {},
    }
}

/// Something that is no message changes nothing; where all handles are gone, the
/// node stops.
pub proof fn noise_changes_nothing<T>(
    n: NodeModel<T>,
    event: Happening<T>,
    now: u64,
    after: NodeModel<T>,
    answer: Answer<T>,
)
    requires
        n.takes(event, now),
        n.steps(event, now, after, answer),
    ensures
        event is Undecodable ==> answer is Wait && after == n,
        event is HandlesDropped ==> answer is Stop && after.phase == Phase::Stopped
            && after.engine == n.engine,
        event is Done && n.phase == (Phase::Delivering { then: Then::Wait }) ==> answer is Wait
            && after.phase == Phase::Waiting && after.engine == n.engine,
{
}

/// Whether packets go over the wire as they are: to the same nodes, in the same
/// order, none left out and none added.
pub open spec fn same_paxos_packets<T>(
    wire: Seq<Packet<Wire<T>>>,
    out: Seq<Packet<PaxosMsg<T>>>,
) -> bool {
    &&& wire.len() == out.len()
    &&& forall|i: int|
        0 <= i < out.len() ==> (#[trigger] wire[i]).target == out[i].target && wire[i].message
            == Wire::Paxos(out[i].message)
}

/// The same for the packets of Raft.
pub open spec fn same_raft_packets<T>(
    wire: Seq<Packet<Wire<T>>>,
    out: Seq<Packet<RaftMsg<T>>>,
) -> bool {
    &&& wire.len() == out.len()
    &&& forall|i: int|
        0 <= i < out.len() ==> (#[trigger] wire[i]).target == out[i].target && wire[i].message
            == Wire::Raft(out[i].message)
}

/// What a Raft node answers goes out: the messages that its state machine answers an
/// event with are sent, as long as the storage does not fail, and its state moves
/// on with them. The election timeout is drawn from the configured range.
pub proof fn raft_answers_are_sent<T>(
    n: NodeModel<T>,
    event: Happening<T>,
    now: u64,
    after: NodeModel<T>,
    answer: Answer<T>,
)
    requires
        n.takes(event, now),
        n.steps(event, now, after, answer),
        n.engine is Raft,
        !(answer is StorageFailed),
    ensures
        ({
            let s = n.engine->Raft_state;
            let t = after.engine->Raft_state;
            let min = s.config.election_timeout_min;
            let max = s.config.election_timeout_max;
            &&& after.engine is Raft
            &&& event matches Happening::Proposal(value) ==> {
                &&& answer is Send && same_raft_packets(answer->Send_0, s.propose(value, now).1)
                &&& t.log == s.propose(value, now).0.log
                &&& t.pending_proposals == s.propose(value, now).0.pending_proposals
            }
            &&& event matches Happening::Incoming { from, message: Wire::Raft(m) } ==> exists|
                timeout: u64,
            |
                (timeout == min || min <= timeout <= max) && answer is Send && same_raft_packets(
                    answer->Send_0,
                    (#[trigger] s.receive(from, m, now, timeout)).1,
                ) && t.log == s.receive(from, m, now, timeout).0.log && t.current_term == s.receive(
                    from,
                    m,
                    now,
                    timeout,
                ).0.current_term && t.role == s.receive(from, m, now, timeout).0.role
            &&& event matches Happening::Incoming { from, message: Wire::Paxos(m) } ==> answer
                is Send && answer->Send_0.len() == 0 && t.log == s.log && t.current_term
                == s.current_term && t.voted_for == s.voted_for && t.role == s.role
            &&& event is Tick ==> exists|timeout: u64|
                (timeout == min || min <= timeout <= max) && answer is Send && same_raft_packets(
                    answer->Send_0,
                    (#[trigger] s.tick(now, timeout)).1,
                ) && t.current_term == s.tick(now, timeout).0.current_term && t.role == s.tick(
                    now,
                    timeout,
                ).0.role
        }),
{
    let s = n.engine->Raft_state;
    match event {
        Happening::Proposal(value) => {
            let (mid, out) = choose|mid: Engine<T>, out: Seq<Packet<Wire<T>>>| #[trigger]
                n.engine.proposes(value, now, mid, out) && n.hands_out(
                    mid,
                    out,
                    Then::Wait,
                    after,
                    answer,
                );
            assert(out == wired_raft(s.propose(value, now).1));
        },
        Happening::Incoming { from, message } => {
            let (mid, out) = choose|mid: Engine<T>, out: Seq<Packet<Wire<T>>>| #[trigger]
                n.engine.receives(from, message, now, mid, out) && n.hands_out(
                    mid,
                    out,
                    Then::TakeLost,
                    after,
                    answer,
                );
            if let Wire::Raft(m) = message {
                let timeout = choose|timeout: u64| #[trigger]
                    timeout_allowed(s.config, timeout) && mid->Raft_state == s.receive(
                        from,
                        m,
                        now,
                        timeout,
                    ).0 && out == wired_raft(s.receive(from, m, now, timeout).1);
                assert(same_raft_packets(answer->Send_0, s.receive(from, m, now, timeout).1));
            }
        },
        Happening::Tick => {
            let (mid, out) = choose|mid: Engine<T>, out: Seq<Packet<Wire<T>>>| #[trigger]
                n.engine.ticks(now, mid, out) && n.hands_out(mid, out, Then::Wait, after, answer);
            let timeout = choose|timeout: u64| #[trigger]
                timeout_allowed(s.config, timeout) && mid->Raft_state == s.tick(now, timeout).0
                    && out == wired_raft(s.tick(now, timeout).1);
            assert(same_raft_packets(answer->Send_0, s.tick(now, timeout).1));
        },
        Happening::Done => match n.phase {
            Phase::Delivering { then } => {
                if then != Then::Wait {
                    let m = if then == Then::TakeLost {
                        NodeModel { engine: n.engine.without_lost(), lost: n.engine.lost(), ..n }
                    } else {
                        n
                    };
                    assert(m.goes_on(now, after, answer));
                }
            },
            _ => {},
        },
        _ => {},
    }
}

/// What a Multi-Paxos node answers goes out, as long as the storage does not fail.
/// The jitter of a new proposal is at most half of its first pause, and that after
/// a refusal at most half of the pause it puts off for.
pub proof fn paxos_answers_are_sent<T>(
    n: NodeModel<T>,
    event: Happening<T>,
    now: u64,
    after: NodeModel<T>,
    answer: Answer<T>,
)
    requires
        n.takes(event, now),
        n.steps(event, now, after, answer),
        n.engine is Paxos,
        !(answer is StorageFailed),
    ensures
        ({
            let s = n.engine->Paxos_state;
            let t = after.engine->Paxos_state;
            &&& after.engine is Paxos
            &&& event matches Happening::Proposal(value) ==> exists|jitter: u64|
                jitter <= 50 && answer is Send && same_paxos_packets(
                    answer->Send_0,
                    (#[trigger] s.propose(value, now, jitter)).1,
                ) && t.instances == s.propose(value, now, jitter).0.instances && t.decided
                    == s.propose(value, now, jitter).0.decided
            &&& event matches Happening::Incoming { from, message: Wire::Paxos(m) } ==> exists|
                jitter: u64,
            |
                answer is Send && same_paxos_packets(
                    answer->Send_0,
                    (#[trigger] s.receive(from, m, now, jitter)).1,
                ) && t.instances == s.receive(from, m, now, jitter).0.instances && t.decided
                    == s.receive(from, m, now, jitter).0.decided && match m {
                    PaxosMsg::NackPrepare { slot, .. } => s.instances.contains_key(slot) ==> 2
                        * jitter <= backoff(s.instances[slot].retry_count),
                    PaxosMsg::NackAccept { slot, .. } => s.instances.contains_key(slot) ==> 2
                        * jitter <= backoff(s.instances[slot].retry_count),
                    _ => true,
                }
            &&& event matches Happening::Incoming { from, message: Wire::Raft(m) } ==> answer
                is Send && answer->Send_0.len() == 0 && t.instances == s.instances && t.decided
                == s.decided
            &&& event is Tick ==> exists|plan: Seq<(u64, u64)>|
                s.plans(plan, now) && answer is Send && same_paxos_packets(
                    answer->Send_0,
                    (#[trigger] s.ticked(plan, now)).1,
                ) && t.instances == s.ticked(plan, now).0.instances
        }),
{
    let s = n.engine->Paxos_state;
    match event {
        Happening::Proposal(value) => {
            let (mid, out) = choose|mid: Engine<T>, out: Seq<Packet<Wire<T>>>| #[trigger]
                n.engine.proposes(value, now, mid, out) && n.hands_out(
                    mid,
                    out,
                    Then::Wait,
                    after,
                    answer,
                );
            let jitter = choose|jitter: u64|
                jitter <= 50 && mid->Paxos_state == (#[trigger] s.propose(value, now, jitter)).0
                    && out == wired_paxos(s.propose(value, now, jitter).1);
            assert(same_paxos_packets(answer->Send_0, s.propose(value, now, jitter).1));
        },
        Happening::Incoming { from, message } => {
            let (mid, out) = choose|mid: Engine<T>, out: Seq<Packet<Wire<T>>>| #[trigger]
                n.engine.receives(from, message, now, mid, out) && n.hands_out(
                    mid,
                    out,
                    Then::TakeLost,
                    after,
                    answer,
                );
            if let Wire::Paxos(m) = message {
                let jitter = choose|jitter: u64|
                    jitter <= s.nack_delay(m) / 2 && mid->Paxos_state == (#[trigger] s.receive(
                        from,
                        m,
                        now,
                        jitter,
                    )).0 && out == wired_paxos(s.receive(from, m, now, jitter).1);
                assert(same_paxos_packets(answer->Send_0, s.receive(from, m, now, jitter).1));
            }
        },
        Happening::Tick => {
            let (mid, out) = choose|mid: Engine<T>, out: Seq<Packet<Wire<T>>>| #[trigger]
                n.engine.ticks(now, mid, out) && n.hands_out(mid, out, Then::Wait, after, answer);
            let plan = choose|plan: Seq<(u64, u64)>| #[trigger]
                s.plans(plan, now) && mid->Paxos_state == s.ticked(plan, now).0 && out
                    == wired_paxos(s.ticked(plan, now).1);
            assert(same_paxos_packets(answer->Send_0, s.ticked(plan, now).1));
        },
        Happening::Done => match n.phase {
            Phase::Delivering { then } => {
                if then != Then::Wait {
                    let m = if then == Then::TakeLost {
                        NodeModel { engine: n.engine.without_lost(), lost: n.engine.lost(), ..n }
                    } else {
                        n
                    };
                    assert(m.goes_on(now, after, answer));
                }
            },
            _ => {},
        },
        _ => {},
    }
}

/// The decisions that a node has in its storage.
pub open spec fn kept_decisions<T>(engine: Engine<T>) -> Map<u64, T> {
    match engine {
        Engine::Paxos { stored, .. } => stored.decisions,
        Engine::Raft { stored, .. } => stored.decisions,
    }
}

/// The decisions that a node has reached and not delivered yet.
pub open spec fn reached<T>(engine: Engine<T>) -> Seq<(u64, T)> {
    match engine {
        Engine::Paxos { state, .. } => state.pending_decisions,
        Engine::Raft { state, .. } => state.pending_decisions,
    }
}

/// Whether a list has a decision for a slot.
pub open spec fn listed<T>(list: Seq<(u64, T)>, slot: u64) -> bool {
    exists|i: int| 0 <= i < list.len() && (#[trigger] list[i]).0 == slot
}

/// Whether a table holds a list of decisions besides what it held before: each slot
/// with the last value that the list has for it.
pub open spec fn adds<T>(before: Map<u64, T>, list: Seq<(u64, T)>, after: Map<u64, T>) -> bool {
    &&& forall|i: int|
        0 <= i < list.len() && !listed(list.skip(i + 1), (#[trigger] list[i]).0)
            ==> after.contains_key(list[i].0) && after[list[i].0] == list[i].1
    &&& forall|slot: u64|
        !listed(list, slot) ==> #[trigger] after.contains_key(slot) == before.contains_key(slot)
    &&& forall|slot: u64|
        !listed(list, slot) && before.contains_key(slot) ==> #[trigger] after[slot] == before[slot]
}

/// What is listed once there is one more decision.
proof fn lemma_listed<T>(list: Seq<(u64, T)>, slot: u64)
    requires
        list.len() > 0,
    ensures
        listed(list, slot) <==> listed(list.drop_last(), slot) || slot == list.last().0,
{
    let front = list.drop_last();
    if listed(front, slot) {
        let i = choose|i: int| 0 <= i < front.len() && (#[trigger] front[i]).0 == slot;
        assert(list[i].0 == slot);
    }
    if listed(list, slot) && slot != list.last().0 {
        let i = choose|i: int| 0 <= i < list.len() && (#[trigger] list[i]).0 == slot;
        assert(front[i].0 == slot);
    }
    if slot == list.last().0 {
        assert(list[list.len() - 1].0 == slot);
    }
}

/// One more decision.
proof fn lemma_adds_one<T>(before: Map<u64, T>, mid: Map<u64, T>, list: Seq<(u64, T)>)
    requires
        list.len() > 0,
        adds(before, list.drop_last(), mid),
    ensures
        adds(before, list, mid.insert(list.last().0, list.last().1)),
{
    let front = list.drop_last();
    let after = mid.insert(list.last().0, list.last().1);
    let last = list.len() - 1;
    assert forall|i: int|
        0 <= i < list.len() && !listed(list.skip(i + 1), (#[trigger] list[i]).0) implies
        after.contains_key(list[i].0) && after[list[i].0] == list[i].1 by {
        if i < last {
            let tail = list.skip(i + 1);
            lemma_listed(tail, list[i].0);
            assert(tail.drop_last() =~= front.skip(i + 1));
            assert(tail.last() == list.last());
            assert(front[i] == list[i]);
        }
    }
    assert forall|slot: u64| !listed(list, slot) implies #[trigger] after.contains_key(slot)
        == before.contains_key(slot) by {
        lemma_listed(list, slot);
        assert(mid.contains_key(slot) == before.contains_key(slot));
    }
    assert forall|slot: u64| !listed(list, slot) && before.contains_key(slot) implies #[trigger]
    after[slot] == before[slot] by {
        lemma_listed(list, slot);
        assert(mid[slot] == before[slot]);
    }
}

proof fn lemma_saved<T>(before: Map<u64, T>, list: Seq<(u64, T)>)
    ensures
        adds(before, list, saved(before, list)),
    decreases list.len(),
{
    if list.len() > 0 {
        lemma_saved(before, list.drop_last());
        lemma_adds_one(before, saved(before, list.drop_last()), list);
    }
}

proof fn lemma_concluded_adds<T>(stored: PaxosStored<T>, list: Seq<(u64, T)>)
    ensures
        adds(stored.decisions, list, concluded(stored, list).decisions),
    decreases list.len(),
{
    if list.len() > 0 {
        lemma_concluded_adds(stored, list.drop_last());
        lemma_adds_one(stored.decisions, concluded(stored, list.drop_last()).decisions, list);
    }
}

proof fn lemma_concluded_ends<T>(stored: PaxosStored<T>, list: Seq<(u64, T)>, slot: u64)
    ensures
        concluded(stored, list).acceptors.contains_key(slot) <==> stored.acceptors.contains_key(
            slot,
        ) && !listed(list, slot),
        concluded(stored, list).acceptors.contains_key(slot) ==> concluded(
            stored,
            list,
        ).acceptors[slot] == stored.acceptors[slot],
    decreases list.len(),
{
    if list.len() > 0 {
        lemma_concluded_ends(stored, list.drop_last(), slot);
        lemma_listed(list, slot);
    }
}

/// Every decision is delivered: once its messages are sent, a node saves the
/// decisions that it has reached, adding them to those it had, and hands out all of
/// them, in order. None is left, and none is saved or handed out twice.
pub proof fn decisions_are_saved_and_delivered<T>(
    n: NodeModel<T>,
    now: u64,
    after: NodeModel<T>,
    answer: Answer<T>,
)
    requires
        n.phase is Sending,
        n.steps(Happening::Done, now, after, answer),
        !(answer is StorageFailed),
    ensures
        answer == Answer::Deliver(reached(n.engine)),
        adds(kept_decisions(n.engine), reached(n.engine), kept_decisions(after.engine)),
        reached(after.engine) == Seq::<(u64, T)>::empty(),
        after.phase is Delivering,
        n.engine matches Engine::Paxos { stored, .. } ==> {
            let kept = after.engine->Paxos_stored.acceptors;
            &&& forall|slot: u64| #[trigger]
                kept.contains_key(slot) <==> stored.acceptors.contains_key(slot) && !listed(
                    reached(n.engine),
                    slot,
                )
            &&& forall|slot: u64| #[trigger]
                kept.contains_key(slot) ==> kept[slot] == stored.acceptors[slot]
        },
{
    match n.engine {
        Engine::Paxos { state, stored } => {
            let list = state.pending_decisions;
            lemma_concluded_adds(stored, list);
            let kept = after.engine->Paxos_stored.acceptors;
            assert(kept == concluded(stored, list).acceptors);
            assert forall|slot: u64| #[trigger]
                kept.contains_key(slot) <==> stored.acceptors.contains_key(slot) && !listed(
                    list,
                    slot,
                ) by {
                lemma_concluded_ends(stored, list, slot);
            }
            assert forall|slot: u64| #[trigger] kept.contains_key(slot) implies kept[slot]
                == stored.acceptors[slot] by {
                lemma_concluded_ends(stored, list, slot);
            }
        },
        Engine::Raft { state, stored } => {
            lemma_saved(stored.decisions, state.pending_decisions);
        },
    }
}

/// Where messages go: a broadcast to every peer, and a message for one node to one
/// peer of that name if there is one, and to nobody else.
pub proof fn messages_reach_their_targets(target: Target, peers: Seq<NodeName>)
    ensures
        target is Broadcast ==> forall|i: int|
            0 <= i < peers.len() ==> #[trigger] reaches(target, peers, i),
        target matches Target::Peer(name) ==> {
            &&& peers.contains(name) ==> exists|i: int|
                0 <= i < peers.len() && #[trigger] reaches(target, peers, i)
            &&& forall|i: int|
                0 <= i < peers.len() && #[trigger] reaches(target, peers, i) ==> peers[i] == name
            &&& forall|i: int, j: int|
                0 <= i < j < peers.len() && #[trigger] reaches(target, peers, i)
                    ==> !#[trigger] reaches(target, peers, j)
        },
{
    if let Target::Peer(name) = target {
        if peers.contains(name) {
            let k = choose|k: int| 0 <= k < peers.len() && peers[k] == name;
            lemma_first_reached(name, peers, k);
        }
    }
}

proof fn lemma_first_reached(name: NodeName, peers: Seq<NodeName>, k: int)
    requires
        0 <= k < peers.len(),
        peers[k] == name,
    ensures
        exists|i: int| 0 <= i < peers.len() && #[trigger] reaches(Target::Peer(name), peers, i),
    decreases k,
{
    if exists|j: int| 0 <= j < k && #[trigger] peers[j] == name {
        let j = choose|j: int| 0 <= j < k && #[trigger] peers[j] == name;
        lemma_first_reached(name, peers, j);
    } else {
        assert(reaches(Target::Peer(name), peers, k));
    }
}

/// The pauses of a node that compares no values start with 100 ms and double with
/// each retry, up to five seconds.
pub proof fn quiet_pauses_double(retries: u32)
    ensures
        pause(0) == 100,
        retries < 5 ==> pause((retries + 1) as u32) == 2 * pause(retries),
        retries > 5 ==> pause(retries) == 5000,
        100 <= pause(retries) <= 5000,
{
}

/// A node that compares no values tries a proposal again exactly if it was refused
/// and its pause has passed since the last refusal.
pub proof fn quiet_retries_follow_refusals<T>(
    s: PaxosState<T>,
    from: NodeName,
    message: PaxosMsg<T>,
    slot: u64,
    now: u64,
    jitter: u64,
    later: u64,
)
    requires
        match message {
            PaxosMsg::NackPrepare { slot: x, .. } => x == slot,
            PaxosMsg::NackAccept { slot: x, .. } => x == slot,
            _ => false,
        },
        s.instances.contains_key(slot),
        jitter <= u32::MAX,
    ensures
        ({
            let i = s.instances[slot];
            let t = s.receive_quietly(from, message, now, jitter).0;
            &&& t.instances.contains_key(slot)
            &&& i.is_proposer && !i.decided ==> (t.instances[slot].rested(later) <==> later >= now
                + pause(i.retry_count))
            &&& !i.nacked ==> !i.rested(later)
            &&& i.decided || !i.is_proposer ==> !t.instances[slot].rested(later)
        }),
{
}

/// A node that compares no values says nothing about a decided slot; about every
/// other it speaks as one that does. An own proposal is handed back whatever is
/// decided in its slot.
pub proof fn quiet_nodes_say_nothing_about_decisions<T>(
    s: PaxosState<T>,
    from: NodeName,
    message: PaxosMsg<T>,
    slot: u64,
    number: Ballot,
    value: T,
    now: u64,
    jitter: u64,
)
    ensures
        message == (PaxosMsg::<T>::Prepare { slot, proposal_number: number })
            && s.decided.contains_key(slot) ==> s.receive_quietly(from, message, now, jitter).0 == s
            && s.receive_quietly(from, message, now, jitter).1.len() == 0,
        message == (PaxosMsg::<T>::Accept { slot, proposal_number: number, value })
            && s.decided.contains_key(slot) ==> s.receive_quietly(from, message, now, jitter).0 == s
            && s.receive_quietly(from, message, now, jitter).1.len() == 0,
        message == (PaxosMsg::<T>::Prepare { slot, proposal_number: number })
            && !s.decided.contains_key(slot) ==> s.receive_quietly(from, message, now, jitter)
            == s.receive(from, message, now, jitter),
        message == (PaxosMsg::<T>::Accept { slot, proposal_number: number, value })
            && !s.decided.contains_key(slot) ==> s.receive_quietly(from, message, now, jitter)
            == s.receive(from, message, now, jitter),
        message is Promise || message is Accepted || message is NackPrepare || message is NackAccept
            ==> s.receive_quietly(from, message, now, jitter) == s.receive(
            from,
            message,
            now,
            jitter,
        ),
        message == (PaxosMsg::<T>::Decide { slot, value }) ==> {
            let t = s.receive_quietly(from, message, now, jitter).0;
            let u = s.receive(from, message, now, jitter).0;
            &&& s.receive_quietly(from, message, now, jitter).1.len() == 0
            &&& t.decided == u.decided && t.instances == u.instances
            &&& t.pending_decisions == u.pending_decisions
            &&& s.decided.contains_key(slot) ==> t == s
            &&& !s.decided.contains_key(slot) && s.instances.contains_key(slot)
                && s.instances[slot].is_proposer && s.instances[slot].proposed is Some ==> t.lost
                == s.lost.push(s.instances[slot].proposed->0)
            &&& !(s.instances.contains_key(slot) && s.instances[slot].is_proposer) ==> t.lost
                == s.lost
        },
{
}

} // verus!
