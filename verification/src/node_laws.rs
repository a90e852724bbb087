//! What every step of a node keeps: what it has to remember is durable before it
//! speaks.
use crate::config::NodeName;
use crate::message::{Packet, Wire};
use crate::node::{Answer, Happening, NodeModel, Phase, Then};
use crate::paxos_laws::{
    every_event_keeps_order, every_event_keeps_the_mirror, every_event_moves_one_slot, mirrored,
    recovery_is_in_order, saving_keeps_the_mirror, PaxosEvent,
};
use crate::paxos_model::PaxosState;
use crate::protocol::Engine;
use crate::raft_laws::Event;
use crate::raft_model::{capped, higher_of, highest, written};
use crate::random::timeout_allowed;
use crate::storage::PaxosStored;
use vstd::prelude::*;

verus! {

impl<T> Engine<T> {
    /// Whether the storage holds everything that the node has to remember.
    pub open spec fn durable(self) -> bool {
        match self {
            Engine::Paxos { state, stored } => {
                &&& state.tidy()
                &&& mirrored(state, stored)
                &&& state.dirty == Seq::<u64>::empty()
            },
            Engine::Raft { state, stored } => state.clean() && state.mirrored_by(stored),
        }
    }

    /// The log fits a machine's memory.
    pub open spec fn fits(self) -> bool {
        self matches Engine::Raft { state, .. } ==> state.log.len() <= u64::MAX
    }

    /// Whether writing what is marked makes everything durable.
    pub open spec fn writable(self) -> bool {
        match self {
            Engine::Paxos { state, stored } => state.tidy() && mirrored(state, stored),
            Engine::Raft { state, stored } => state.mirrored_by(
                written(stored, state.persist_intent()),
            ),
        }
    }
}

/// Retries concern their own slots, and keep order and the mirror.
proof fn lemma_retries<T>(
    s: PaxosState<T>,
    stored: PaxosStored<T>,
    plan: Seq<(u64, u64)>,
    now: u64,
)
    requires
        s.tidy(),
        mirrored(s, stored),
        forall|i: int, j: int| 0 <= i < j < plan.len() ==> plan[i].0 != plan[j].0,
        forall|i: int|
            0 <= i < plan.len() ==> s.instances.contains_key((#[trigger] plan[i]).0)
                && s.can_retry(plan[i].0),
    ensures
        s.retried(plan, now).0.tidy(),
        mirrored(s.retried(plan, now).0, stored),
        forall|slot: u64|
            s.instances.contains_key(slot) && (forall|i: int|
                0 <= i < plan.len() ==> (#[trigger] plan[i]).0 != slot) ==> #[trigger] s.retried(
                plan,
                now,
            ).0.instances.contains_key(slot) && s.retried(plan, now).0.instances[slot]
                == s.instances[slot],
    decreases plan.len(),
{
    if plan.len() > 0 {
        let rest = plan.drop_last();
        assert forall|i: int| 0 <= i < rest.len() implies s.instances.contains_key(
            (#[trigger] rest[i]).0,
        ) && s.can_retry(rest[i].0) by {
            assert(plan[i] == rest[i]);
        }
        lemma_retries(s, stored, rest, now);
        let (slot, jitter) = plan.last();
        assert(plan[plan.len() - 1] == plan.last());
        let m = s.retried(rest, now).0;
        assert forall|i: int| 0 <= i < rest.len() implies (#[trigger] rest[i]).0 != slot by {
            assert(plan[i].0 != plan[plan.len() - 1].0);
        }
        assert(m.instances.contains_key(slot));
        let event = PaxosEvent::<T>::Retry { slot, now, jitter };
        assert(m.allows(event));
        every_event_moves_one_slot(m, event);
        every_event_keeps_order(m, event);
        every_event_keeps_the_mirror(m, stored, event);
        let t = s.retried(plan, now).0;
        assert(t == m.after_event(event));
        assert forall|x: u64|
            s.instances.contains_key(x) && (forall|i: int|
                0 <= i < plan.len() ==> (#[trigger] plan[i]).0 != x) implies #[trigger]
        t.instances.contains_key(x) && t.instances[x] == s.instances[x] by {
            assert forall|i: int| 0 <= i < rest.len() implies (#[trigger] rest[i]).0 != x by {
                assert(plan[i].0 != x);
            }
            assert(m.instances.contains_key(x));
            assert(plan[plan.len() - 1].0 != x);
        }
    }
}

/// A proposal is taken in.
proof fn lemma_proposal_writable<T>(
    e: Engine<T>,
    value: T,
    now: u64,
    mid: Engine<T>,
    out: Seq<Packet<Wire<T>>>,
)
    requires
        e.durable(),
        e.fits(),
        e.can_propose(),
        e.proposes(value, now, mid, out),
        mid.fits(),
    ensures
        mid.writable(),
{
    match (e, mid) {
        (Engine::Paxos { state, stored }, Engine::Paxos { state: t, stored: u }) => {
            let jitter = choose|jitter: u64|
                jitter <= 50 && t == (#[trigger] state.propose(value, now, jitter)).0;
            let event = PaxosEvent::Propose { value, now, jitter };
            every_event_keeps_order(state, event);
            every_event_keeps_the_mirror(state, stored, event);
        },
        (Engine::Raft { state, stored }, Engine::Raft { state: t, stored: u }) => {
            crate::raft_laws::flushing_keeps_the_mirror(
                state,
                stored,
                Event::Propose { value, now },
            );
        },
        _ => {},
    }
}

/// A message is handled.
proof fn lemma_message_writable<T>(
    e: Engine<T>,
    from: NodeName,
    message: Wire<T>,
    now: u64,
    mid: Engine<T>,
    out: Seq<Packet<Wire<T>>>,
)
    requires
        e.durable(),
        e.fits(),
        e.can_receive(from, message),
        e.receives(from, message, now, mid, out),
        mid.fits(),
    ensures
        mid.writable(),
{
    match (e, message, mid) {
        (
            Engine::Paxos { state, stored },
            Wire::Paxos(m),
            Engine::Paxos { state: t, stored: u },
        ) => {
            let jitter = choose|jitter: u64|
                jitter <= state.nack_delay(m) / 2 && t == (#[trigger] state.receive(
                    from,
                    m,
                    now,
                    jitter,
                )).0;
            let event = PaxosEvent::Receive { from, message: m, now, jitter };
            every_event_keeps_order(state, event);
            every_event_keeps_the_mirror(state, stored, event);
        },
        (Engine::Raft { state, stored }, Wire::Raft(m), Engine::Raft { state: t, stored: u }) => {
            let timeout = choose|timeout: u64| #[trigger]
                timeout_allowed(state.config, timeout) && t == state.receive(
                    from,
                    m,
                    now,
                    timeout,
                ).0;
            crate::raft_laws::flushing_keeps_the_mirror(
                state,
                stored,
                Event::Receive { from, message: m, now, timeout },
            );
        },
        _ => {},
    }
}

/// Time passes.
proof fn lemma_tick_writable<T>(
    e: Engine<T>,
    now: u64,
    mid: Engine<T>,
    out: Seq<Packet<Wire<T>>>,
)
    requires
        e.durable(),
        e.fits(),
        e.can_tick(now),
        e.ticks(now, mid, out),
        mid.fits(),
    ensures
        mid.writable(),
{
    match (e, mid) {
        (Engine::Paxos { state, stored }, Engine::Paxos { state: t, stored: u }) => {
            let plan = choose|plan: Seq<(u64, u64)>| #[trigger]
                state.plans(plan, now) && t == state.ticked(plan, now).0;
            assert forall|i: int| 0 <= i < plan.len() implies state.instances.contains_key(
                (#[trigger] plan[i]).0,
            ) && state.can_retry(plan[i].0) by {
                assert(state.is_due(plan[i].0, now));
            }
            lemma_retries(state, stored, plan, now);
            let m = state.retried(plan, now).0;
            assert(t.dirty == m.dirty);
            assert forall|slot: u64| #[trigger] stored.acceptors.contains_key(slot) implies t.known(
                slot,
            ) by {
                assert(m.known(slot));
            }
            assert(t.next_slot == 0 || t.known((t.next_slot - 1) as u64)) by {
                assert(m.next_slot == 0 || m.known((m.next_slot - 1) as u64));
            }
            assert(t.tidy());
            assert(mirrored(t, stored));
        },
        (Engine::Raft { state, stored }, Engine::Raft { state: t, stored: u }) => {
            let timeout = choose|timeout: u64| #[trigger]
                timeout_allowed(state.config, timeout) && t == state.tick(now, timeout).0;
            crate::raft_laws::flushing_keeps_the_mirror(
                state,
                stored,
                Event::Tick { now, timeout },
            );
        },
        _ => {},
    }
}

/// Once what is marked is written, everything is durable.
proof fn lemma_flush_durable<T>(mid: Engine<T>, after: Engine<T>)
    requires
        mid.writable(),
        mid.flushes(after, true),
    ensures
        after.durable(),
{
    match (mid, after) {
        (Engine::Paxos { state, stored }, Engine::Paxos { state: t, stored: u }) => {
            crate::paxos_laws::flushing_keeps_the_mirror(state, stored);
            assert(t.next_slot == 0 || t.known((t.next_slot - 1) as u64)) by {
                assert(state.next_slot == 0 || state.known((state.next_slot - 1) as u64));
            }
            assert(t.tidy());
        },
        _ => {},
    }
}

/// Once the decisions at hand are saved, everything is durable still.
proof fn lemma_drain_durable<T>(before: Engine<T>, after: Engine<T>)
    requires
        before.durable(),
        before.drains(after, true),
    ensures
        after.durable(),
        after.waiting() == Seq::<(u64, T)>::empty(),
{
    match (before, after) {
        (Engine::Paxos { state, stored }, Engine::Paxos { state: t, stored: u }) => {
            let all = state.pending_decisions;
            saving_keeps_the_mirror(state, stored, all.len() as int);
            assert(all.skip(all.len() as int) =~= Seq::empty());
            assert(all.take(all.len() as int) =~= all);
            assert(t.next_slot == 0 || t.known((t.next_slot - 1) as u64)) by {
                assert(state.next_slot == 0 || state.known((state.next_slot - 1) as u64));
            }
            assert(t.tidy());
        },
        _ => {},
    }
}

/// Taking lost proposals leaves what is durable durable.
proof fn lemma_lost_durable<T>(e: Engine<T>)
    requires
        e.durable(),
    ensures
        e.without_lost().durable(),
        e.without_lost().can_propose() == e.can_propose(),
{
    match e {
        Engine::Paxos { state, stored } => {
            let t = PaxosState { lost: Seq::<T>::empty(), ..state };
            assert forall|slot: u64| #[trigger] stored.acceptors.contains_key(slot) implies t.known(
                slot,
            ) by {
                assert(state.known(slot));
            }
            assert(t.next_slot == 0 || t.known((t.next_slot - 1) as u64)) by {
                assert(state.next_slot == 0 || state.known((state.next_slot - 1) as u64));
            }
            assert(t.tidy());
            assert(mirrored(t, stored));
        },
        _ => {},
    }
}

/// A proposal that is handed out is durable.
proof fn lemma_proposes_durable<T>(
    n: NodeModel<T>,
    value: T,
    now: u64,
    then: Then,
    after: NodeModel<T>,
    answer: Answer<T>,
)
    requires
        n.engine.durable(),
        n.engine.fits(),
        n.engine.can_propose(),
        n.proposes(value, now, then, after, answer),
        after.engine.fits(),
        !(answer is StorageFailed),
    ensures
        after.engine.durable(),
{
    let (mid, out) = choose|mid: Engine<T>, out: Seq<Packet<Wire<T>>>| #[trigger]
        n.engine.proposes(value, now, mid, out) && n.hands_out(mid, out, then, after, answer);
    lemma_proposal_writable(n.engine, value, now, mid, out);
    lemma_flush_durable(mid, after.engine);
}

/// Durability before send: as long as the storage does not fail, everything a
/// node has to remember is in its storage whenever it hands out messages or
/// decisions, waits or stops. And once it hands out decisions, none is left to be
/// saved.
pub proof fn durable_before_it_speaks<T>(
    n: NodeModel<T>,
    event: Happening<T>,
    now: u64,
    after: NodeModel<T>,
    answer: Answer<T>,
)
    requires
        n.engine.durable(),
        n.engine.fits(),
        after.engine.fits(),
        n.takes(event, now),
        n.steps(event, now, after, answer),
        !(answer is StorageFailed),
    ensures
        after.engine.durable(),
        answer is Deliver ==> after.engine.waiting() == Seq::<(u64, T)>::empty(),
{
    match event {
        Happening::Proposal(value) => {
            lemma_proposes_durable(n, value, now, Then::Wait, after, answer);
        },
        Happening::Incoming { from, message } => {
            let (mid, out) = choose|mid: Engine<T>, out: Seq<Packet<Wire<T>>>| #[trigger]
                n.engine.receives(from, message, now, mid, out) && n.hands_out(
                    mid,
                    out,
                    Then::TakeLost,
                    after,
                    answer,
                );
            lemma_message_writable(n.engine, from, message, now, mid, out);
            lemma_flush_durable(mid, after.engine);
        },
        Happening::Tick => {
            let (mid, out) = choose|mid: Engine<T>, out: Seq<Packet<Wire<T>>>| #[trigger]
                n.engine.ticks(now, mid, out) && n.hands_out(mid, out, Then::Wait, after, answer);
            lemma_tick_writable(n.engine, now, mid, out);
            lemma_flush_durable(mid, after.engine);
        },
        Happening::Done => match n.phase {
            Phase::Sending { then } => {
                lemma_drain_durable(n.engine, after.engine);
            },
            Phase::Delivering { then } => {
                let m = match then {
                    Then::TakeLost => NodeModel {
                        engine: n.engine.without_lost(),
                        lost: n.engine.lost(),
                        ..n
                    },
                    _ => n,
                };
                lemma_lost_durable(n.engine);
                if then != Then::Wait && m.lost.len() > 0 {
                    lemma_proposes_durable(
                        NodeModel { lost: m.lost.drop_first(), ..m },
                        m.lost[0],
                        now,
                        Then::NextLost,
                        after,
                        answer,
                    );
                }
            },
            _ => {},
        },
        _ => {},
    }
}

/// A node that starts from a storage finds everything it has to remember there:
/// a Multi-Paxos node from any storage, a Raft node from one whose commit index
/// lies within the log and not below the highest decision.
pub proof fn durable_from_the_start<T>(e: Engine<T>, now: u64, after: Engine<T>)
    requires
        e.recovers(now, after),
        e matches Engine::Paxos { state, .. } ==> exists|id: NodeName, total: usize|
            state == #[trigger] PaxosState::<T>::initial(id, total),
        e matches Engine::Raft { stored, .. } ==> capped(
            higher_of(stored.commit_index, highest(stored.decisions.dom())),
            stored.log,
        ) == stored.commit_index,
    ensures
        after.durable(),
{
    match (e, after) {
        (Engine::Paxos { state, stored }, Engine::Paxos { state: t, stored: u }) => {
            let (id, total) = choose|id: NodeName, total: usize|
                state == #[trigger] PaxosState::<T>::initial(id, total);
            recovery_is_in_order(id, total, stored, t);
        },
        _ => {},
    }
}

impl<T> NodeModel<T> {
    /// Whether proposals are held back only while they are made again one by one.
    pub open spec fn holds_back_rightly(self) -> bool {
        self.lost.len() > 0 ==> match self.phase {
            Phase::Sending { then } => then == Then::NextLost,
            Phase::Delivering { then } => then == Then::NextLost,
            Phase::Waiting => false,
            Phase::Stopped => true,
        }
    }
}

/// No lost proposal is forgotten: once the decisions of a message are delivered,
/// the node takes all proposals that lost their slot and makes the first of them
/// again, then the next, until none is left; only then does it wait for another
/// event.
pub proof fn lost_proposals_are_made_again<T>(
    n: NodeModel<T>,
    event: Happening<T>,
    now: u64,
    after: NodeModel<T>,
    answer: Answer<T>,
)
    requires
        n.holds_back_rightly(),
        n.takes(event, now),
        n.steps(event, now, after, answer),
    ensures
        after.holds_back_rightly(),
        event is Incoming ==> after.phase == (Phase::Sending { then: Then::TakeLost }) || answer
            is StorageFailed,
        n.phase == (Phase::Sending { then: Then::TakeLost }) ==> after.phase == (
        Phase::Delivering { then: Then::TakeLost }) || answer is StorageFailed,
        n.phase == (Phase::Delivering { then: Then::TakeLost }) && n.engine.lost().len() > 0 ==> (
        NodeModel {
            engine: n.engine.without_lost(),
            lost: n.engine.lost().drop_first(),
            ..n
        }).proposes(n.engine.lost()[0], now, Then::NextLost, after, answer) && after.lost
            == n.engine.lost().drop_first(),
        n.phase == (Phase::Delivering { then: Then::NextLost }) && n.lost.len() > 0 ==> (NodeModel {
            lost: n.lost.drop_first(),
            ..n
        }).proposes(n.lost[0], now, Then::NextLost, after, answer) && after.lost
            == n.lost.drop_first(),
{
}

} // verus!
