//! A Multi-Paxos node together with the storage it persists to.
use crate::config::NodeId;
use crate::error::StorageError;
use crate::message::{decided, packets, Ballot, Decision, MessageVariant, Outgoing, ProposalNumber};
use crate::paxos::{acceptor_views, state_views, ProtocolState};
use crate::paxos_model::{
    backoff, changed_states, decide_broadcasts, quiet, still_recent, with_acceptors, with_decisions,
    Instance, PaxosState, PaxosStep,
};
use crate::storage::{
    copy_accepted, copy_number_opt, flush_fails, lists, lists_acceptors, load_fails, same_but_for,
    save_fails, Acceptor, AcceptorState, PaxosStored, Storage,
};
use crate::value::{opt, views, Value};
use vstd::prelude::*;

verus! {

/// A Multi-Paxos node and its storage.
pub struct PaxosProtocol<V, S> {
    pub state: ProtocolState<V>,
    pub storage: S,
}

/// Acceptor states after changes were written, in order.
pub open spec fn noted<T>(
    acceptors: Map<u64, Acceptor<T>>,
    changes: Seq<(u64, Option<Ballot>, Option<(Ballot, T)>)>,
) -> Map<u64, Acceptor<T>>
    decreases changes.len(),
{
    if changes.len() == 0 {
        acceptors
    } else {
        let (slot, promised, accepted) = changes.last();
        noted(acceptors, changes.drop_last()).insert(slot, Acceptor { promised, accepted })
    }
}

/// A storage after decisions were saved: each also ends the acceptor state of
/// its slot.
pub open spec fn concluded<T>(stored: PaxosStored<T>, decisions: Seq<(u64, T)>) -> PaxosStored<T>
    decreases decisions.len(),
{
    if decisions.len() == 0 {
        stored
    } else {
        let before = concluded(stored, decisions.drop_last());
        let (slot, value) = decisions.last();
        PaxosStored {
            decisions: before.decisions.insert(slot, value),
            acceptors: before.acceptors.remove(slot),
        }
    }
}

/// A storage in which the write after the first `count` of a list of changes
/// failed: what it holds of that slot's acceptor is open, and nothing else.
pub open spec fn noting_stops<T>(
    stored: PaxosStored<T>,
    changes: Seq<(u64, Option<Ballot>, Option<(Ballot, T)>)>,
    count: int,
    after: PaxosStored<T>,
) -> bool {
    let done = PaxosStored { acceptors: noted(stored.acceptors, changes.take(count)), ..stored };
    &&& 0 <= count < changes.len()
    &&& after.decisions == stored.decisions
    &&& same_but_for(done, after, changes[count].0)
}

/// A storage in which the save after the first `count` of a list of decisions
/// failed: what it holds of that slot is open, and nothing else.
pub open spec fn concluding_stops<T>(
    stored: PaxosStored<T>,
    decisions: Seq<(u64, T)>,
    count: int,
    after: PaxosStored<T>,
) -> bool {
    &&& 0 <= count < decisions.len()
    &&& same_but_for(concluded(stored, decisions.take(count)), after, decisions[count].0)
}

/// A storage in which one of a list of changes could not be written.
pub open spec fn noting_failed<T>(
    stored: PaxosStored<T>,
    changes: Seq<(u64, Option<Ballot>, Option<(Ballot, T)>)>,
    after: PaxosStored<T>,
) -> bool {
    exists|count: int| #[trigger] noting_stops(stored, changes, count, after)
}

/// A storage in which one of a list of decisions could not be saved.
pub open spec fn concluding_failed<T>(
    stored: PaxosStored<T>,
    decisions: Seq<(u64, T)>,
    after: PaxosStored<T>,
) -> bool {
    exists|count: int| #[trigger] concluding_stops(stored, decisions, count, after)
}

/// Whether `n` is the lowest slot that is not below `next` and lies behind every
/// one of `slots`.
pub open spec fn is_behind(next: u64, slots: Set<u64>, n: u64) -> bool {
    &&& next <= n
    &&& forall|slot: u64| #[trigger] slots.contains(slot) ==> slot < n
    &&& n == next || slots.contains((n - 1) as u64)
}

/// The slots with an acceptor state that are not decided.
pub open spec fn open_slots<T>(stored: PaxosStored<T>, decided: Map<u64, T>) -> Set<u64> {
    Set::new(|t: u64| stored.acceptors.contains_key(t) && !decided.contains_key(t))
}

impl<T> PaxosState<T> {
    /// Whether `after` is this state once a storage was loaded into it: its
    /// decisions, the acceptor states of the slots not decided, and a next slot
    /// behind all of them.
    pub open spec fn recovers(self, stored: PaxosStored<T>, after: PaxosState<T>) -> bool {
        let decided = self.decided.union_prefer_right(stored.decisions);
        let open = open_slots(stored, decided);
        &&& after == (PaxosState {
            decided,
            instances: after.instances,
            next_slot: after.next_slot,
            ..self
        })
        &&& after.instances.dom() == self.instances.dom().union(open)
        &&& forall|t: u64| #[trigger]
            after.instances.contains_key(t) ==> after.instances[t] == (if open.contains(t) {
                Instance {
                    promised: stored.acceptors[t].promised,
                    accepted: stored.acceptors[t].accepted,
                    ..self.instance(t)
                }
            } else {
                self.instances[t]
            })
        &&& is_behind(self.next_slot, stored.decisions.dom().union(open), after.next_slot)
    }

    /// Try proposals again, each with its jitter, in this order.
    pub open spec fn retried(self, plan: Seq<(u64, u64)>, now: u64) -> PaxosStep<T>
        decreases plan.len(),
    {
        if plan.len() == 0 {
            (self, quiet())
        } else {
            let (s, out) = self.retried(plan.drop_last(), now);
            let (t, more) = s.retry(plan.last().0, now, plan.last().1);
            (t, out + more)
        }
    }

    /// Whether a plan names every proposal that is due once, each with a jitter
    /// of at most half the delay of its next round.
    pub open spec fn plans(self, plan: Seq<(u64, u64)>, now: u64) -> bool {
        &&& forall|i: int, j: int| 0 <= i < j < plan.len() ==> plan[i].0 != plan[j].0
        &&& forall|i: int|
            0 <= i < plan.len() ==> self.is_due((#[trigger] plan[i]).0, now) && plan[i].1 <= backoff(
                (self.instances[plan[i].0].retry_count + 1) as u32,
            ) / 2
        &&& forall|slot: u64| #[trigger]
            self.is_due(slot, now) ==> exists|i: int| 0 <= i < plan.len() && plan[i].0 == slot
    }

    /// Whether the proposal of a slot is due for another round.
    pub open spec fn is_due(self, slot: u64, now: u64) -> bool {
        self.instances.contains_key(slot) && self.instances[slot].retryable(self.quorum, now)
    }

    /// Let time pass: retry what is due, then send the recent decisions again.
    pub open spec fn ticked(self, plan: Seq<(u64, u64)>, now: u64) -> PaxosStep<T> {
        let (s, out) = self.retried(plan, now);
        let recent = still_recent(s.recent, now);
        (PaxosState { recent, ..s }, out + decide_broadcasts(recent))
    }

    /// Whether everything that is due can be retried.
    pub open spec fn can_tick(self, now: u64) -> bool {
        forall|slot: u64| #[trigger] self.is_due(slot, now) ==> self.can_retry(slot)
    }
}

/// The slots of a list of pairs.
spec fn firsts<A>(pairs: Seq<(u64, A)>) -> Set<u64> {
    Set::new(|t: u64| exists|i: int| 0 <= i < pairs.len() && (#[trigger] pairs[i]).0 == t)
}

/// Loading decisions adds each of them, and the next slot lies behind all.
proof fn lemma_with_decisions<T>(s: PaxosState<T>, pairs: Seq<(u64, T)>)
    requires
        forall|i: int| 0 <= i < pairs.len() ==> (#[trigger] pairs[i]).0 < u64::MAX,
        forall|i: int, j: int| 0 <= i < j < pairs.len() ==> pairs[i].0 != pairs[j].0,
    ensures
        ({
            let t = with_decisions(s, pairs);
            &&& t == (PaxosState { decided: t.decided, next_slot: t.next_slot, ..s })
            &&& t.decided.dom() == s.decided.dom().union(firsts(pairs))
            &&& forall|i: int|
                0 <= i < pairs.len() ==> t.decided[(#[trigger] pairs[i]).0] == pairs[i].1
            &&& forall|slot: u64|
                s.decided.contains_key(slot) && !firsts(pairs).contains(slot)
                    ==> #[trigger] t.decided[slot] == s.decided[slot]
            &&& is_behind(s.next_slot, firsts(pairs), t.next_slot)
        }),
    decreases pairs.len(),
{
    let t = with_decisions(s, pairs);
    if pairs.len() == 0 {
        assert(firsts(pairs) =~= Set::empty());
        assert(t.decided.dom() =~= s.decided.dom().union(firsts(pairs)));
    } else {
        let rest = pairs.drop_last();
        lemma_with_decisions(s, rest);
        assert forall|x: u64| firsts(pairs).contains(x) == firsts(rest).insert(
            pairs.last().0,
        ).contains(x) by {
            if firsts(rest).contains(x) {
                let i = choose|i: int| 0 <= i < rest.len() && (#[trigger] rest[i]).0 == x;
                assert(pairs[i].0 == x);
            }
            if x == pairs.last().0 {
                assert(pairs[pairs.len() - 1].0 == x);
            }
            if firsts(pairs).contains(x) && x != pairs.last().0 {
                let i = choose|i: int| 0 <= i < pairs.len() && (#[trigger] pairs[i]).0 == x;
                assert(rest[i].0 == x);
            }
        }
        assert(firsts(pairs) =~= firsts(rest).insert(pairs.last().0));
        assert(t.decided.dom() =~= s.decided.dom().union(firsts(pairs)));
        assert forall|i: int| 0 <= i < pairs.len() implies t.decided[(#[trigger] pairs[i]).0]
            == pairs[i].1 by {
            if i < rest.len() {
                assert(rest[i] == pairs[i]);
            }
        }
    }
}

/// Loading acceptor states adds those of the slots not decided.
proof fn lemma_with_acceptors<T>(
    s: PaxosState<T>,
    states: Seq<(u64, Option<Ballot>, Option<(Ballot, T)>)>,
)
    requires
        forall|i: int| 0 <= i < states.len() ==> (#[trigger] states[i]).0 < u64::MAX,
        forall|i: int, j: int| 0 <= i < j < states.len() ==> states[i].0 != states[j].0,
    ensures
        ({
            let t = with_acceptors(s, states);
            let open = loaded(s, states);
            &&& t == (PaxosState { instances: t.instances, next_slot: t.next_slot, ..s })
            &&& t.instances.dom() == s.instances.dom().union(open)
            &&& forall|i: int|
                0 <= i < states.len() && open.contains((#[trigger] states[i]).0)
                    ==> t.instances[states[i].0] == (Instance {
                    promised: states[i].1,
                    accepted: states[i].2,
                    ..s.instance(states[i].0)
                })
            &&& forall|slot: u64|
                s.instances.contains_key(slot) && !open.contains(slot)
                    ==> #[trigger] t.instances[slot] == s.instances[slot]
            &&& is_behind(s.next_slot, open, t.next_slot)
        }),
    decreases states.len(),
{
    let t = with_acceptors(s, states);
    let open = loaded(s, states);
    if states.len() == 0 {
        assert(open =~= Set::empty());
        assert(t.instances.dom() =~= s.instances.dom().union(open));
    } else {
        let rest = states.drop_last();
        let before = with_acceptors(s, rest);
        let last = states.last();
        lemma_with_acceptors(s, rest);
        assert forall|x: u64|
            open.contains(x) == (loaded(s, rest).contains(x) || (x == last.0
                && !s.decided.contains_key(x))) by {
            if loaded(s, rest).contains(x) {
                let i = choose|i: int| 0 <= i < rest.len() && (#[trigger] rest[i]).0 == x;
                assert(states[i].0 == x);
            }
            if x == last.0 {
                assert(states[states.len() - 1].0 == x);
            }
            if open.contains(x) && x != last.0 {
                let i = choose|i: int| 0 <= i < states.len() && (#[trigger] states[i]).0 == x;
                assert(rest[i].0 == x);
            }
        }
        assert(!loaded(s, rest).contains(last.0)) by {
            if loaded(s, rest).contains(last.0) {
                let i = choose|i: int| 0 <= i < rest.len() && (#[trigger] rest[i]).0 == last.0;
                assert(states[i].0 == states[states.len() - 1].0);
            }
        }
        assert(t.instances.dom() =~= s.instances.dom().union(open));
        assert(before.instances.contains_key(last.0) == s.instances.contains_key(last.0)) by {
            assert(before.instances.dom().contains(last.0) == s.instances.dom().union(
                loaded(s, rest),
            ).contains(last.0));
        }
        if s.instances.contains_key(last.0) {
            assert(before.instances[last.0] == s.instances[last.0]);
        }
        assert(before.instance(last.0) == s.instance(last.0));
        assert forall|i: int|
            0 <= i < states.len() && open.contains((#[trigger] states[i]).0) implies
            t.instances[states[i].0] == (Instance {
            promised: states[i].1,
            accepted: states[i].2,
            ..s.instance(states[i].0)
        }) by {
            if i < rest.len() {
                assert(rest[i] == states[i]);
                assert(states[i].0 != states[states.len() - 1].0);
                assert(loaded(s, rest).contains(rest[i].0));
            }
        }
    }
}

/// The slots of acceptor states that are not decided.
spec fn loaded<T>(
    s: PaxosState<T>,
    states: Seq<(u64, Option<Ballot>, Option<(Ballot, T)>)>,
) -> Set<u64> {
    Set::new(
        |t: u64|
            !s.decided.contains_key(t) && exists|i: int|
                0 <= i < states.len() && (#[trigger] states[i]).0 == t,
    )
}

/// Loading a listed storage is recovery.
proof fn lemma_recovers<V: Value>(
    s: PaxosState<V::V>,
    stored: PaxosStored<V::V>,
    pairs: Seq<(u64, V)>,
    states: Seq<AcceptorState<V>>,
)
    requires
        lists(pairs, stored.decisions),
        lists_acceptors(states, stored.acceptors),
        forall|i: int| 0 <= i < pairs.len() ==> (#[trigger] pairs[i]).0 < u64::MAX,
        forall|i: int| 0 <= i < states.len() ==> (#[trigger] states[i]).slot < u64::MAX,
    ensures
        s.recovers(
            stored,
            with_acceptors(with_decisions(s, views(pairs)), state_views(states)),
        ),
{
    let p = views(pairs);
    let q = state_views(states);
    let m = with_decisions(s, p);
    let t = with_acceptors(m, q);
    lemma_with_decisions(s, p);
    lemma_with_acceptors(m, q);
    assert forall|x: u64| firsts(p).contains(x) == stored.decisions.dom().contains(x) by {
        if firsts(p).contains(x) {
            let i = choose|i: int| 0 <= i < p.len() && (#[trigger] p[i]).0 == x;
            assert(stored.decisions.contains_key(pairs[i].0));
        }
        if stored.decisions.contains_key(x) {
            let i = choose|i: int| 0 <= i < pairs.len() && pairs[i].0 == x;
            assert(p[i].0 == x);
        }
    }
    assert(firsts(p) =~= stored.decisions.dom());
    let decided = s.decided.union_prefer_right(stored.decisions);
    assert forall|x: u64| decided.contains_key(x) implies #[trigger] m.decided[x] == decided[x] by {
        if stored.decisions.contains_key(x) {
            let i = choose|i: int| 0 <= i < pairs.len() && pairs[i].0 == x;
            assert(stored.decisions.contains_key(pairs[i].0));
            assert(p[i].0 == x);
        }
    }
    assert(m.decided =~= decided);
    let open = open_slots(stored, decided);
    assert forall|x: u64| loaded(m, q).contains(x) == open.contains(x) by {
        if loaded(m, q).contains(x) {
            let i = choose|i: int| 0 <= i < q.len() && (#[trigger] q[i]).0 == x;
            assert(stored.acceptors.contains_key(states[i].slot));
        }
        if open.contains(x) {
            assert(stored.acceptors.contains_key(x));
            let i = choose|i: int| 0 <= i < states.len() && states[i].slot == x;
            assert(q[i].0 == x);
        }
    }
    assert(loaded(m, q) =~= open);
    assert forall|x: u64| #[trigger] t.instances.contains_key(x) implies t.instances[x] == (
    if open.contains(x) {
        Instance {
            promised: stored.acceptors[x].promised,
            accepted: stored.acceptors[x].accepted,
            ..s.instance(x)
        }
    } else {
        s.instances[x]
    }) by {
        assert(t.instances.dom().contains(x));
        if open.contains(x) {
            assert(stored.acceptors.contains_key(x));
            let i = choose|i: int| 0 <= i < states.len() && states[i].slot == x;
            assert(stored.acceptors.contains_key(states[i].slot));
            assert(q[i].0 == x);
            assert(q[i] == (x, opt(states[i].highest_promised), opt(states[i].accepted)));
        }
    }
}

impl<V: Value, S: Storage<V>> PaxosProtocol<V, S> {
    /// The protocol state is well-formed.
    pub open spec fn wf(&self) -> bool {
        self.state.wf()
    }

    /// Creates a node that knows nothing, in a cluster of `total_nodes`.
    pub fn new(node_id: NodeId, total_nodes: usize, storage: S) -> (protocol: Self)
        ensures
            protocol.wf(),
            protocol.state@ == PaxosState::<V::V>::initial(node_id@, total_nodes),
            protocol.storage == storage,
    {
        PaxosProtocol { state: ProtocolState::new(node_id, total_nodes), storage }
    }

    /// Whether what is persisted can be loaded: no slot is the last number there
    /// is. The only failure is that of a load.
    pub fn can_recover(&self) -> (r: Result<bool, StorageError>)
        ensures
            r matches Ok(yes) ==> yes == (!self.storage.stored().decisions.contains_key(u64::MAX)
                && !self.storage.stored().acceptors.contains_key(u64::MAX)),
            r matches Err(e) ==> load_fails::<V, S>(self.storage, e),
    {
        let decisions: Vec<(u64, V)> = match self.storage.load_decisions() {
            Ok(decisions) => decisions,
            Err(e) => return Err(e),
        };
        let states: Vec<AcceptorState<V>> = match self.storage.load_acceptor_states() {
            Ok(states) => states,
            Err(e) => return Err(e),
        };
        let mut i: usize = 0;
        while i < decisions.len()
            invariant
                i <= decisions.len(),
                lists(decisions@, self.storage.stored().decisions),
                forall|k: int| 0 <= k < i ==> (#[trigger] decisions[k]).0 != u64::MAX,
            decreases decisions.len() - i,
        {
            if decisions[i].0 == u64::MAX {
                assert(self.storage.stored().decisions.contains_key(decisions[i as int].0));
                return Ok(false);
            }
            i += 1;
        }
        let mut j: usize = 0;
        while j < states.len()
            invariant
                j <= states.len(),
                lists_acceptors(states@, self.storage.stored().acceptors),
                forall|k: int| 0 <= k < j ==> (#[trigger] states[k]).slot != u64::MAX,
            decreases states.len() - j,
        {
            if states[j].slot == u64::MAX {
                assert(self.storage.stored().acceptors.contains_key(states[j as int].slot));
                return Ok(false);
            }
            j += 1;
        }
        Ok(true)
    }

    /// Loads the persisted decisions and acceptor states. Where a load fails,
    /// its error is returned and the state stays as it was; there is no other
    /// failure. Slots end with the last number there is.
    pub fn recover(&mut self) -> (r: Result<(), StorageError>)
        requires
            old(self).wf(),
            !old(self).storage.stored().decisions.contains_key(u64::MAX),
            !old(self).storage.stored().acceptors.contains_key(u64::MAX),
        ensures
            final(self).wf(),
            final(self).storage == old(self).storage,
            r is Err ==> final(self).state@ == old(self).state@,
            r matches Err(e) ==> load_fails::<V, S>(old(self).storage, e),
            r is Ok ==> old(self).state@.recovers(
                old(self).storage.stored(),
                final(self).state@,
            ),
    {
        let decisions: Vec<(u64, V)> = match self.storage.load_decisions() {
            Ok(decisions) => decisions,
            Err(e) => return Err(e),
        };
        let states: Vec<AcceptorState<V>> = match self.storage.load_acceptor_states() {
            Ok(states) => states,
            Err(e) => return Err(e),
        };
        let ghost stored = self.storage.stored();
        assert forall|i: int| 0 <= i < decisions.len() implies (#[trigger] decisions[i]).0
            < u64::MAX by {
            assert(stored.decisions.contains_key(decisions[i].0));
        }
        assert forall|i: int| 0 <= i < states.len() implies (#[trigger] states[i]).slot
            < u64::MAX by {
            assert(stored.acceptors.contains_key(states[i].slot));
        }
        proof {
            lemma_recovers(self.state@, stored, decisions@, states@);
        }
        self.state.initialize_from_decisions(decisions);
        self.state.initialize_from_acceptor_states(states);
        Ok(())
    }

    /// Writes the acceptor states that changed, in the order of the changes. The
    /// only failure is that of a write; the writes before it are done then, and
    /// those after it are not.
    pub fn flush_persist(&mut self) -> (r: Result<(), StorageError>)
        requires
            old(self).wf(),
        ensures
            final(self).wf(),
            final(self).state@ == (PaxosState { dirty: Seq::empty(), ..old(self).state@ }),
            r is Ok ==> final(self).storage.stored() == (PaxosStored {
                acceptors: noted(
                    old(self).storage.stored().acceptors,
                    changed_states(old(self).state@.dirty, old(self).state@.instances),
                ),
                ..old(self).storage.stored()
            }),
            changed_states(old(self).state@.dirty, old(self).state@.instances).len() == 0 ==> r
                is Ok,
            r matches Err(e) ==> flush_fails::<V, S>(e),
            r is Err ==> noting_failed(
                old(self).storage.stored(),
                changed_states(old(self).state@.dirty, old(self).state@.instances),
                final(self).storage.stored(),
            ),
    {
        let states: Vec<(u64, Option<ProposalNumber>, Option<(ProposalNumber, V)>)> =
            self.state.take_dirty_acceptor_slots();
        let ghost changes = acceptor_views(states@);
        let ghost before = self.storage.stored();
        let mut k: usize = 0;
        assert(changes.take(0) =~= Seq::empty());
        while k < states.len()
            invariant
                k <= states.len(),
                changes == acceptor_views(states@),
                changes == changed_states(old(self).state@.dirty, old(self).state@.instances),
                before == old(self).storage.stored(),
                self.wf(),
                self.state@ == (PaxosState { dirty: Seq::empty(), ..old(self).state@ }),
                self.storage.stored() == (PaxosStored {
                    acceptors: noted(before.acceptors, changes.take(k as int)),
                    ..before
                }),
            decreases states.len() - k,
        {
            let slot: u64 = states[k].0;
            let highest_promised: Option<ProposalNumber> = copy_number_opt(&states[k].1);
            let accepted: Option<(ProposalNumber, V)> = copy_accepted(&states[k].2);
            proof {
                assert(changes[k as int] == (slot, opt(highest_promised), opt(accepted)));
                assert(changes.take(k + 1).drop_last() =~= changes.take(k as int));
                assert(changes.take(k + 1).last() == changes[k as int]);
            }
            match self.storage.save_acceptor_state(slot, highest_promised, accepted) {
                Ok(_) => {},
                Err(e) => {
                    assert(noting_stops(before, changes, k as int, self.storage.stored()));
                    return Err(e);
                },
            }
            k += 1;
        }
        assert(changes.take(k as int) =~= changes);
        Ok(())
    }

    /// Takes the decisions that are ready to be delivered, once each is saved. The
    /// only failure is that of a save; the saves before it are done then, and those
    /// after it are not.
    pub fn drain_decisions(&mut self) -> (r: Result<Vec<Decision<V>>, StorageError>)
        requires
            old(self).wf(),
        ensures
            final(self).wf(),
            final(self).state@ == (PaxosState {
                pending_decisions: Seq::empty(),
                ..old(self).state@
            }),
            r matches Ok(taken) ==> decided(taken@) == old(self).state@.pending_decisions,
            r is Ok ==> final(self).storage.stored() == concluded(
                old(self).storage.stored(),
                old(self).state@.pending_decisions,
            ),
            old(self).state@.pending_decisions.len() == 0 ==> r is Ok,
            r matches Err(e) ==> save_fails::<V, S>(e),
            r is Err ==> concluding_failed(
                old(self).storage.stored(),
                old(self).state@.pending_decisions,
                final(self).storage.stored(),
            ),
    {
        let decisions: Vec<Decision<V>> = self.state.take_decisions();
        let ghost all = decided(decisions@);
        let ghost before = self.storage.stored();
        let mut i: usize = 0;
        while i < decisions.len()
            invariant
                i <= decisions.len(),
                all == decided(decisions@),
                all == old(self).state@.pending_decisions,
                before == old(self).storage.stored(),
                self.wf(),
                self.state@ == (PaxosState { pending_decisions: Seq::empty(), ..old(self).state@ }),
                self.storage.stored() == concluded(before, all.take(i as int)),
            decreases decisions.len() - i,
        {
            let slot: u64 = decisions[i].slot;
            let value: V = decisions[i].value.copied();
            assert(all[i as int] == (slot, value@));
            match self.storage.save_decision(slot, value) {
                Ok(_) => {},
                Err(e) => {
                    assert(concluding_stops(before, all, i as int, self.storage.stored()));
                    return Err(e);
                },
            }
            proof {
                let more = all.take(i + 1);
                assert(more.drop_last() =~= all.take(i as int));
                assert(more.last() == all[i as int]);
            }
            i += 1;
        }
        assert(all.take(i as int) =~= all);
        Ok(decisions)
    }

    /// Whether everything that is due can be retried.
    pub fn can_tick(&self, now: u64) -> (r: bool)
        requires
            self.wf(),
        ensures
            r == self.state@.can_tick(now),
    {
        let due: Vec<u64> = self.state.get_retryable_proposals(now);
        let ghost s = self.state@;
        let mut k: usize = 0;
        while k < due.len()
            invariant
                k <= due.len(),
                self.wf(),
                s == self.state@,
                forall|slot: u64|
                    #![trigger due@.contains(slot)]
                    due@.contains(slot) <==> s.is_due(slot, now),
                forall|i: int| 0 <= i < k ==> s.can_retry(#[trigger] due[i]),
            decreases due.len() - k,
        {
            if !self.state.can_retry(due[k]) {
                assert(due@.contains(due[k as int]));
                return false;
            }
            k += 1;
        }
        assert forall|slot: u64| #[trigger] s.is_due(slot, now) implies s.can_retry(slot) by {
            assert(due@.contains(slot));
        }
        true
    }

    /// Lets time pass: every proposal that is due is tried again, and the recent
    /// decisions are sent again.
    pub fn on_tick(&mut self, now: u64) -> (out: Vec<Outgoing<MessageVariant<V>>>)
        requires
            old(self).wf(),
            old(self).state@.can_tick(now),
        ensures
            final(self).wf(),
            final(self).storage == old(self).storage,
            exists|plan: Seq<(u64, u64)>| #[trigger]
                old(self).state@.plans(plan, now) && (final(self).state@, packets(out@)) == old(
                    self,
                ).state@.ticked(plan, now),
    {
        let due: Vec<u64> = self.state.get_retryable_proposals(now);
        let mut out: Vec<Outgoing<MessageVariant<V>>> = Vec::new();
        let ghost start = self.state@;
        let ghost mut plan = Seq::<(u64, u64)>::empty();
        let mut k: usize = 0;
        assert forall|i: int| 0 <= i < due.len() implies start.is_due(#[trigger] due[i], now) by {
            assert(due@.contains(due[i]));
        }
        assert(packets(out@) =~= quiet());
        while k < due.len()
            invariant
                k <= due.len(),
                start == old(self).state@,
                start.can_tick(now),
                due@.no_duplicates(),
                forall|i: int| 0 <= i < due.len() ==> start.is_due(#[trigger] due[i], now),
                self.wf(),
                self.storage == old(self).storage,
                plan.len() == k,
                forall|i: int|
                    0 <= i < k ==> (#[trigger] plan[i]).0 == due[i] && plan[i].1 <= backoff(
                        (start.instances[due[i]].retry_count + 1) as u32,
                    ) / 2,
                forall|i: int|
                    k <= i < due.len() ==> self.state@.instances.contains_key(#[trigger] due[i])
                        && self.state@.instances[due[i]] == start.instances[due[i]],
                (self.state@, packets(out@)) == start.retried(plan, now),
            decreases due.len() - k,
        {
            let ghost before = self.state@;
            let ghost sent = packets(out@);
            let slot: u64 = due[k];
            assert(start.is_due(slot, now));
            assert(start.can_retry(slot));
            let mut more: Vec<Outgoing<MessageVariant<V>>> = self.state.retry_proposal(slot, now);
            let ghost jitter = choose|jitter: u64|
                jitter <= backoff((before.instance(slot).retry_count + 1) as u32) / 2 && (
                self.state@, packets(more@)) == #[trigger] before.retry(slot, now, jitter);
            let ghost added = packets(more@);
            out.append(&mut more);
            proof {
                let longer = plan.push((slot, jitter));
                assert(longer.drop_last() =~= plan);
                assert(packets(out@) =~= sent + added);
                plan = longer;
                assert forall|i: int| k + 1 <= i < due.len() implies
                    self.state@.instances.contains_key(#[trigger] due[i])
                    && self.state@.instances[due[i]] == start.instances[due[i]] by {
                    assert(due[i] != slot);
                    assert(before.instances.contains_key(due[i]));
                }
            }
            k += 1;
        }
        let mut again: Vec<Outgoing<MessageVariant<V>>> = self.state.get_decision_rebroadcasts(now);
        let ghost sent = packets(out@);
        let ghost added = packets(again@);
        out.append(&mut again);
        proof {
            assert(packets(out@) =~= sent + added);
            assert(start.plans(plan, now)) by {
                assert forall|i: int, j: int| 0 <= i < j < plan.len() implies plan[i].0
                    != plan[j].0 by {
                    assert(due[i] != due[j]);
                }
                assert forall|slot: u64| #[trigger] start.is_due(slot, now) implies exists|i: int|
                    0 <= i < plan.len() && plan[i].0 == slot by {
                    assert(due@.contains(slot));
                    let i = choose|i: int| 0 <= i < due.len() && due[i] == slot;
                    assert(plan[i].0 == slot);
                }
            }
        }
        out
    }
}

} // verus!
