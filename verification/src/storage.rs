//! Durable state: what a node writes before it speaks, and the in-memory
//! storages used in tests and ephemeral deployments.
use crate::collections::slots_of;
use crate::config::{copy_id, NodeId, NodeName};
use crate::error::StorageError;
use crate::message::{
    ballot_less, copy_entries, copy_number, entries_of, number_less, Ballot, Entry, LogEntry,
    ProposalNumber,
};
use crate::value::{opt, Value};
use std::collections::HashMap;
use vstd::prelude::*;

verus! {

broadcast use vstd::std_specs::hash::group_hash_axioms;

/// What an acceptor remembers of a slot: the highest proposal number it
/// promised, and the proposal it accepted last.
pub struct Acceptor<T> {
    pub promised: Option<Ballot>,
    pub accepted: Option<(Ballot, T)>,
}

/// Acceptor state for a single Paxos slot.
///
/// Captures the promises and accepted values that an acceptor must persist to
/// survive crashes. On recovery the node reloads these states to resume
/// participation in any in-progress slots.
#[derive(Clone, Debug, PartialEq)]
pub struct AcceptorState<V> {
    /// The slot this state belongs to.
    pub slot: u64,
    /// The highest proposal number this acceptor has promised not to accept
    /// proposals below, if any.
    pub highest_promised: Option<ProposalNumber>,
    /// The proposal number and value that this acceptor last accepted, if any.
    pub accepted: Option<(ProposalNumber, V)>,
}

impl<V: View> View for AcceptorState<V> {
    type V = Acceptor<V::V>;

    open spec fn view(&self) -> Acceptor<V::V> {
        Acceptor { promised: opt(self.highest_promised), accepted: opt(self.accepted) }
    }
}

impl<T> Acceptor<T> {
    /// An accepted proposal implies a promise at least as high, and all rounds
    /// are greater than zero.
    pub open spec fn valid(self) -> bool {
        &&& self.accepted is Some ==> self.promised is Some
        &&& self.promised is Some ==> (self.promised->0).0 > 0
        &&& self.accepted is Some ==> ((self.accepted->0).0).0 > 0
        &&& self.accepted is Some ==> !ballot_less(self.promised->0, (self.accepted->0).0)
    }

    /// The first rule that is broken, in words.
    pub open spec fn defect(self) -> Option<Seq<char>> {
        if self.accepted is Some && self.promised is None {
            Some("accepted value without highest promised proposal"@)
        } else if self.promised is Some && (self.promised->0).0 == 0 {
            Some("highest promised proposal round must be greater than zero"@)
        } else if self.accepted is Some && ((self.accepted->0).0).0 == 0 {
            Some("accepted proposal round must be greater than zero"@)
        } else if self.accepted is Some && ballot_less(self.promised->0, (self.accepted->0).0) {
            Some("accepted proposal must not exceed highest promised proposal"@)
        } else {
            None
        }
    }
}

/// Returns a copy of an optional proposal number.
pub fn copy_number_opt(number: &Option<ProposalNumber>) -> (copy: Option<ProposalNumber>)
    ensures
        opt(copy) == opt(*number),
{
    match number {
        Some(n) => Some(copy_number(n)),
        None => None,
    }
}

/// Returns a copy of an optional accepted proposal.
pub fn copy_accepted<V: Value>(accepted: &Option<(ProposalNumber, V)>) -> (copy: Option<
    (ProposalNumber, V),
>)
    ensures
        opt(copy) == opt(*accepted),
{
    match accepted {
        Some(a) => Some((copy_number(&a.0), a.1.copied())),
        None => None,
    }
}

impl<V: View> AcceptorState<V> {
    /// The first rule that this state breaks, in words.
    pub fn validation_error(&self) -> (defect: Option<&'static str>)
        ensures
            opt(defect) == self@.defect(),
            defect is None <==> self@.valid(),
    {
        if self.accepted.is_some() && self.highest_promised.is_none() {
            return Some("accepted value without highest promised proposal");
        }
        if let Some(highest_promised) = &self.highest_promised {
            if highest_promised.0 == 0 {
                return Some("highest promised proposal round must be greater than zero");
            }
        }
        if let Some(accepted) = &self.accepted {
            if (accepted.0).0 == 0 {
                return Some("accepted proposal round must be greater than zero");
            }
        }
        if let (Some(highest_promised), Some(accepted)) = (&self.highest_promised, &self.accepted) {
            if number_less(highest_promised, &accepted.0) {
                return Some("accepted proposal must not exceed highest promised proposal");
            }
        }
        None
    }

    /// Returns `true` if this state satisfies the Paxos invariants:
    ///
    /// 1. If `accepted` is `Some`, then `highest_promised` must also be `Some`.
    /// 2. All proposal round numbers must be > 0.
    /// 3. The accepted proposal number must be <= `highest_promised`.
    pub fn is_valid(&self) -> (valid: bool)
        ensures
            valid == self@.valid(),
    {
        self.validation_error().is_none()
    }
}

impl<V: Value> AcceptorState<V> {
    /// Returns a second copy of this state.
    pub fn copied(&self) -> (copy: Self)
        ensures
            copy.slot == self.slot,
            copy@ == self@,
    {
        AcceptorState {
            slot: self.slot,
            highest_promised: copy_number_opt(&self.highest_promised),
            accepted: copy_accepted(&self.accepted),
        }
    }
}

/// Whether `pairs` lists the contents of `map`, in any order, each slot once.
pub open spec fn lists<V: View>(pairs: Seq<(u64, V)>, map: Map<u64, V::V>) -> bool {
    &&& forall|i: int, j: int| 0 <= i < j < pairs.len() ==> pairs[i].0 != pairs[j].0
    &&& forall|i: int|
        0 <= i < pairs.len() ==> #[trigger] map.contains_key(pairs[i].0) && map[pairs[i].0]
            == pairs[i].1@
    &&& forall|slot: u64| #[trigger]
        map.contains_key(slot) ==> exists|i: int| 0 <= i < pairs.len() && pairs[i].0 == slot
}

/// Whether `states` lists the contents of `map`, in any order, each slot once.
pub open spec fn lists_acceptors<V: View>(
    states: Seq<AcceptorState<V>>,
    map: Map<u64, Acceptor<V::V>>,
) -> bool {
    &&& forall|i: int, j: int| 0 <= i < j < states.len() ==> states[i].slot != states[j].slot
    &&& forall|i: int|
        0 <= i < states.len() ==> #[trigger] map.contains_key(states[i].slot)
            && map[states[i].slot] == states[i]@
    &&& forall|slot: u64| #[trigger]
        map.contains_key(slot) ==> exists|i: int| 0 <= i < states.len() && states[i].slot == slot
}

/// A list of a table is the whole table: every slot of it stands at one place of the
/// list, with its value, and the list is as long as the table has slots.
pub proof fn lists_are_whole<V: View>(pairs: Seq<(u64, V)>, map: Map<u64, V::V>)
    requires
        lists(pairs, map),
    ensures
        pairs.len() == map.dom().len(),
        map.dom().finite(),
        forall|slot: u64| #[trigger]
            map.contains_key(slot) ==> exists|i: int|
                0 <= i < pairs.len() && (#[trigger] pairs[i]).0 == slot && pairs[i].1@ == map[slot],
        forall|i: int, j: int|
            0 <= i < pairs.len() && 0 <= j < pairs.len() && pairs[i].0 == pairs[j].0 ==> i == j,
{
    let slots = pairs.map_values(|p: (u64, V)| p.0);
    assert forall|i: int, j: int| 0 <= i < slots.len() && 0 <= j < slots.len() && i != j implies
        slots[i] != slots[j] by {
        if i < j {
            assert(pairs[i].0 != pairs[j].0);
        } else {
            assert(pairs[j].0 != pairs[i].0);
        }
    }
    assert(slots.no_duplicates());
    slots.unique_seq_to_set();
    vstd::seq_lib::seq_to_set_is_finite(slots);
    assert forall|slot: u64| slots.to_set().contains(slot) == map.contains_key(slot) by {
        if slots.to_set().contains(slot) {
            let i = choose|i: int| 0 <= i < slots.len() && slots[i] == slot;
            assert(map.contains_key(pairs[i].0));
        }
        if map.contains_key(slot) {
            let i = choose|i: int| 0 <= i < pairs.len() && pairs[i].0 == slot;
            assert(slots[i] == slot);
        }
    }
    assert(slots.to_set() =~= map.dom());
    assert forall|slot: u64| #[trigger] map.contains_key(slot) implies exists|i: int|
        0 <= i < pairs.len() && (#[trigger] pairs[i]).0 == slot && pairs[i].1@ == map[slot] by {
        let i = choose|i: int| 0 <= i < pairs.len() && pairs[i].0 == slot;
        assert(map.contains_key(pairs[i].0));
        assert(pairs[i].0 == slot && pairs[i].1@ == map[slot]);
    }
}

/// The same of a list of acceptor states.
pub proof fn acceptor_lists_are_whole<V: View>(
    states: Seq<AcceptorState<V>>,
    map: Map<u64, Acceptor<V::V>>,
)
    requires
        lists_acceptors(states, map),
    ensures
        states.len() == map.dom().len(),
        map.dom().finite(),
        forall|slot: u64| #[trigger]
            map.contains_key(slot) ==> exists|i: int|
                0 <= i < states.len() && (#[trigger] states[i]).slot == slot && states[i]@
                    == map[slot],
{
    let slots = states.map_values(|s: AcceptorState<V>| s.slot);
    assert forall|i: int, j: int| 0 <= i < slots.len() && 0 <= j < slots.len() && i != j implies
        slots[i] != slots[j] by {
        if i < j {
            assert(states[i].slot != states[j].slot);
        } else {
            assert(states[j].slot != states[i].slot);
        }
    }
    assert(slots.no_duplicates());
    slots.unique_seq_to_set();
    vstd::seq_lib::seq_to_set_is_finite(slots);
    assert forall|slot: u64| slots.to_set().contains(slot) == map.contains_key(slot) by {
        if slots.to_set().contains(slot) {
            let i = choose|i: int| 0 <= i < slots.len() && slots[i] == slot;
            assert(map.contains_key(states[i].slot));
        }
        if map.contains_key(slot) {
            let i = choose|i: int| 0 <= i < states.len() && states[i].slot == slot;
            assert(slots[i] == slot);
        }
    }
    assert(slots.to_set() =~= map.dom());
    assert forall|slot: u64| #[trigger] map.contains_key(slot) implies exists|i: int|
        0 <= i < states.len() && (#[trigger] states[i]).slot == slot && states[i]@ == map[slot] by {
        let i = choose|i: int| 0 <= i < states.len() && states[i].slot == slot;
        assert(map.contains_key(states[i].slot));
        assert(states[i].slot == slot && states[i]@ == map[slot]);
    }
}

/// Which acceptor states are valid: those whose rounds are greater than zero and
/// whose accepted number, if there is one, is no higher than the one promised.
pub proof fn valid_states_keep_their_promise<T>(a: Acceptor<T>)
    ensures
        a.valid() <==> match (a.promised, a.accepted) {
            (None, None) => true,
            (None, Some(_)) => false,
            (Some(p), None) => p.0 > 0,
            (Some(p), Some(v)) => {
                let n = v.0;
                &&& n.0 > 0
                &&& n.0 < p.0 || (n.0 == p.0 && !p.1.less(n.1))
            },
        },
        a.valid() <==> a.defect() is None,
{
}

/// Durable storage for the decisions of a Multi-Paxos node.
///
/// Implementations persist decided slot-value pairs so a node can recover its
/// state after a restart. For testing, use [`PaxosMemoryStorage`].
pub trait PaxosStorage<V: Value>: Sized {
    /// The decisions held.
    spec fn decisions(&self) -> Map<u64, V::V>;

    /// Persist a decided value for the given slot.
    fn save_decision(&mut self, slot: u64, value: V) -> (r: Result<(), StorageError>)
        ensures
            r is Ok ==> final(self).decisions() == old(self).decisions().insert(slot, value@),
    ;

    /// Load all previously persisted decisions, in any order.
    fn load_decisions(&self) -> (r: Result<Vec<(u64, V)>, StorageError>)
        ensures
            r matches Ok(pairs) ==> lists(pairs@, self.decisions()),
    ;
}

/// What a Raft node keeps across restarts.
#[verifier::ext_equal]
pub struct RaftStored<T> {
    pub decisions: Map<u64, T>,
    pub term: u64,
    pub voted_for: Option<NodeName>,
    pub log: Seq<Entry<T>>,
    pub commit_index: Option<u64>,
}

/// Drop the entries of a log from `index` on; a no-op past its end.
pub open spec fn truncated<T>(log: Seq<T>, index: u64) -> Seq<T> {
    if index < log.len() {
        log.take(index as int)
    } else {
        log
    }
}

/// Durable storage for a Raft node: the decided values, and the persistent
/// state of the protocol (term, vote, log and commit index).
///
/// Use [`RaftMemoryStorage`] in tests; production deployments should provide
/// a durable backing store.
pub trait RaftStorage<V: Value>: Sized {
    /// The state held.
    spec fn stored(&self) -> RaftStored<V::V>;

    /// Persist a decided value for the given slot.
    fn save_decision(&mut self, slot: u64, value: V) -> (r: Result<(), StorageError>)
        ensures
            r is Ok ==> final(self).stored() == (RaftStored {
                decisions: old(self).stored().decisions.insert(slot, value@),
                ..old(self).stored()
            }),
            r is Err ==> final(self).stored() == (RaftStored {
                decisions: final(self).stored().decisions,
                ..old(self).stored()
            }),
            r is Err ==> final(self).stored().decisions.remove(slot) == old(
                self,
            ).stored().decisions.remove(slot),
    ;

    /// Load all previously persisted decisions, in any order.
    fn load_decisions(&self) -> (r: Result<Vec<(u64, V)>, StorageError>)
        ensures
            r matches Ok(pairs) ==> lists(pairs@, self.stored().decisions),
    ;

    /// Persist the current term.
    fn save_term(&mut self, term: u64) -> (r: Result<(), StorageError>)
        ensures
            r is Ok ==> final(self).stored() == (RaftStored { term, ..old(self).stored() }),
            r is Err ==> final(self).stored() == (RaftStored {
                term: final(self).stored().term,
                ..old(self).stored()
            }),
    ;

    /// Load the persisted term, or 0 if no term was ever saved.
    fn load_term(&self) -> (r: Result<u64, StorageError>)
        ensures
            r matches Ok(term) ==> term == self.stored().term,
    ;

    /// Persist the candidate this node voted for in the current term, or
    /// `None` to clear the vote.
    fn save_voted_for(&mut self, voted_for: Option<NodeId>) -> (r: Result<(), StorageError>)
        ensures
            r is Ok ==> final(self).stored() == (RaftStored {
                voted_for: opt(voted_for),
                ..old(self).stored()
            }),
            r is Err ==> final(self).stored() == (RaftStored {
                voted_for: final(self).stored().voted_for,
                ..old(self).stored()
            }),
    ;

    /// Load the persisted vote, if any.
    fn load_voted_for(&self) -> (r: Result<Option<NodeId>, StorageError>)
        ensures
            r matches Ok(voted_for) ==> opt(voted_for) == self.stored().voted_for,
    ;

    /// Append entries to the end of the log, in order.
    fn append_log(&mut self, entries: Vec<LogEntry<V>>) -> (r: Result<(), StorageError>)
        ensures
            r is Ok ==> final(self).stored() == (RaftStored {
                log: old(self).stored().log + entries_of(entries@),
                ..old(self).stored()
            }),
            r is Err ==> final(self).stored() == (RaftStored {
                log: final(self).stored().log,
                ..old(self).stored()
            }),
    ;

    /// Drop log entries from `index` (inclusive) onward. A no-op if `index` is
    /// past the end of the log.
    fn truncate_log_from(&mut self, index: u64) -> (r: Result<(), StorageError>)
        ensures
            r is Ok ==> final(self).stored() == (RaftStored {
                log: truncated(old(self).stored().log, index),
                ..old(self).stored()
            }),
            r is Err ==> final(self).stored() == (RaftStored {
                log: final(self).stored().log,
                ..old(self).stored()
            }),
    ;

    /// Load the entire log.
    fn load_log(&self) -> (r: Result<Vec<LogEntry<V>>, StorageError>)
        ensures
            r matches Ok(log) ==> entries_of(log@) == self.stored().log,
    ;

    /// Persist the commit index.
    fn save_commit_index(&mut self, commit_index: Option<u64>) -> (r: Result<(), StorageError>)
        ensures
            r is Ok ==> final(self).stored() == (RaftStored {
                commit_index,
                ..old(self).stored()
            }),
            r is Err ==> final(self).stored() == (RaftStored {
                commit_index: final(self).stored().commit_index,
                ..old(self).stored()
            }),
    ;

    /// Load the persisted commit index, if any.
    fn load_commit_index(&self) -> (r: Result<Option<u64>, StorageError>)
        ensures
            r matches Ok(commit_index) ==> commit_index == self.stored().commit_index,
    ;
}

/// Whether one of the loads from a storage can fail with this error.
pub open spec fn raft_load_fails<V: Value, S: RaftStorage<V>>(storage: S, e: StorageError) -> bool {
    ||| call_ensures(S::load_term, (&storage,), Err::<u64, StorageError>(e))
    ||| call_ensures(S::load_voted_for, (&storage,), Err::<Option<NodeId>, StorageError>(e))
    ||| call_ensures(S::load_log, (&storage,), Err::<Vec<LogEntry<V>>, StorageError>(e))
    ||| call_ensures(S::load_decisions, (&storage,), Err::<Vec<(u64, V)>, StorageError>(e))
    ||| call_ensures(S::load_commit_index, (&storage,), Err::<Option<u64>, StorageError>(e))
}

/// Whether a write of what a node has to remember can fail with this error, in a
/// storage of this kind.
pub open spec fn raft_flush_fails<V: Value, S: RaftStorage<V>>(e: StorageError) -> bool {
    let failed = Err::<(), StorageError>(e);
    ||| exists|s: &mut S, term: u64| #[trigger] call_ensures(S::save_term, (s, term), failed)
    ||| exists|s: &mut S, vote: Option<NodeId>| #[trigger]
        call_ensures(S::save_voted_for, (s, vote), failed)
    ||| exists|s: &mut S, index: u64| #[trigger]
        call_ensures(S::truncate_log_from, (s, index), failed)
    ||| exists|s: &mut S, entries: Vec<LogEntry<V>>| #[trigger]
        call_ensures(S::append_log, (s, entries), failed)
    ||| exists|s: &mut S, index: Option<u64>| #[trigger]
        call_ensures(S::save_commit_index, (s, index), failed)
}

/// Whether saving a decision can fail with this error, in a storage of this kind.
pub open spec fn raft_save_fails<V: Value, S: RaftStorage<V>>(e: StorageError) -> bool {
    exists|s: &mut S, slot: u64, value: V| #[trigger]
        call_ensures(S::save_decision, (s, slot, value), Err::<(), StorageError>(e))
}

/// What a Paxos node keeps across restarts.
#[verifier::ext_equal]
pub struct PaxosStored<T> {
    pub decisions: Map<u64, T>,
    pub acceptors: Map<u64, Acceptor<T>>,
}

/// Whether two states differ in what they hold of one slot at most.
pub open spec fn same_but_for<T>(a: PaxosStored<T>, b: PaxosStored<T>, slot: u64) -> bool {
    &&& a.decisions.remove(slot) == b.decisions.remove(slot)
    &&& a.acceptors.remove(slot) == b.acceptors.remove(slot)
}

/// Durable storage for consensus decisions and acceptor state.
///
/// For production use, implement this trait with a database or file-backed
/// store. For testing, use [`MemoryStorage`].
pub trait Storage<V: Value>: Sized {
    /// The state held.
    spec fn stored(&self) -> PaxosStored<V::V>;

    /// Persist a decided value for the given slot, and remove any acceptor
    /// state for it.
    fn save_decision(&mut self, slot: u64, value: V) -> (r: Result<(), StorageError>)
        ensures
            r is Ok ==> final(self).stored() == (PaxosStored {
                decisions: old(self).stored().decisions.insert(slot, value@),
                acceptors: old(self).stored().acceptors.remove(slot),
            }),
            r is Err ==> same_but_for(old(self).stored(), final(self).stored(), slot),
    ;

    /// Load all previously persisted decisions, in any order.
    fn load_decisions(&self) -> (r: Result<Vec<(u64, V)>, StorageError>)
        ensures
            r matches Ok(pairs) ==> lists(pairs@, self.stored().decisions),
    ;

    /// Persist the acceptor state for a slot that has not yet been decided.
    fn save_acceptor_state(
        &mut self,
        slot: u64,
        highest_promised: Option<ProposalNumber>,
        accepted: Option<(ProposalNumber, V)>,
    ) -> (r: Result<(), StorageError>)
        ensures
            r is Ok ==> final(self).stored() == (PaxosStored {
                acceptors: old(self).stored().acceptors.insert(
                    slot,
                    Acceptor { promised: opt(highest_promised), accepted: opt(accepted) },
                ),
                ..old(self).stored()
            }),
            r is Err ==> final(self).stored().decisions == old(self).stored().decisions,
            r is Err ==> same_but_for(old(self).stored(), final(self).stored(), slot),
    ;

    /// Load all persisted acceptor states, in any order.
    fn load_acceptor_states(&self) -> (r: Result<Vec<AcceptorState<V>>, StorageError>)
        ensures
            r matches Ok(states) ==> lists_acceptors(states@, self.stored().acceptors),
    ;

    /// Delete the acceptor state for a slot.
    fn delete_acceptor_state(&mut self, slot: u64) -> (r: Result<(), StorageError>)
        ensures
            r is Ok ==> final(self).stored() == (PaxosStored {
                acceptors: old(self).stored().acceptors.remove(slot),
                ..old(self).stored()
            }),
            r is Err ==> final(self).stored().decisions == old(self).stored().decisions,
            r is Err ==> same_but_for(old(self).stored(), final(self).stored(), slot),
    ;
}

/// Whether one of the loads from a storage can fail with this error.
pub open spec fn load_fails<V: Value, S: Storage<V>>(storage: S, e: StorageError) -> bool {
    ||| call_ensures(S::load_decisions, (&storage,), Err::<Vec<(u64, V)>, StorageError>(e))
    ||| call_ensures(
        S::load_acceptor_states,
        (&storage,),
        Err::<Vec<AcceptorState<V>>, StorageError>(e),
    )
}

/// Whether a write of an acceptor state can fail with this error, in a storage of
/// this kind.
pub open spec fn flush_fails<V: Value, S: Storage<V>>(e: StorageError) -> bool {
    exists|
        s: &mut S,
        slot: u64,
        promised: Option<ProposalNumber>,
        accepted: Option<(ProposalNumber, V)>,
    | #[trigger]
        call_ensures(
            S::save_acceptor_state,
            (s, slot, promised, accepted),
            Err::<(), StorageError>(e),
        )
}

/// Whether saving a decision can fail with this error, in a storage of this kind.
pub open spec fn save_fails<V: Value, S: Storage<V>>(e: StorageError) -> bool {
    exists|s: &mut S, slot: u64, value: V| #[trigger]
        call_ensures(S::save_decision, (s, slot, value), Err::<(), StorageError>(e))
}

/// The slots and values of a table of decisions.
pub open spec fn table<V: View>(decisions: Map<u64, V>) -> Map<u64, V::V> {
    decisions.map_values(|v: V| v@)
}

/// A table holds what is kept under each slot, and nothing else.
pub proof fn tables_hold_what_is_kept<V: View>(decisions: Map<u64, V>)
    ensures
        forall|slot: u64| #[trigger]
            table(decisions).contains_key(slot) <==> decisions.contains_key(slot),
        forall|slot: u64| #[trigger]
            table(decisions).contains_key(slot) ==> table(decisions)[slot] == decisions[slot]@,
{
}

/// Truncating a log keeps what lies before the index and drops the rest, so that
/// what was dropped can be appended again.
pub proof fn truncated_logs_can_be_completed<T>(log: Seq<T>, index: u64)
    ensures
        index <= log.len() ==> truncated(log, index).len() == index && truncated(log, index)
            + log.skip(index as int) == log,
        index >= log.len() ==> truncated(log, index) == log,
{
    if index <= log.len() {
        assert(truncated(log, index) + log.skip(index as int) =~= log);
    }
}

/// Lists a table of decisions.
fn list_decisions<V: Value>(decisions: &HashMap<u64, V>) -> (pairs: Vec<(u64, V)>)
    ensures
        lists(pairs@, table(decisions@)),
{
    let mut pairs: Vec<(u64, V)> = Vec::new();
    let ghost map = table(decisions@);
    let slots: Vec<u64> = slots_of(decisions);
    let mut k: usize = 0;
    while k < slots.len()
        invariant
            k <= slots.len(),
            map == table(decisions@),
            slots@.to_set() == decisions@.dom(),
            pairs.len() == k,
            forall|i: int|
                0 <= i < k ==> (#[trigger] pairs[i]).0 == slots[i] && map.contains_key(pairs[i].0)
                    && map[pairs[i].0] == pairs[i].1@,
        decreases slots.len() - k,
    {
        let slot: u64 = slots[k];
        assert(slots@.to_set().contains(slot));
        if let Some(value) = decisions.get(&slot) {
            pairs.push((slot, value.copied()));
        }
        k += 1;
    }
    proof {
        assert forall|slot: u64| #[trigger] map.contains_key(slot) implies exists|i: int|
            0 <= i < pairs.len() && pairs[i].0 == slot by {
            assert(slots@.to_set().contains(slot));
            let i = choose|i: int| 0 <= i < slots.len() && slots[i] == slot;
            assert(pairs[i].0 == slot);
        }
    }
    pairs
}

/// In-memory [`PaxosStorage`] implementation backed by a `HashMap`.
///
/// Decisions are lost when the process exits. Suitable for tests and
/// ephemeral deployments where durability is not required.
pub struct PaxosMemoryStorage<V> {
    pub decisions: HashMap<u64, V>,
}

impl<V: Value> PaxosMemoryStorage<V> {
    /// Creates an empty `PaxosMemoryStorage`.
    pub fn new() -> (storage: Self)
        ensures
            PaxosStorage::<V>::decisions(&storage) == Map::<u64, V::V>::empty(),
    {
        let storage = PaxosMemoryStorage { decisions: HashMap::new() };
        assert(table(storage.decisions@) =~= Map::<u64, V::V>::empty());
        storage
    }
}

impl<V: Value> Default for PaxosMemoryStorage<V> {
    fn default() -> (storage: Self)
        ensures
            PaxosStorage::<V>::decisions(&storage) == Map::<u64, V::V>::empty(),
    {
        Self::new()
    }
}

impl<V: Value> PaxosStorage<V> for PaxosMemoryStorage<V> {
    open spec fn decisions(&self) -> Map<u64, V::V> {
        table(self.decisions@)
    }

    fn save_decision(&mut self, slot: u64, value: V) -> (r: Result<(), StorageError>)
        ensures
            r is Ok,
    {
        self.decisions.insert(slot, value);
        assert(table(self.decisions@) =~= table(old(self).decisions@).insert(slot, value@));
        Ok(())
    }

    fn load_decisions(&self) -> (r: Result<Vec<(u64, V)>, StorageError>)
        ensures
            r is Ok,
    {
        Ok(list_decisions(&self.decisions))
    }
}

/// In-memory [`RaftStorage`] implementation.
///
/// Holds the decision map alongside the persistent state of the protocol. Lost
/// on process exit; suitable for tests and ephemeral deployments.
pub struct RaftMemoryStorage<V> {
    pub decisions: HashMap<u64, V>,
    pub term: u64,
    pub voted_for: Option<NodeId>,
    pub log: Vec<LogEntry<V>>,
    pub commit_index: Option<u64>,
}

impl<V: Value> RaftMemoryStorage<V> {
    /// Creates an empty `RaftMemoryStorage`.
    pub fn new() -> (storage: Self)
        ensures
            storage.stored() == (RaftStored {
                decisions: Map::<u64, V::V>::empty(),
                term: 0,
                voted_for: None,
                log: Seq::<Entry<V::V>>::empty(),
                commit_index: None,
            }),
    {
        let storage = RaftMemoryStorage {
            decisions: HashMap::new(),
            term: 0,
            voted_for: None,
            log: Vec::new(),
            commit_index: None,
        };
        assert(table(storage.decisions@) =~= Map::<u64, V::V>::empty());
        assert(entries_of(storage.log@) =~= Seq::<Entry<V::V>>::empty());
        storage
    }
}

impl<V: Value> Default for RaftMemoryStorage<V> {
    fn default() -> (storage: Self)
        ensures
            storage.stored() == (RaftStored {
                decisions: Map::<u64, V::V>::empty(),
                term: 0,
                voted_for: None,
                log: Seq::<Entry<V::V>>::empty(),
                commit_index: None,
            }),
    {
        Self::new()
    }
}

impl<V: Value> RaftStorage<V> for RaftMemoryStorage<V> {
    open spec fn stored(&self) -> RaftStored<V::V> {
        RaftStored {
            decisions: table(self.decisions@),
            term: self.term,
            voted_for: opt(self.voted_for),
            log: entries_of(self.log@),
            commit_index: self.commit_index,
        }
    }

    fn save_decision(&mut self, slot: u64, value: V) -> (r: Result<(), StorageError>)
        ensures
            r is Ok,
    {
        self.decisions.insert(slot, value);
        assert(table(self.decisions@) =~= table(old(self).decisions@).insert(slot, value@));
        Ok(())
    }

    fn load_decisions(&self) -> (r: Result<Vec<(u64, V)>, StorageError>)
        ensures
            r is Ok,
    {
        Ok(list_decisions(&self.decisions))
    }

    fn save_term(&mut self, term: u64) -> (r: Result<(), StorageError>)
        ensures
            r is Ok,
    {
        self.term = term;
        Ok(())
    }

    fn load_term(&self) -> (r: Result<u64, StorageError>)
        ensures
            r is Ok,
    {
        Ok(self.term)
    }

    fn save_voted_for(&mut self, voted_for: Option<NodeId>) -> (r: Result<(), StorageError>)
        ensures
            r is Ok,
    {
        self.voted_for = voted_for;
        Ok(())
    }

    fn load_voted_for(&self) -> (r: Result<Option<NodeId>, StorageError>)
        ensures
            r is Ok,
    {
        Ok(copy_id(&self.voted_for))
    }

    fn append_log(&mut self, entries: Vec<LogEntry<V>>) -> (r: Result<(), StorageError>)
        ensures
            r is Ok,
    {
        let mut entries = entries;
        let ghost added = entries_of(entries@);
        self.log.append(&mut entries);
        assert(entries_of(self.log@) =~= entries_of(old(self).log@) + added);
        Ok(())
    }

    fn truncate_log_from(&mut self, index: u64) -> (r: Result<(), StorageError>)
        ensures
            r is Ok,
    {
        if index < self.log.len() as u64 {
            self.log.truncate(index as usize);
        }
        assert(entries_of(self.log@) =~= truncated(entries_of(old(self).log@), index));
        Ok(())
    }

    fn load_log(&self) -> (r: Result<Vec<LogEntry<V>>, StorageError>)
        ensures
            r is Ok,
    {
        let log: Vec<LogEntry<V>> = copy_entries(&self.log, 0);
        assert(entries_of(self.log@).skip(0) =~= entries_of(self.log@));
        Ok(log)
    }

    fn save_commit_index(&mut self, commit_index: Option<u64>) -> (r: Result<(), StorageError>)
        ensures
            r is Ok,
    {
        self.commit_index = commit_index;
        Ok(())
    }

    fn load_commit_index(&self) -> (r: Result<Option<u64>, StorageError>)
        ensures
            r is Ok,
    {
        Ok(self.commit_index)
    }
}

/// In-memory [`Storage`] implementation backed by `HashMap`s.
///
/// Decisions and acceptor states are lost when the process exits. Suitable for
/// tests and ephemeral deployments where durability is not required.
pub struct MemoryStorage<V> {
    pub decisions: HashMap<u64, V>,
    pub acceptor_states: HashMap<u64, AcceptorState<V>>,
}

impl<V: Value> MemoryStorage<V> {
    /// Creates an empty `MemoryStorage`.
    pub fn new() -> (storage: Self)
        ensures
            storage.stored() == (PaxosStored {
                decisions: Map::<u64, V::V>::empty(),
                acceptors: Map::<u64, Acceptor<V::V>>::empty(),
            }),
    {
        let storage = MemoryStorage { decisions: HashMap::new(), acceptor_states: HashMap::new() };
        assert(table(storage.decisions@) =~= Map::<u64, V::V>::empty());
        assert(table(storage.acceptor_states@) =~= Map::<u64, Acceptor<V::V>>::empty());
        storage
    }
}

impl<V: Value> Default for MemoryStorage<V> {
    fn default() -> (storage: Self)
        ensures
            storage.stored() == (PaxosStored {
                decisions: Map::<u64, V::V>::empty(),
                acceptors: Map::<u64, Acceptor<V::V>>::empty(),
            }),
    {
        Self::new()
    }
}

impl<V: Value> Storage<V> for MemoryStorage<V> {
    open spec fn stored(&self) -> PaxosStored<V::V> {
        PaxosStored { decisions: table(self.decisions@), acceptors: table(self.acceptor_states@) }
    }

    fn save_decision(&mut self, slot: u64, value: V) -> (r: Result<(), StorageError>)
        ensures
            r is Ok,
    {
        self.decisions.insert(slot, value);
        self.acceptor_states.remove(&slot);
        assert(table(self.decisions@) =~= table(old(self).decisions@).insert(slot, value@));
        assert(table(self.acceptor_states@) =~= table(old(self).acceptor_states@).remove(slot));
        Ok(())
    }

    fn load_decisions(&self) -> (r: Result<Vec<(u64, V)>, StorageError>)
        ensures
            r is Ok,
    {
        Ok(list_decisions(&self.decisions))
    }

    fn save_acceptor_state(
        &mut self,
        slot: u64,
        highest_promised: Option<ProposalNumber>,
        accepted: Option<(ProposalNumber, V)>,
    ) -> (r: Result<(), StorageError>)
        ensures
            r is Ok,
    {
        let state = AcceptorState { slot, highest_promised, accepted };
        self.acceptor_states.insert(slot, state);
        assert(table(self.acceptor_states@) =~= table(old(self).acceptor_states@).insert(
            slot,
            state@,
        ));
        Ok(())
    }

    fn load_acceptor_states(&self) -> (r: Result<Vec<AcceptorState<V>>, StorageError>)
        ensures
            r is Ok,
    {
        let mut states: Vec<AcceptorState<V>> = Vec::new();
        let ghost map = table(self.acceptor_states@);
        let slots: Vec<u64> = slots_of(&self.acceptor_states);
        let mut k: usize = 0;
        while k < slots.len()
            invariant
                k <= slots.len(),
                map == table(self.acceptor_states@),
                slots@.to_set() == self.acceptor_states@.dom(),
                states.len() == k,
                forall|i: int|
                    0 <= i < k ==> (#[trigger] states[i]).slot == slots[i] && map.contains_key(
                        states[i].slot,
                    ) && map[states[i].slot] == states[i]@,
            decreases slots.len() - k,
        {
            let slot: u64 = slots[k];
            assert(slots@.to_set().contains(slot));
            if let Some(state) = self.acceptor_states.get(&slot) {
                states.push(
                    AcceptorState {
                        slot,
                        highest_promised: copy_number_opt(&state.highest_promised),
                        accepted: copy_accepted(&state.accepted),
                    },
                );
            }
            k += 1;
        }
        proof {
            assert forall|slot: u64| #[trigger] map.contains_key(slot) implies exists|i: int|
                0 <= i < states.len() && states[i].slot == slot by {
                assert(slots@.to_set().contains(slot));
                let i = choose|i: int| 0 <= i < slots.len() && slots[i] == slot;
                assert(states[i].slot == slot);
            }
        }
        Ok(states)
    }

    fn delete_acceptor_state(&mut self, slot: u64) -> (r: Result<(), StorageError>)
        ensures
            r is Ok,
    {
        self.acceptor_states.remove(&slot);
        assert(table(self.acceptor_states@) =~= table(old(self).acceptor_states@).remove(slot));
        Ok(())
    }
}

} // verus!
